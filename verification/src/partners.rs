//! Partner allocation: named weights, not a partner count.
//!
//! An empty cut is silence, and a figure allocated under silence stays unset
//! rather than split one-over-N. A figure that does not divide exactly across
//! the weights is refused: a remainder would be a misstatement of who owns the
//! income, not a rounding error. Every product is checked before the
//! divisibility guard is asked about it.

use vstd::prelude::*;
use vstd::string::*;
use crate::text::{blank, decimal, is_blank, push_decimal, push_quoted, quoted};
use crate::config::{Reason, Rejected, Rejection, first_of, outcome, overflow_rejected};
use crate::checked::fits;

verus! {

/// One named weight in a cut: a positive integer share of the whole.
#[derive(Clone, Debug, PartialEq, Eq)]
pub struct PartnerShare {
    pub partner: String,
    pub weight: i64,
}

/// The book figure a special or a default cut applies to.
#[derive(Clone, Copy, Debug, PartialEq, Eq, Structural)]
pub enum AllocationKind {
    Income,
    Expense,
    Unrealized,
}

/// How a kind is written.
pub open spec fn allocation_kind_text(k: AllocationKind) -> Seq<char> {
    match k {
        AllocationKind::Income => "income"@,
        AllocationKind::Expense => "expense"@,
        AllocationKind::Unrealized => "unrealized"@,
    }
}

impl AllocationKind {
    /// How the kind is written.
    pub fn as_str(self) -> (r: &'static str)
        ensures
            r@ == allocation_kind_text(self),
    {
        match self {
            AllocationKind::Income => {
                proof { reveal_strlit("income"); }
                "income"
            },
            AllocationKind::Expense => {
                proof { reveal_strlit("expense"); }
                "expense"
            },
            AllocationKind::Unrealized => {
                proof { reveal_strlit("unrealized"); }
                "unrealized"
            },
        }
    }
}

/// A standing special: this partner's weight of this kind, replacing the
/// default cut for that kind.
#[derive(Clone, Debug, PartialEq, Eq)]
pub struct SpecialAllocation {
    pub partner: String,
    pub kind: AllocationKind,
    pub weight: i64,
}

/// An exact amount named on a journal entry.
#[derive(Clone, Debug, PartialEq, Eq)]
pub struct AllocationFact {
    pub partner: String,
    /// `income`, `expense` or `unrealized`.
    pub kind: String,
    pub amount: i64,
}

/// Whether an earlier row of a cut names the same partner as row `i`.
pub open spec fn cut_repeats(cut: Seq<PartnerShare>, i: int) -> bool {
    exists|j: int| 0 <= j < i && #[trigger] cut[j].partner@ == cut[i].partner@
}

/// The refusal of row `i` of a cut on its own.
pub open spec fn cut_row_rejection(cut: Seq<PartnerShare>, i: int) -> Option<Rejected> {
    let s = cut[i];
    if blank(s.partner@) {
        Some((Reason::CutWithoutPartner,
            "a partner_cut row without a partner is not a cut — the grain is the suffix on Partner capital (LP, GP), not a blank"@))
    } else if s.weight <= 0 {
        Some((Reason::CutNotAWeight,
            "partner_cut "@ + quoted(s.partner@) + " weight is "@ + decimal(s.weight as int)
                + ", and a non-positive weight is not a weight — that row would take nothing or the opposite of what the election says. Ratio.Partners.wellFormed"@))
    } else if cut_repeats(cut, i) {
        Some((Reason::CutTwice,
            "this configuration names partner_cut "@ + quoted(s.partner@)
                + " twice. Two rows for one partner are two answers under one name. Ratio.Partners.wellFormed"@))
    } else {
        None
    }
}

/// The first refusal among the rows of a cut from `i` on.
pub open spec fn cut_rejection(cut: Seq<PartnerShare>, i: int) -> Option<Rejected>
    decreases cut.len() - i,
{
    if i < 0 || i >= cut.len() {
        None
    } else {
        first_of(cut_row_rejection(cut, i), cut_rejection(cut, i + 1))
    }
}

/// Check a cut when the configuration is read. Empty is silence; a row with
/// no partner, a weight that is not positive, or a partner named twice is
/// refused.
pub fn check_cut(cut: &[PartnerShare]) -> (r: Result<(), Rejection>)
    ensures
        outcome(r) == cut_rejection(cut@, 0),
{
    let ghost c = cut@;
    let mut i: usize = 0;
    while i < cut.len()
        invariant
            0 <= i <= c.len(),
            c == cut@,
            cut_rejection(c, 0) == cut_rejection(c, i as int),
        decreases c.len() - i,
    {
        let row = &cut[i];
        if is_blank(row.partner.as_str()) {
            let s = String::from_str("a partner_cut row without a partner is not a cut — the grain is the suffix on Partner capital (LP, GP), not a blank");
            return Err(Rejection { reason: Reason::CutWithoutPartner, text: s });
        }
        if row.weight <= 0 {
            let mut s = String::from_str("partner_cut ");
            push_quoted(&mut s, row.partner.as_str());
            s.append(" weight is ");
            push_decimal(&mut s, row.weight as i128);
            s.append(", and a non-positive weight is not a weight — that row would take nothing or the opposite of what the election says. Ratio.Partners.wellFormed");
            assert(s@ =~= cut_row_rejection(c, i as int).unwrap().1);
            return Err(Rejection { reason: Reason::CutNotAWeight, text: s });
        }
        let mut j: usize = 0;
        while j < i
            invariant
                0 <= j <= i < c.len(),
                c == cut@,
                !blank(c[i as int].partner@),
                c[i as int].weight > 0,
                cut_rejection(c, 0) == cut_rejection(c, i as int),
                forall|k: int| 0 <= k < j ==> c[k].partner@ != c[i as int].partner@,
            decreases i - j,
        {
            if cut[j].partner == cut[i].partner {
                assert(cut_repeats(c, i as int));
                let mut s = String::from_str("this configuration names partner_cut ");
                push_quoted(&mut s, cut[i].partner.as_str());
                s.append(" twice. Two rows for one partner are two answers under one name. Ratio.Partners.wellFormed");
                assert(s@ =~= cut_row_rejection(c, i as int).unwrap().1);
                return Err(Rejection { reason: Reason::CutTwice, text: s });
            }
            j = j + 1;
        }
        i = i + 1;
    }
    Ok(())
}

/// Whether an earlier special names the same partner and kind as special `i`.
pub open spec fn special_repeats(sp: Seq<SpecialAllocation>, i: int) -> bool {
    exists|j: int| 0 <= j < i && #[trigger] sp[j].partner@ == sp[i].partner@ && sp[j].kind == sp[i].kind
}

/// The refusal of special `i` on its own.
pub open spec fn special_row_rejection(sp: Seq<SpecialAllocation>, i: int) -> Option<Rejected> {
    let s = sp[i];
    if blank(s.partner@) {
        Some((Reason::SpecialWithoutPartner,
            "a special_allocation row without a partner is not a cut — omit the row"@))
    } else if s.weight <= 0 {
        Some((Reason::SpecialNotAWeight,
            "special_allocation "@ + quoted(s.partner@) + " "@ + quoted(allocation_kind_text(s.kind))
                + " weight is "@ + decimal(s.weight as int) + ", and a non-positive weight is not a weight. Ratio.Partners.wellFormed"@))
    } else if special_repeats(sp, i) {
        Some((Reason::SpecialTwice,
            "this configuration names special_allocation "@ + quoted(s.partner@) + " "@
                + quoted(allocation_kind_text(s.kind))
                + " twice. Two rows for one partner and kind are two answers under one name"@))
    } else {
        None
    }
}

/// The first refusal among the specials from `i` on.
pub open spec fn specials_rejection(sp: Seq<SpecialAllocation>, i: int) -> Option<Rejected>
    decreases sp.len() - i,
{
    if i < 0 || i >= sp.len() {
        None
    } else {
        first_of(special_row_rejection(sp, i), specials_rejection(sp, i + 1))
    }
}

/// Check standing specials when the configuration is read.
pub fn check_specials(specials: &[SpecialAllocation]) -> (r: Result<(), Rejection>)
    ensures
        outcome(r) == specials_rejection(specials@, 0),
{
    let ghost c = specials@;
    let mut i: usize = 0;
    while i < specials.len()
        invariant
            0 <= i <= c.len(),
            c == specials@,
            specials_rejection(c, 0) == specials_rejection(c, i as int),
        decreases c.len() - i,
    {
        let row = &specials[i];
        if is_blank(row.partner.as_str()) {
            let s = String::from_str("a special_allocation row without a partner is not a cut — omit the row");
            return Err(Rejection { reason: Reason::SpecialWithoutPartner, text: s });
        }
        if row.weight <= 0 {
            let mut s = String::from_str("special_allocation ");
            push_quoted(&mut s, row.partner.as_str());
            s.append(" ");
            push_quoted(&mut s, row.kind.as_str());
            s.append(" weight is ");
            push_decimal(&mut s, row.weight as i128);
            s.append(", and a non-positive weight is not a weight. Ratio.Partners.wellFormed");
            assert(s@ =~= special_row_rejection(c, i as int).unwrap().1);
            return Err(Rejection { reason: Reason::SpecialNotAWeight, text: s });
        }
        let mut j: usize = 0;
        while j < i
            invariant
                0 <= j <= i < c.len(),
                c == specials@,
                !blank(c[i as int].partner@),
                c[i as int].weight > 0,
                specials_rejection(c, 0) == specials_rejection(c, i as int),
                forall|k: int| 0 <= k < j ==> !(c[k].partner@ == c[i as int].partner@ && c[k].kind == c[i as int].kind),
            decreases i - j,
        {
            if specials[j].kind == specials[i].kind && specials[j].partner == specials[i].partner {
                assert(special_repeats(c, i as int));
                let mut s = String::from_str("this configuration names special_allocation ");
                push_quoted(&mut s, specials[i].partner.as_str());
                s.append(" ");
                push_quoted(&mut s, specials[i].kind.as_str());
                s.append(" twice. Two rows for one partner and kind are two answers under one name");
                assert(s@ =~= special_row_rejection(c, i as int).unwrap().1);
                return Err(Rejection { reason: Reason::SpecialTwice, text: s });
            }
            j = j + 1;
        }
        i = i + 1;
    }
    Ok(())
}

/// A share as a value: the partner's name and an amount.
pub type ShareView = (Seq<char>, int);

/// Shares, each taken as a value.
pub open spec fn shares_view(s: Seq<(String, i64)>) -> Seq<ShareView>
    decreases s.len(),
{
    if s.len() == 0 {
        Seq::empty()
    } else {
        shares_view(s.drop_last()).push((s.last().0@, s.last().1 as int))
    }
}

/// The sum of the amounts of a run of shares.
pub open spec fn shares_total(s: Seq<ShareView>) -> int
    decreases s.len(),
{
    if s.len() == 0 {
        0
    } else {
        shares_total(s.drop_last()) + s.last().1
    }
}

/// The sum of the weights of a cut.
pub open spec fn weights_total(cut: Seq<PartnerShare>) -> int
    decreases cut.len(),
{
    if cut.len() == 0 {
        0
    } else {
        weights_total(cut.drop_last()) + cut.last().weight
    }
}

/// A cut, each row taken as its partner's name and weight.
pub open spec fn cut_view(cut: Seq<PartnerShare>) -> Seq<(Seq<char>, i64)>
    decreases cut.len(),
{
    if cut.len() == 0 {
        Seq::empty()
    } else {
        cut_view(cut.drop_last()).push((cut.last().partner@, cut.last().weight))
    }
}

/// The specials of a kind, in order, each as its partner's name and weight.
pub open spec fn named_for(kind: AllocationKind, specials: Seq<SpecialAllocation>) -> Seq<(Seq<char>, i64)>
    decreases specials.len(),
{
    if specials.len() == 0 {
        Seq::empty()
    } else if specials.last().kind == kind {
        named_for(kind, specials.drop_last()).push((specials.last().partner@, specials.last().weight))
    } else {
        named_for(kind, specials.drop_last())
    }
}

/// The cut that applies to a kind: the specials of that kind if any were
/// named, in order, otherwise the default.
pub open spec fn cut_for_view(kind: AllocationKind, default: Seq<PartnerShare>, specials: Seq<SpecialAllocation>) -> Seq<(Seq<char>, i64)> {
    if named_for(kind, specials).len() == 0 {
        cut_view(default)
    } else {
        named_for(kind, specials)
    }
}

/// The cut that applies to a kind: the specials if any were named, otherwise
/// the default. Empty specials are silence, not a zero-share cut.
pub fn cut_for(kind: AllocationKind, default: &[PartnerShare], specials: &[SpecialAllocation]) -> (r: Vec<PartnerShare>)
    ensures
        cut_view(r@) == cut_for_view(kind, default@, specials@),
{
    let mut named: Vec<PartnerShare> = Vec::new();
    let mut i: usize = 0;
    while i < specials.len()
        invariant
            0 <= i <= specials@.len(),
            cut_view(named@) == named_for(kind, specials@.take(i as int)),
        decreases specials@.len() - i,
    {
        proof {
            let t = specials@.take(i + 1);
            assert(t.drop_last() =~= specials@.take(i as int));
        }
        if specials[i].kind == kind {
            let ghost before = named@;
            named.push(PartnerShare { partner: specials[i].partner.clone(), weight: specials[i].weight });
            assert(named@.drop_last() =~= before);
        }
        i = i + 1;
    }
    assert(specials@.take(specials@.len() as int) =~= specials@);
    if named.len() == 0 {
        let mut out: Vec<PartnerShare> = Vec::new();
        let mut j: usize = 0;
        while j < default.len()
            invariant
                0 <= j <= default@.len(),
                cut_view(out@) == cut_view(default@.take(j as int)),
            decreases default@.len() - j,
        {
            let ghost before = out@;
            out.push(PartnerShare { partner: default[j].partner.clone(), weight: default[j].weight });
            assert(out@.drop_last() =~= before);
            assert(default@.take(j + 1).drop_last() =~= default@.take(j as int));
            j = j + 1;
        }
        assert(default@.take(default@.len() as int) =~= default@);
        out
    } else {
        named
    }
}

/// A clean cut: every row names a partner, weighs more than nothing, and no
/// partner twice.
proof fn lemma_clean_cut(cut: Seq<PartnerShare>, i: int)
    requires
        0 <= i <= cut.len(),
        cut_rejection(cut, i) is None,
    ensures
        forall|k: int| i <= k < cut.len() ==> cut_row_rejection(cut, k) is None,
    decreases cut.len() - i,
{
    if i < cut.len() {
        lemma_clean_cut(cut, i + 1);
    }
}

/// A cut of positive weights: every prefix weighs no more than the whole.
proof fn lemma_prefix_weights(cut: Seq<PartnerShare>, i: int)
    requires
        0 <= i <= cut.len(),
        forall|k: int| 0 <= k < cut.len() ==> #[trigger] cut[k].weight > 0,
    ensures
        0 <= weights_total(cut.take(i)) <= weights_total(cut),
        i < cut.len() ==> weights_total(cut.take(i)) < weights_total(cut.take(i + 1)),
    decreases cut.len() - i,
{
    if i < cut.len() {
        lemma_prefix_weights(cut, i + 1);
        assert(cut.take(i + 1).drop_last() =~= cut.take(i));
    } else {
        assert(cut.take(i) =~= cut);
    }
    lemma_weights_nonneg(cut.take(i));
}

proof fn lemma_weights_nonneg(cut: Seq<PartnerShare>)
    requires
        forall|k: int| 0 <= k < cut.len() ==> #[trigger] cut[k].weight > 0,
    ensures
        0 <= weights_total(cut),
    decreases cut.len(),
{
    if cut.len() > 0 {
        let d = cut.drop_last();
        assert forall|k: int| 0 <= k < d.len() implies #[trigger] d[k].weight > 0 by {
            assert(d[k] == cut[k]);
        }
        lemma_weights_nonneg(d);
        assert(cut[cut.len() - 1].weight > 0);
    }
}

/// The words for a figure that does not divide across a cut.
pub open spec fn indivisible_text(figure: int, weight: int, total: int, partner: Seq<char>) -> Seq<char> {
    "partner_cut cannot allocate "@ + decimal(figure) + " across the named weights ("@ + decimal(weight)
        + " / "@ + decimal(total) + " for "@ + quoted(partner)
        + "): the figure does not divide exactly, and a remainder would be a misstatement of who owns the income, not a rounding error. Ratio.Partners.a_slice_is_exactly_pro_rata"@
}

/// The refusal of row `i`'s slice of a figure.
pub open spec fn slice_rejection(figure: i64, cut: Seq<PartnerShare>, total: int, i: int) -> Option<Rejected> {
    let p = figure * cut[i].weight;
    if !fits(p) {
        Some(overflow_rejected("partner_cut slice"@))
    } else if p % total != 0 {
        Some((Reason::DoesNotDivide, indivisible_text(figure as int, cut[i].weight as int, total, cut[i].partner@)))
    } else {
        None
    }
}

/// The first refusal among the slices from row `i` on.
pub open spec fn slices_rejection(figure: i64, cut: Seq<PartnerShare>, total: int, i: int) -> Option<Rejected>
    decreases cut.len() - i,
{
    if i < 0 || i >= cut.len() {
        None
    } else {
        first_of(slice_rejection(figure, cut, total, i), slices_rejection(figure, cut, total, i + 1))
    }
}

/// Each row's exact pro-rata slice of a figure.
pub open spec fn slices(figure: int, cut: Seq<PartnerShare>, total: int) -> Seq<ShareView> {
    Seq::new(cut.len(), |i: int| (cut[i].partner@, figure * cut[i].weight / total))
}

/// What allocating a figure across a cut gives: unset for an empty cut; the
/// cut's own refusal; a refusal where the total or a slice does not fit, or
/// a slice does not divide; otherwise each partner's exact slice, in the
/// cut's order.
pub open spec fn allocate_result(figure: i64, cut: Seq<PartnerShare>) -> Result<Option<Seq<ShareView>>, Rejected> {
    let total = weights_total(cut);
    if cut.len() == 0 {
        Ok(None)
    } else if cut_rejection(cut, 0) is Some {
        Err(cut_rejection(cut, 0).unwrap())
    } else if !fits(total) {
        Err(overflow_rejected("partner_cut total"@))
    } else if total <= 0 {
        Err((Reason::CutTotalNotPositive,
            "partner_cut weights sum to "@ + decimal(total) + ", and a non-positive total is not a cut. Ratio.Partners.wellFormed"@))
    } else if slices_rejection(figure, cut, total, 0) is Some {
        Err(slices_rejection(figure, cut, total, 0).unwrap())
    } else {
        Ok(Some(slices(figure as int, cut, total)))
    }
}

/// What an allocation came to, as values.
pub open spec fn allocation_view(r: Result<Option<Vec<(String, i64)>>, Rejection>) -> Result<Option<Seq<ShareView>>, Rejected> {
    match r {
        Ok(None) => Ok(None),
        Ok(Some(v)) => Ok(Some(shares_view(v@))),
        Err(e) => Err((e.reason, e.text@)),
    }
}

/// Apply a cut to a figure. An empty cut is unset, not an equal split; a
/// figure that does not divide exactly is refused, not rounded; every product
/// is checked before the divisibility guard is asked about it.
pub fn allocate(figure: i64, cut: &[PartnerShare]) -> (r: Result<Option<Vec<(String, i64)>>, Rejection>)
    ensures
        allocation_view(r) == allocate_result(figure, cut@),
{
    if cut.len() == 0 {
        return Ok(None);
    }
    match check_cut(cut) {
        Ok(()) => {},
        Err(e) => return Err(e),
    }
    let ghost c = cut@;
    proof {
        lemma_clean_cut(c, 0);
        assert forall|k: int| 0 <= k < c.len() implies #[trigger] c[k].weight > 0 by {
            assert(cut_row_rejection(c, k) is None);
        }
    }
    let mut total: i64 = 0;
    let mut i: usize = 0;
    while i < cut.len()
        invariant
            0 <= i <= c.len(),
            c == cut@,
            c.len() > 0,
            cut_rejection(c, 0) is None,
            forall|k: int| 0 <= k < c.len() ==> #[trigger] c[k].weight > 0,
            total == weights_total(c.take(i as int)),
        decreases c.len() - i,
    {
        proof {
            lemma_prefix_weights(c, i as int);
            assert(c.take(i + 1).drop_last() =~= c.take(i as int));
        }
        match crate::checked::add(total, cut[i].weight, "partner_cut total") {
            Ok(t) => total = t,
            Err(o) => {
                proof {
                    reveal_strlit("partner_cut total");
                    lemma_prefix_weights(c, i + 1);
                }
                return Err(Rejection::overflow(o));
            },
        }
        i = i + 1;
    }
    assert(c.take(c.len() as int) =~= c);
    if total <= 0 {
        let mut s = String::from_str("partner_cut weights sum to ");
        push_decimal(&mut s, total as i128);
        s.append(", and a non-positive total is not a cut. Ratio.Partners.wellFormed");
        assert(s@ =~= "partner_cut weights sum to "@ + decimal(total as int) + ", and a non-positive total is not a cut. Ratio.Partners.wellFormed"@);
        return Err(Rejection { reason: Reason::CutTotalNotPositive, text: s });
    }
    let mut out: Vec<(String, i64)> = Vec::new();
    let mut i: usize = 0;
    while i < cut.len()
        invariant
            0 <= i <= c.len(),
            c == cut@,
            c.len() > 0,
            cut_rejection(c, 0) is None,
            total == weights_total(c),
            total > 0,
            slices_rejection(figure, c, total as int, 0) == slices_rejection(figure, c, total as int, i as int),
            shares_view(out@) == slices(figure as int, c, total as int).take(i as int),
        decreases c.len() - i,
    {
        let w = cut[i].weight;
        let prod = match crate::checked::mul(figure, w, "partner_cut slice") {
            Ok(p) => p,
            Err(o) => {
                proof { reveal_strlit("partner_cut slice"); }
                return Err(Rejection::overflow(o));
            },
        };
        let rem = match prod.checked_rem_euclid(total) {
            Some(x) => x,
            None => 0,
        };
        if rem != 0 {
            let mut s = String::from_str("partner_cut cannot allocate ");
            push_decimal(&mut s, figure as i128);
            s.append(" across the named weights (");
            push_decimal(&mut s, w as i128);
            s.append(" / ");
            push_decimal(&mut s, total as i128);
            s.append(" for ");
            push_quoted(&mut s, cut[i].partner.as_str());
            s.append("): the figure does not divide exactly, and a remainder would be a misstatement of who owns the income, not a rounding error. Ratio.Partners.a_slice_is_exactly_pro_rata");
            assert(s@ =~= indivisible_text(figure as int, w as int, total as int, c[i as int].partner@));
            return Err(Rejection { reason: Reason::DoesNotDivide, text: s });
        }
        assert(prod as int == figure * w);
        assert(0 <= prod / total <= prod || prod <= prod / total <= 0) by (nonlinear_arith)
            requires
                total > 0,
        ;
        let share = match prod.checked_div_euclid(total) {
            Some(x) => x,
            None => 0,
        };
        assert(share == prod / total);
        let ghost before = out@;
        out.push((cut[i].partner.clone(), share));
        proof {
            assert(out@.drop_last() =~= before);
            assert(shares_view(out@) == shares_view(before).push((c[i as int].partner@, share as int)));
            assert(share as int == (figure * w) / (total as int));
            assert(slices(figure as int, c, total as int).take(i + 1) =~= slices(figure as int, c, total as int).take(i as int).push((c[i as int].partner@, (figure * w) / (total as int))));
        }
        i = i + 1;
    }
    assert(slices(figure as int, c, total as int).take(c.len() as int) =~= slices(figure as int, c, total as int));
    Ok(Some(out))
}

proof fn lemma_slices_sum(figure: int, cut: Seq<PartnerShare>, total: int, n: int)
    requires
        total > 0,
        0 <= n <= cut.len(),
        forall|k: int| 0 <= k < cut.len() ==> (figure * #[trigger] cut[k].weight) % total == 0,
    ensures
        shares_total(slices(figure, cut, total).take(n)) * total == figure * weights_total(cut.take(n)),
    decreases n,
{
    if n > 0 {
        lemma_slices_sum(figure, cut, total, n - 1);
        let s = slices(figure, cut, total);
        assert(s.take(n).drop_last() =~= s.take(n - 1));
        assert(cut.take(n).drop_last() =~= cut.take(n - 1));
        let w = cut[n - 1].weight as int;
        let q = figure * w / total;
        assert(s.take(n).last().1 == q);
        assert((figure * w) % total == 0);
        assert(q * total == figure * w) by (nonlinear_arith)
            requires
                total > 0,
                (figure * w) % total == 0,
                q == figure * w / total,
        ;
        let a = shares_total(s.take(n - 1));
        let b = weights_total(cut.take(n - 1));
        assert((a + q) * total == figure * (b + w)) by (nonlinear_arith)
            requires
                a * total == figure * b,
                q * total == figure * w,
        ;
    } else {
        assert(slices(figure, cut, total).take(0) =~= Seq::<ShareView>::empty());
        assert(cut.take(0) =~= Seq::<PartnerShare>::empty());
    }
}

/// An allocation is exactly pro rata, so its slices sum to the figure: no
/// remainder is left anywhere.
pub proof fn law_an_allocation_sums_to_the_figure(figure: i64, cut: Seq<PartnerShare>)
    ensures
        allocate_result(figure, cut) matches Ok(Some(shares)) ==> shares_total(shares) == figure,
{
    let total = weights_total(cut);
    if cut.len() > 0 && allocate_result(figure, cut) matches Ok(Some(_)) {
        lemma_slices_none(figure, cut, total, 0);
        lemma_slices_sum(figure as int, cut, total, cut.len() as int);
        assert(slices(figure as int, cut, total).take(cut.len() as int) =~= slices(figure as int, cut, total));
        assert(cut.take(cut.len() as int) =~= cut);
        let t = shares_total(slices(figure as int, cut, total));
        assert(t == figure) by (nonlinear_arith)
            requires
                t * total == figure * total,
                total > 0,
        ;
    }
}

proof fn lemma_slices_none(figure: i64, cut: Seq<PartnerShare>, total: int, i: int)
    requires
        0 <= i <= cut.len(),
        slices_rejection(figure, cut, total, i) is None,
    ensures
        forall|k: int| i <= k < cut.len() ==> (figure * #[trigger] cut[k].weight) % total == 0,
    decreases cut.len() - i,
{
    if i < cut.len() {
        lemma_slices_none(figure, cut, total, i + 1);
    }
}

/// The first entry of an allocation for a partner.
pub open spec fn slot_of(m: Seq<ShareView>, p: Seq<char>) -> Option<int> {
    if exists|j: int| 0 <= j < m.len() && m[j].0 == p && forall|k: int| 0 <= k < j ==> m[k].0 != p {
        Some(choose|j: int| 0 <= j < m.len() && m[j].0 == p && forall|k: int| 0 <= k < j ==> m[k].0 != p)
    } else {
        None
    }
}

/// An amount added to a partner's entry, which is opened at zero if the
/// partner has none.
pub open spec fn add_share(m: Seq<ShareView>, p: Seq<char>, a: int) -> Seq<ShareView> {
    match slot_of(m, p) {
        Some(j) => m.update(j, (p, m[j].1 + a)),
        None => m.push((p, a)),
    }
}

/// Whether adding to a partner's entry fits in 64 bits.
pub open spec fn add_fits(m: Seq<ShareView>, p: Seq<char>, a: int) -> bool {
    match slot_of(m, p) {
        Some(j) => fits(m[j].1 + a),
        None => fits(a),
    }
}

/// The facts of a kind, folded in order into what they take and whom they
/// give it to.
pub open spec fn facts_fold(facts: Seq<AllocationFact>, kind: AllocationKind) -> Result<(int, Seq<ShareView>), Rejected>
    decreases facts.len(),
{
    if facts.len() == 0 {
        Ok((0, Seq::empty()))
    } else {
        match facts_fold(facts.drop_last(), kind) {
            Err(e) => Err(e),
            Ok((t, m)) => {
                let f = facts.last();
                if f.kind@ != allocation_kind_text(kind) {
                    Ok((t, m))
                } else if blank(f.partner@) {
                    Err((Reason::FactWithoutPartner, "a special allocation without a partner is not a cut"@))
                } else if !fits(t + f.amount) || !add_fits(m, f.partner@, f.amount as int) {
                    Err(overflow_rejected("special allocation"@))
                } else {
                    Ok((t + f.amount, add_share(m, f.partner@, f.amount as int)))
                }
            },
        }
    }
}

/// A remainder's slices merged, in order, into an allocation.
pub open spec fn merge_fold(m: Seq<ShareView>, rest: Seq<ShareView>) -> Result<Seq<ShareView>, Rejected>
    decreases rest.len(),
{
    if rest.len() == 0 {
        Ok(m)
    } else {
        match merge_fold(m, rest.drop_last()) {
            Err(e) => Err(e),
            Ok(m2) => if add_fits(m2, rest.last().0, rest.last().1) {
                Ok(add_share(m2, rest.last().0, rest.last().1))
            } else {
                Err(overflow_rejected("special allocation remainder"@))
            },
        }
    }
}

/// What applying journal facts of a kind, then the remainder cut, gives.
pub open spec fn apply_facts_result(figure: i64, facts: Option<Seq<AllocationFact>>, kind: AllocationKind, remainder: Seq<PartnerShare>) -> Result<Option<Seq<ShareView>>, Rejected> {
    match facts {
        None => allocate_result(figure, remainder),
        Some(all) => if all.len() == 0 {
            Err((Reason::UnnamedFacts,
                "special_allocations is present and empty — that is an unnamed election, not silence. Omit the field. A silent 1/N is the defect. Ratio.Partners.unnamed_facts_refuse"@))
        } else {
            match facts_fold(all, kind) {
                Err(e) => Err(e),
                Ok((taken, m)) => if taken == figure {
                    Ok(Some(m))
                } else if taken > figure {
                    Err((Reason::Overshoot, "special allocations of "@ + allocation_kind_text(kind) + " sum to "@
                        + decimal(taken) + ", which overshoots the book figure "@ + decimal(figure as int)
                        + ". Ratio.Partners.an_overshoot_refuses"@))
                } else if taken == 0 && forall|k: int| 0 <= k < all.len() ==> (#[trigger] all[k]).kind@ != allocation_kind_text(kind) {
                    allocate_result(figure, remainder)
                } else if !fits(figure - taken) {
                    Err(overflow_rejected("special allocation remainder"@))
                } else {
                    match allocate_result((figure - taken) as i64, remainder) {
                        Err(e) => Err(e),
                        Ok(None) => Err((Reason::RemainderWithoutCut, "special allocations of "@ + allocation_kind_text(kind)
                            + " leave remainder "@ + decimal(figure - taken)
                            + " and there is no partner cut for what is left — unset, not a silent split. Ratio.Partners.no_facts_and_no_cut_is_unset"@)),
                        Ok(Some(rest)) => match merge_fold(m, rest) {
                            Err(e) => Err(e),
                            Ok(m2) => Ok(Some(m2)),
                        },
                    }
                }
            }
        },
    }
}

/// Journal facts passed by reference, taken as a value.
pub open spec fn facts_value(facts: Option<&[AllocationFact]>) -> Option<Seq<AllocationFact>> {
    match facts {
        Some(f) => Some(f@),
        None => None,
    }
}

/// Find a partner's entry in an allocation.
fn find_slot(out: &Vec<(String, i64)>, p: &String) -> (r: Option<usize>)
    ensures
        match r {
            Some(j) => slot_of(shares_view(out@), p@) == Some(j as int) && j < out@.len(),
            None => slot_of(shares_view(out@), p@) is None,
        },
{
    proof { lemma_shares_view_len(out@); }
    let mut j: usize = 0;
    while j < out.len()
        invariant
            0 <= j <= out@.len(),
            shares_view(out@).len() == out@.len(),
            forall|k: int| 0 <= k < j ==> shares_view(out@)[k].0 != p@,
        decreases out@.len() - j,
    {
        proof { lemma_shares_view_at(out@, j as int); }
        if out[j].0 == *p {
            proof {
                let m = shares_view(out@);
                let k = j as int;
                let c = choose|c: int| 0 <= c < m.len() && m[c].0 == p@ && forall|i: int| 0 <= i < c ==> m[i].0 != p@;
                assert(c == k) by {
                    if c < k {
                    } else if c > k {
                    }
                }
            }
            return Some(j);
        }
        j = j + 1;
    }
    None
}

proof fn lemma_shares_view_len(s: Seq<(String, i64)>)
    ensures
        shares_view(s).len() == s.len(),
    decreases s.len(),
{
    if s.len() > 0 {
        lemma_shares_view_len(s.drop_last());
    }
}

proof fn lemma_shares_view_at(s: Seq<(String, i64)>, k: int)
    requires
        0 <= k < s.len(),
    ensures
        shares_view(s)[k] == (s[k].0@, s[k].1 as int),
    decreases s.len(),
{
    lemma_shares_view_len(s);
    if k < s.len() - 1 {
        lemma_shares_view_at(s.drop_last(), k);
        lemma_shares_view_len(s.drop_last());
    }
}

proof fn lemma_shares_view_update(s: Seq<(String, i64)>, j: int, e: (String, i64))
    requires
        0 <= j < s.len(),
    ensures
        shares_view(s.update(j, e)) == shares_view(s).update(j, (e.0@, e.1 as int)),
    decreases s.len(),
{
    lemma_shares_view_len(s);
    lemma_shares_view_len(s.update(j, e));
    if j < s.len() - 1 {
        lemma_shares_view_update(s.drop_last(), j, e);
        assert(s.update(j, e).drop_last() =~= s.drop_last().update(j, e));
        assert(shares_view(s.update(j, e)) =~= shares_view(s).update(j, (e.0@, e.1 as int)));
    } else {
        assert(s.update(j, e).drop_last() =~= s.drop_last());
        lemma_shares_view_len(s.drop_last());
        assert(shares_view(s.update(j, e)) =~= shares_view(s).update(j, (e.0@, e.1 as int)));
    }
}

/// Add an amount to a partner's entry, opening it at zero if needed.
fn add_to(out: &mut Vec<(String, i64)>, p: &String, a: i64, what: &'static str) -> (r: Result<(), Rejection>)
    ensures
        match r {
            Ok(_) => add_fits(shares_view(old(out)@), p@, a as int)
                && shares_view(final(out)@) == add_share(shares_view(old(out)@), p@, a as int),
            Err(e) => !add_fits(shares_view(old(out)@), p@, a as int)
                && (e.reason, e.text@) == overflow_rejected(what@),
        },
{
    let ghost before = out@;
    match find_slot(out, p) {
        Some(j) => {
            proof { lemma_shares_view_at(out@, j as int); }
            let cur = out[j].1;
            match crate::checked::add(cur, a, what) {
                Ok(v) => {
                    let name = out[j].0.clone();
                    out.set(j, (name, v));
                    proof {
                        lemma_shares_view_update(before, j as int, (name, v));
                    }
                    Ok(())
                },
                Err(o) => Err(Rejection::overflow(o)),
            }
        },
        None => {
            out.push((p.clone(), a));
            proof {
                assert(out@.drop_last() =~= before);
            }
            Ok(())
        },
    }
}

/// Apply journal specials of one kind, then the remainder cut. No facts fall
/// through to the cut; present and empty facts are an unnamed election and
/// refuse; facts that cover the figure are the allocation; an overshoot
/// refuses; a remainder needs a cut that divides.
pub fn apply_facts(figure: i64, facts: Option<&[AllocationFact]>, kind: AllocationKind, remainder: &[PartnerShare]) -> (r: Result<Option<Vec<(String, i64)>>, Rejection>)
    ensures
        allocation_view(r) == apply_facts_result(figure, facts_value(facts), kind, remainder@),
{
    let all = match facts {
        None => return allocate(figure, remainder),
        Some(f) => f,
    };
    if all.len() == 0 {
        return Err(Rejection {
            reason: Reason::UnnamedFacts,
            text: String::from_str("special_allocations is present and empty — that is an unnamed election, not silence. Omit the field. A silent 1/N is the defect. Ratio.Partners.unnamed_facts_refuse"),
        });
    }
    let ghost fs = all@;
    let kind_name = kind.as_str();
    let mut taken: i64 = 0;
    let mut out: Vec<(String, i64)> = Vec::new();
    let mut any = false;
    let mut i: usize = 0;
    while i < all.len()
        invariant
            0 <= i <= fs.len(),
            fs == all@,
            fs.len() > 0,
            facts_value(facts) == Some(fs),
            kind_name@ == allocation_kind_text(kind),
            facts_fold(fs.take(i as int), kind) == Ok::<(int, Seq<ShareView>), Rejected>((taken as int, shares_view(out@))),
            any == exists|k: int| 0 <= k < i && (#[trigger] fs[k]).kind@ == allocation_kind_text(kind),
        decreases fs.len() - i,
    {
        proof {
            assert(fs.take(i + 1).drop_last() =~= fs.take(i as int));
            assert(fs.take(i + 1).last() == fs[i as int]);
        }
        let f = &all[i];
        if crate::text::str_eq(f.kind.as_str(), kind_name) {
            any = true;
            if is_blank(f.partner.as_str()) {
                proof {
                    lemma_facts_err_stays(fs, kind, i + 1);
                }
                return Err(Rejection {
                    reason: Reason::FactWithoutPartner,
                    text: String::from_str("a special allocation without a partner is not a cut"),
                });
            }
            let t = match crate::checked::add(taken, f.amount, "special allocation") {
                Ok(t) => t,
                Err(o) => {
                    proof {
                        reveal_strlit("special allocation");
                        lemma_facts_err_stays(fs, kind, i + 1);
                    }
                    return Err(Rejection::overflow(o));
                },
            };
            match add_to(&mut out, &f.partner, f.amount, "special allocation") {
                Ok(()) => {},
                Err(e) => {
                    proof {
                        reveal_strlit("special allocation");
                        lemma_facts_err_stays(fs, kind, i + 1);
                    }
                    return Err(e);
                },
            }
            taken = t;
        }
        i = i + 1;
    }
    assert(fs.take(fs.len() as int) =~= fs);
    if taken == figure {
        return Ok(Some(out));
    }
    if taken > figure {
        let mut s = String::from_str("special allocations of ");
        s.append(kind_name);
        s.append(" sum to ");
        push_decimal(&mut s, taken as i128);
        s.append(", which overshoots the book figure ");
        push_decimal(&mut s, figure as i128);
        s.append(". Ratio.Partners.an_overshoot_refuses");
        assert(s@ =~= "special allocations of "@ + allocation_kind_text(kind) + " sum to "@
            + decimal(taken as int) + ", which overshoots the book figure "@ + decimal(figure as int)
            + ". Ratio.Partners.an_overshoot_refuses"@);
        return Err(Rejection { reason: Reason::Overshoot, text: s });
    }
    if taken == 0 && !any {
        return allocate(figure, remainder);
    }
    let left = match crate::checked::sub(figure, taken, "special allocation remainder") {
        Ok(v) => v,
        Err(o) => {
            proof { reveal_strlit("special allocation remainder"); }
            return Err(Rejection::overflow(o));
        },
    };
    let rest = match allocate(left, remainder) {
        Err(e) => return Err(e),
        Ok(None) => {
            let mut s = String::from_str("special allocations of ");
            s.append(kind_name);
            s.append(" leave remainder ");
            push_decimal(&mut s, left as i128);
            s.append(" and there is no partner cut for what is left — unset, not a silent split. Ratio.Partners.no_facts_and_no_cut_is_unset");
            assert(s@ =~= "special allocations of "@ + allocation_kind_text(kind) + " leave remainder "@
                + decimal(left as int) + " and there is no partner cut for what is left — unset, not a silent split. Ratio.Partners.no_facts_and_no_cut_is_unset"@);
            return Err(Rejection { reason: Reason::RemainderWithoutCut, text: s });
        },
        Ok(Some(v)) => v,
    };
    let ghost m0 = shares_view(out@);
    let ghost rs = shares_view(rest@);
    proof { lemma_shares_view_len(rest@); }
    let mut k: usize = 0;
    while k < rest.len()
        invariant
            0 <= k <= rest@.len(),
            rs == shares_view(rest@),
            rs.len() == rest@.len(),
            facts_value(facts) == Some(fs),
            fs.len() > 0,
            facts_fold(fs, kind) == Ok::<(int, Seq<ShareView>), Rejected>((taken as int, m0)),
            taken != figure,
            taken < figure,
            !(taken == 0 && forall|q: int| 0 <= q < fs.len() ==> (#[trigger] fs[q]).kind@ != allocation_kind_text(kind)),
            left == figure - taken,
            allocate_result(left, remainder@) == Ok::<Option<Seq<ShareView>>, Rejected>(Some(rs)),
            merge_fold(m0, rs.take(k as int)) == Ok::<Seq<ShareView>, Rejected>(shares_view(out@)),
        decreases rest@.len() - k,
    {
        proof {
            assert(rs.take(k + 1).drop_last() =~= rs.take(k as int));
            lemma_shares_view_at(rest@, k as int);
            assert(rs.take(k + 1).last() == rs[k as int]);
        }
        match add_to(&mut out, &rest[k].0, rest[k].1, "special allocation remainder") {
            Ok(()) => {},
            Err(e) => {
                proof {
                    reveal_strlit("special allocation remainder");
                    lemma_merge_err_stays(m0, rs, k + 1);
                }
                return Err(e);
            },
        }
        k = k + 1;
    }
    assert(rs.take(rs.len() as int) =~= rs);
    Ok(Some(out))
}

proof fn lemma_facts_err_stays(fs: Seq<AllocationFact>, kind: AllocationKind, n: int)
    requires
        0 <= n <= fs.len(),
        facts_fold(fs.take(n), kind) is Err,
    ensures
        facts_fold(fs, kind) == facts_fold(fs.take(n), kind),
    decreases fs.len() - n,
{
    if n < fs.len() {
        assert(fs.take(n + 1).drop_last() =~= fs.take(n));
        lemma_facts_err_stays(fs, kind, n + 1);
    } else {
        assert(fs.take(n) =~= fs);
    }
}

proof fn lemma_merge_err_stays(m: Seq<ShareView>, rs: Seq<ShareView>, n: int)
    requires
        0 <= n <= rs.len(),
        merge_fold(m, rs.take(n)) is Err,
    ensures
        merge_fold(m, rs) == merge_fold(m, rs.take(n)),
    decreases rs.len() - n,
{
    if n < rs.len() {
        assert(rs.take(n + 1).drop_last() =~= rs.take(n));
        lemma_merge_err_stays(m, rs, n + 1);
    } else {
        assert(rs.take(n) =~= rs);
    }
}

proof fn lemma_update_total(m: Seq<ShareView>, j: int, v: int)
    requires
        0 <= j < m.len(),
    ensures
        shares_total(m.update(j, (m[j].0, v))) == shares_total(m) - m[j].1 + v,
    decreases m.len(),
{
    if j < m.len() - 1 {
        lemma_update_total(m.drop_last(), j, v);
        assert(m.update(j, (m[j].0, v)).drop_last() =~= m.drop_last().update(j, (m[j].0, v)));
    } else {
        assert(m.update(j, (m[j].0, v)).drop_last() =~= m.drop_last());
    }
}

proof fn lemma_add_share_total(m: Seq<ShareView>, p: Seq<char>, a: int)
    ensures
        shares_total(add_share(m, p, a)) == shares_total(m) + a,
{
    match slot_of(m, p) {
        Some(j) => {
            assert(0 <= j < m.len() && m[j].0 == p);
            lemma_update_total(m, j, m[j].1 + a);
        },
        None => {
            assert(m.push((p, a)).drop_last() =~= m);
        },
    }
}

proof fn lemma_facts_total(facts: Seq<AllocationFact>, kind: AllocationKind)
    ensures
        facts_fold(facts, kind) matches Ok((t, m)) ==> shares_total(m) == t,
    decreases facts.len(),
{
    if facts.len() > 0 {
        lemma_facts_total(facts.drop_last(), kind);
        if let Ok((t, m)) = facts_fold(facts.drop_last(), kind) {
            lemma_add_share_total(m, facts.last().partner@, facts.last().amount as int);
        }
    }
}

proof fn lemma_merge_total(m: Seq<ShareView>, rest: Seq<ShareView>)
    ensures
        merge_fold(m, rest) matches Ok(m2) ==> shares_total(m2) == shares_total(m) + shares_total(rest),
    decreases rest.len(),
{
    if rest.len() > 0 {
        lemma_merge_total(m, rest.drop_last());
        if let Ok(m2) = merge_fold(m, rest.drop_last()) {
            lemma_add_share_total(m2, rest.last().0, rest.last().1);
        }
    }
}

/// Facts plus a remainder cut conserve: whatever journal specials name, and
/// however the remainder is cut, an allocation sums to the figure.
pub proof fn law_facts_and_remainder_conserve(figure: i64, facts: Option<Seq<AllocationFact>>, kind: AllocationKind, remainder: Seq<PartnerShare>)
    ensures
        apply_facts_result(figure, facts, kind, remainder) matches Ok(Some(m)) ==> shares_total(m) == figure,
{
    match facts {
        None => {
            law_an_allocation_sums_to_the_figure(figure, remainder);
        },
        Some(all) => {
            if all.len() > 0 {
                lemma_facts_total(all, kind);
                if let Ok((taken, m)) = facts_fold(all, kind) {
                    law_an_allocation_sums_to_the_figure(figure, remainder);
                    if fits(figure - taken) {
                        law_an_allocation_sums_to_the_figure((figure - taken) as i64, remainder);
                        if let Ok(Some(rest)) = allocate_result((figure - taken) as i64, remainder) {
                            lemma_merge_total(m, rest);
                        }
                    }
                }
            }
        },
    }
}

} // verus!

verus! {

// ------------------------------------------------------------ one row per partner

/// Whether no partner is named twice.
pub open spec fn names_once(m: Seq<ShareView>) -> bool {
    forall|i: int, j: int| 0 <= i < j < m.len() ==> m[i].0 != m[j].0
}

/// What a run of shares gives a partner, in all.
pub open spec fn amount_for(m: Seq<ShareView>, p: Seq<char>) -> int
    decreases m.len(),
{
    if m.len() == 0 { 0 } else { amount_for(m.drop_last(), p) + if m.last().0 == p { m.last().1 } else { 0 } }
}

/// What the facts of a kind name for a partner, in all.
pub open spec fn facts_for(facts: Seq<AllocationFact>, kind: AllocationKind, p: Seq<char>) -> int
    decreases facts.len(),
{
    if facts.len() == 0 {
        0
    } else {
        let f = facts.last();
        facts_for(facts.drop_last(), kind, p)
            + if f.kind@ == allocation_kind_text(kind) && f.partner@ == p { f.amount as int } else { 0 }
    }
}

/// What the facts of a kind take, in all.
pub open spec fn facts_total(facts: Seq<AllocationFact>, kind: AllocationKind) -> int
    decreases facts.len(),
{
    if facts.len() == 0 {
        0
    } else {
        let f = facts.last();
        facts_total(facts.drop_last(), kind) + if f.kind@ == allocation_kind_text(kind) { f.amount as int } else { 0 }
    }
}

proof fn lemma_amount_update(m: Seq<ShareView>, j: int, v: int, q: Seq<char>)
    requires
        0 <= j < m.len(),
    ensures
        amount_for(m.update(j, (m[j].0, v)), q) == amount_for(m, q) + if m[j].0 == q { v - m[j].1 } else { 0 },
    decreases m.len(),
{
    let u = m.update(j, (m[j].0, v));
    if j == m.len() - 1 {
        assert(u.drop_last() =~= m.drop_last());
    } else {
        lemma_amount_update(m.drop_last(), j, v, q);
        assert(u.drop_last() =~= m.drop_last().update(j, (m[j].0, v)));
    }
}

proof fn lemma_add_share(m: Seq<ShareView>, p: Seq<char>, a: int)
    requires
        names_once(m),
    ensures
        names_once(add_share(m, p, a)),
        forall|q: Seq<char>| #[trigger] amount_for(add_share(m, p, a), q) == amount_for(m, q) + if q == p { a } else { 0 },
{
    match slot_of(m, p) {
        Some(j) => {
            assert(0 <= j < m.len() && m[j].0 == p);
            assert forall|q: Seq<char>| #[trigger] amount_for(add_share(m, p, a), q) == amount_for(m, q) + if q == p { a } else { 0 } by {
                lemma_amount_update(m, j, m[j].1 + a, q);
            }
        },
        None => {
            assert forall|j: int| 0 <= j < m.len() implies m[j].0 != p by {
                if m[j].0 == p {
                    assert(forall|k: int| 0 <= k < j ==> m[k].0 != p);
                    assert(false);
                }
            }
            let r = m.push((p, a));
            assert forall|q: Seq<char>| #[trigger] amount_for(add_share(m, p, a), q) == amount_for(m, q) + if q == p { a } else { 0 } by {
                assert(r.drop_last() =~= m);
            }
        },
    }
}

proof fn lemma_facts_fold(facts: Seq<AllocationFact>, kind: AllocationKind)
    ensures
        facts_fold(facts, kind) matches Ok((t, m)) ==> {
            &&& names_once(m)
            &&& t == facts_total(facts, kind)
            &&& forall|q: Seq<char>| #[trigger] amount_for(m, q) == facts_for(facts, kind, q)
        },
    decreases facts.len(),
{
    if facts.len() > 0 {
        lemma_facts_fold(facts.drop_last(), kind);
        if let Ok((t0, m0)) = facts_fold(facts.drop_last(), kind) {
            let f = facts.last();
            if f.kind@ == allocation_kind_text(kind) && !blank(f.partner@) {
                lemma_add_share(m0, f.partner@, f.amount as int);
            }
        }
    }
}

proof fn lemma_merge_fold(m: Seq<ShareView>, rest: Seq<ShareView>)
    requires
        names_once(m),
    ensures
        merge_fold(m, rest) matches Ok(m2) ==> {
            &&& names_once(m2)
            &&& forall|q: Seq<char>| #[trigger] amount_for(m2, q) == amount_for(m, q) + amount_for(rest, q)
        },
    decreases rest.len(),
{
    if rest.len() > 0 {
        lemma_merge_fold(m, rest.drop_last());
        if let Ok(m2) = merge_fold(m, rest.drop_last()) {
            lemma_add_share(m2, rest.last().0, rest.last().1);
        }
    }
}

proof fn lemma_cut_rows(cut: Seq<PartnerShare>, i: int)
    requires
        0 <= i,
        cut_rejection(cut, i) is None,
    ensures
        forall|k: int| i <= k < cut.len() ==> #[trigger] cut_row_rejection(cut, k) is None,
    decreases cut.len() - i,
{
    if i < cut.len() {
        lemma_cut_rows(cut, i + 1);
    }
}

proof fn lemma_allocate_once(figure: i64, cut: Seq<PartnerShare>)
    ensures
        allocate_result(figure, cut) matches Ok(Some(s)) ==> names_once(s),
{
    if allocate_result(figure, cut) is Ok && cut.len() > 0 {
        lemma_cut_rows(cut, 0);
        let s = slices(figure as int, cut, weights_total(cut));
        assert forall|i: int, j: int| 0 <= i < j < s.len() implies s[i].0 != s[j].0 by {
            assert(cut_row_rejection(cut, j) is None);
            assert(!cut_repeats(cut, j));
        }
    }
}

proof fn lemma_amount_zero(s: Seq<ShareView>, q: Seq<char>)
    requires
        forall|i: int| 0 <= i < s.len() ==> #[trigger] s[i].1 == 0,
    ensures
        amount_for(s, q) == 0,
    decreases s.len(),
{
    if s.len() > 0 {
        lemma_amount_zero(s.drop_last(), q);
    }
}

/// An allocation names each partner once: however the journal's facts and
/// the remainder cut name them, no partner has two rows.
pub proof fn law_each_partner_is_allocated_once(figure: i64, facts: Option<Seq<AllocationFact>>, kind: AllocationKind,
    remainder: Seq<PartnerShare>)
    ensures
        apply_facts_result(figure, facts, kind, remainder) matches Ok(Some(m)) ==> names_once(m),
{
    lemma_allocate_once(figure, remainder);
    if let Some(all) = facts {
        lemma_facts_fold(all, kind);
        if let Ok((taken, m)) = facts_fold(all, kind) {
            if fits(figure - taken) {
                lemma_allocate_once((figure - taken) as i64, remainder);
                if let Ok(Some(rest)) = allocate_result((figure - taken) as i64, remainder) {
                    lemma_merge_fold(m, rest);
                }
            }
        }
    }
}

/// What the remainder cut gives a partner once the facts of a kind have
/// taken their part of a figure.
pub open spec fn remainder_for(figure: i64, all: Seq<AllocationFact>, kind: AllocationKind, remainder: Seq<PartnerShare>,
    p: Seq<char>) -> int {
    match allocate_result((figure - facts_total(all, kind)) as i64, remainder) {
        Ok(Some(r)) => amount_for(r, p),
        _ => 0,
    }
}

/// A partner's allocation is what the journal's facts of the kind name for
/// it plus its slice of what they leave.
pub proof fn law_a_partner_gets_its_facts_plus_its_slice(figure: i64, all: Seq<AllocationFact>, kind: AllocationKind,
    remainder: Seq<PartnerShare>, p: Seq<char>)
    ensures
        apply_facts_result(figure, Some(all), kind, remainder) matches Ok(Some(m))
            ==> amount_for(m, p) == facts_for(all, kind, p) + remainder_for(figure, all, kind, remainder, p),
{
    lemma_facts_fold(all, kind);
    if all.len() > 0 {
        if let Ok((taken, m)) = facts_fold(all, kind) {
            if taken == figure {
                assert((figure - taken) as i64 == 0);
                if let Ok(Some(r)) = allocate_result(0, remainder) {
                    let total = weights_total(remainder);
                    assert forall|i: int| 0 <= i < r.len() implies #[trigger] r[i].1 == 0 by {
                        assert(r[i].1 == 0 * remainder[i].weight / total);
                    }
                    lemma_amount_zero(r, p);
                }
            } else if taken < figure && fits(figure - taken) {
                if !(taken == 0 && forall|k: int| 0 <= k < all.len() ==> (#[trigger] all[k]).kind@ != allocation_kind_text(kind)) {
                    lemma_allocate_once((figure - taken) as i64, remainder);
                    if let Ok(Some(rest)) = allocate_result((figure - taken) as i64, remainder) {
                        lemma_merge_fold(m, rest);
                    }
                } else {
                    lemma_facts_none(all, kind, p);
                }
            } else if taken < figure && taken == 0 && forall|k: int| 0 <= k < all.len() ==> (#[trigger] all[k]).kind@ != allocation_kind_text(kind) {
                lemma_facts_none(all, kind, p);
            }
        }
    }
}

proof fn lemma_facts_none(all: Seq<AllocationFact>, kind: AllocationKind, p: Seq<char>)
    requires
        forall|k: int| 0 <= k < all.len() ==> (#[trigger] all[k]).kind@ != allocation_kind_text(kind),
    ensures
        facts_for(all, kind, p) == 0,
        facts_total(all, kind) == 0,
    decreases all.len(),
{
    if all.len() > 0 {
        assert forall|k: int| 0 <= k < all.drop_last().len() implies (#[trigger] all.drop_last()[k]).kind@ != allocation_kind_text(kind) by {
            assert(all.drop_last()[k] == all[k]);
        }
        lemma_facts_none(all.drop_last(), kind, p);
        assert(all.last() == all[all.len() - 1]);
    }
}

} // verus!
