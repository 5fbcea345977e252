//! Wash sales: a loss deferred onto a replacement's basis, and the struck
//! figures a later repurchase restates.
//!
//! The window is a jurisdiction's number and reaches both ways. A gain is never
//! washed. The deferral moves a loss onto the replacement; it does not remove
//! it. And a struck figure is never rewritten: a restatement is a new record
//! that cites the strike it supersedes.

use vstd::prelude::*;
use crate::checked::{self, fits, Overflow};
use crate::relief::{Day, Lot, ReliefError, find_seq};

verus! {

/// Whether a repurchase day falls within `window` days either side of a sale.
pub open spec fn in_window(window: int, sale_day: int, buy_day: int) -> bool {
    -window <= buy_day - sale_day && buy_day - sale_day <= window
}

/// Whether a repurchase falls inside the disallowance window of a sale. Both
/// sides: a repurchase before the sale washes it just as one after does.
pub fn in_wash_window(window: i64, sale_day: Day, buy_day: Day) -> (r: bool)
    ensures
        r == in_window(window as int, sale_day as int, buy_day as int),
{
    let delta: i128 = (buy_day as i128) - (sale_day as i128);
    let w: i128 = window as i128;
    let lo: i128 = 0 - w;
    lo <= delta && delta <= w
}

/// The window reaches both ways: a sale and a repurchase are within it of each
/// other whichever came first.
pub proof fn law_window_is_symmetric(window: int, a: int, b: int)
    ensures
        in_window(window, a, b) == in_window(window, b, a),
{
}

/// A citeable identity of a struck figure: the journal prefix it folded.
#[derive(Clone, Copy, Debug, PartialEq, Eq)]
pub struct StrikeId {
    pub prefix: u64,
}

/// A realized gain that was struck — the number somebody was paid on.
/// `qualified` is written at strike time: the wash window was still open.
#[derive(Clone, Copy, Debug, PartialEq, Eq)]
pub struct StruckGain {
    pub id: StrikeId,
    pub sold_on: Day,
    pub figure: i64,
    pub qualified: bool,
}

/// A restatement: a new record citing the strike it supersedes.
#[derive(Clone, Copy, Debug, PartialEq, Eq)]
pub struct Restatement {
    pub cites: StrikeId,
    pub original: i64,
    pub moved_to: i64,
}

/// Whether a wash window is still open on a day: a sale on day 100 with a
/// 30-day window is open on day 130 and closed on day 131. The close is checked.
pub fn window_still_open(window: i64, sold_on: Day, day: Day) -> (r: Result<bool, Overflow>)
    ensures
        fits(sold_on + window) ==> r == Ok::<bool, Overflow>(day <= sold_on + window),
        !fits(sold_on + window) ==> r == Err::<bool, Overflow>(Overflow { what: "the day the wash window closes" }),
{
    let close = checked::add(sold_on as i64, window, "the day the wash window closes")?;
    Ok((day as i64) <= close)
}

/// Strike a realized gain; it is qualified exactly when the window is still open.
pub fn strike_gain(id: StrikeId, window: i64, sold_on: Day, day: Day, figure: i64) -> (r: Result<StruckGain, Overflow>)
    ensures
        fits(sold_on + window) ==> r == Ok::<StruckGain, Overflow>(StruckGain { id, sold_on, figure, qualified: day <= sold_on + window }),
        !fits(sold_on + window) ==> r == Err::<StruckGain, Overflow>(Overflow { what: "the day the wash window closes" }),
{
    let qualified = window_still_open(window, sold_on, day)?;
    Ok(StruckGain { id, sold_on, figure, qualified })
}

/// A later repurchase that washes a struck sale: a restatement citing the
/// strike when the repurchase is in the window and moves the figure, otherwise
/// nothing. The strike itself is never returned changed.
pub fn restate(s: &StruckGain, window: i64, buy_day: Day, new_figure: i64) -> (r: Option<Restatement>)
    ensures
        (in_window(window as int, s.sold_on as int, buy_day as int) && new_figure != s.figure)
            ==> r == Some(Restatement { cites: s.id, original: s.figure, moved_to: new_figure }),
        !(in_window(window as int, s.sold_on as int, buy_day as int) && new_figure != s.figure) ==> r is None,
{
    if in_wash_window(window, s.sold_on, buy_day) && new_figure != s.figure {
        Some(Restatement { cites: s.id, original: s.figure, moved_to: new_figure })
    } else {
        None
    }
}

/// The forbidden operation, named so that it can be told apart from `restate`:
/// overwrite the struck figure and keep the id.
pub fn rewrite_in_place(s: StruckGain, new_figure: i64) -> (r: StruckGain)
    ensures
        r == (StruckGain { figure: new_figure, ..s }),
{
    StruckGain { figure: new_figure, ..s }
}

/// Whether the record said the figure can move, or said that it did. The third
/// case — struck clean, changed quietly — is `false`.
pub fn says_so(s: &StruckGain, r: Option<&Restatement>) -> (b: bool)
    ensures
        b == (s.qualified || r is Some),
{
    s.qualified || r.is_some()
}

/// The disallowed portion of a loss, as a positive magnitude. A gain is never
/// washed, the match is capped at what was sold, and a split that will not
/// divide is refused rather than rounded.
pub open spec fn disallowed_spec(loss: i64, sold_units: i64, bought_units: i64) -> Result<i64, ReliefError> {
    let matched = if bought_units < sold_units { bought_units } else { sold_units };
    if loss >= 0 {
        Ok(0)
    } else if sold_units <= 0 {
        Err(ReliefError::NothingToMatch { sold_units })
    } else if matched <= 0 {
        Ok(0)
    } else if !fits(-loss) {
        Err(ReliefError::Overflow(Overflow { what: "the loss being washed" }))
    } else if !fits(-loss * matched) {
        Err(ReliefError::Overflow(Overflow { what: "a pro-rata wash split" }))
    } else if (-loss * matched) % (sold_units as int) != 0 {
        Err(ReliefError::WashIndivisible { matched, sold_units, magnitude: (-loss) as i64 })
    } else {
        Ok(((-loss * matched) / (sold_units as int)) as i64)
    }
}

/// The disallowed portion of a loss, as a positive magnitude.
pub fn disallowed(loss: i64, sold_units: i64, bought_units: i64) -> (r: Result<i64, ReliefError>)
    ensures
        r == disallowed_spec(loss, sold_units, bought_units),
        r matches Ok(d) ==> 0 <= d && (loss < 0 ==> d <= -loss),
        loss >= 0 ==> r == Ok::<i64, ReliefError>(0),
{
    if loss >= 0 {
        return Ok(0);
    }
    if sold_units <= 0 {
        return Err(ReliefError::NothingToMatch { sold_units });
    }
    let matched = if bought_units < sold_units { bought_units } else { sold_units };
    if matched <= 0 {
        return Ok(0);
    }
    let magnitude = match checked::neg(loss, "the loss being washed") {
        Ok(m) => m,
        Err(e) => { return Err(ReliefError::Overflow(e)); }
    };
    let product = match checked::mul(magnitude, matched, "a pro-rata wash split") {
        Ok(p) => p,
        Err(e) => { return Err(ReliefError::Overflow(e)); }
    };
    if product.checked_rem_euclid(sold_units) != Some(0i64) {
        return Err(ReliefError::WashIndivisible { matched, sold_units, magnitude });
    }
    proof {
        let q = product as int / sold_units as int;
        assert(q * sold_units == product) by (nonlinear_arith)
            requires product % sold_units == 0, sold_units > 0, q == product as int / sold_units as int;
        assert(0 <= q <= magnitude) by (nonlinear_arith)
            requires q * sold_units == product, product == magnitude * matched, 0 < matched <= sold_units, magnitude > 0;
    }
    match product.checked_div_euclid(sold_units) {
        Some(d) => Ok(d),
        None => Err(ReliefError::NothingToMatch { sold_units }),
    }
}

/// What a sale recognizes once the disallowance is applied: a negative loss
/// moved towards zero by the positive amount deferred.
pub fn recognized_now(loss: i64, d: i64) -> (r: Result<i64, Overflow>)
    ensures
        r == checked::checked(loss + d, "the recognized loss after wash"),
{
    checked::add(loss, d, "the recognized loss after wash")
}

/// The replacement lot's basis, with the deferred loss attached.
pub fn replacement_basis(cost: i64, d: i64) -> (r: Result<i64, Overflow>)
    ensures
        r == checked::checked(cost + d, "the replacement lot's basis"),
{
    checked::add(cost, d, "the replacement lot's basis")
}

/// The wash moves a loss; it does not remove it. Recognizing the reduced loss
/// now and selling the replacement later against its raised basis sums to the
/// unwashed total.
pub proof fn law_a_wash_moves_a_loss(loss: i64, d: i64, cost: i64, later_proceeds: i64)
    requires
        checked::checked(loss + d, "the recognized loss after wash") is Ok,
        checked::checked(cost + d, "the replacement lot's basis") is Ok,
    ensures
        ({
            let now = checked::checked(loss + d, "the recognized loss after wash").unwrap();
            let basis = checked::checked(cost + d, "the replacement lot's basis").unwrap();
            now + (later_proceeds - basis) == loss + (later_proceeds - cost)
        }),
{
}

/// The replacement's acquisition date for holding-period purposes under the
/// US rule: the original lot's, not the repurchase's.
pub fn replacement_acquired(original_acquired: Option<Day>, repurchased_on: Option<Day>) -> (r: Option<Day>)
    ensures
        r == original_acquired,
{
    original_acquired
}

/// The replacement's acquisition date under the elected holding-period rule:
/// the repurchase's own date when `keep` is elected, otherwise the original's.
pub fn acquired_for(keep: bool, original_acquired: Option<Day>, repurchase_on: Option<Day>) -> (r: Option<Day>)
    ensures
        r == (if keep { repurchase_on } else { original_acquired }),
{
    if keep {
        repurchase_on
    } else {
        replacement_acquired(original_acquired, repurchase_on)
    }
}

/// What a wash write is handed for the date: nothing under `keep` (the
/// repurchase keeps its own date), otherwise the original's date.
pub fn acquired_write(keep: bool, original_acquired: Option<Day>) -> (r: Option<Day>)
    ensures
        r == (if keep { None } else { original_acquired }),
{
    if keep {
        None
    } else {
        original_acquired
    }
}

/// The lot a wash write makes of an open lot with the right ordinal.
pub open spec fn with_deferral(l: Lot, seq: u64, d: i64) -> Lot {
    if l.seq == seq { Lot { cost: (l.cost + d) as i64, ..l } } else { l }
}

/// Attaching a deferral to the open lots of a remainder list carrying `seq`:
/// their basis is raised, everything else is as it was. A negative deferral,
/// an ordinal not in the list, or a basis that leaves 64 bits refuses.
pub open spec fn attach_to_spec(lots: Seq<Lot>, seq: u64, d: i64) -> Result<Seq<Lot>, ReliefError> {
    if d < 0 {
        Err(ReliefError::NegativeDeferral { d })
    } else if !(exists|i: int| 0 <= i < lots.len() && #[trigger] lots[i].seq == seq) {
        Err(ReliefError::NotOpen { seq })
    } else if exists|i: int| 0 <= i < lots.len() && #[trigger] lots[i].seq == seq && !fits(lots[i].cost + d) {
        Err(ReliefError::Overflow(Overflow { what: "the replacement lot's basis" }))
    } else {
        Ok(Seq::new(lots.len(), |i: int| with_deferral(lots[i], seq, d)))
    }
}

/// Attach a deferred loss to the open lots of a remainder list carrying `seq`.
/// The search is over the list handed in, which is the remainder after relief:
/// a lot the sale took is not in it.
pub fn attach_to(lots: &[Lot], seq: u64, d: i64) -> (r: Result<Vec<Lot>, ReliefError>)
    ensures
        match r {
            Ok(v) => attach_to_spec(lots@, seq, d) == Ok::<Seq<Lot>, ReliefError>(v@),
            Err(e) => attach_to_spec(lots@, seq, d) == Err::<Seq<Lot>, ReliefError>(e),
        },
{
    if d < 0 {
        return Err(ReliefError::NegativeDeferral { d });
    }
    let mut out: Vec<Lot> = Vec::new();
    let mut found = false;
    let mut i: usize = 0;
    while i < lots.len()
        invariant
            d >= 0,
            0 <= i <= lots@.len(),
            out@ =~= Seq::new(i as nat, |k: int| with_deferral(lots@[k], seq, d)),
            found == (exists|k: int| 0 <= k < i && #[trigger] lots@[k].seq == seq),
            forall|k: int| 0 <= k < i && #[trigger] lots@[k].seq == seq ==> fits(lots@[k].cost + d),
        decreases lots@.len() - i,
    {
        let l = lots[i];
        if l.seq == seq {
            match checked::add(l.cost, d, "the replacement lot's basis") {
                Ok(c) => {
                    out.push(Lot { seq: l.seq, units: l.units, cost: c, acquired: l.acquired });
                    found = true;
                }
                Err(e) => {
                    assert(lots@[i as int].seq == seq && !fits(lots@[i as int].cost + d));
                    return Err(ReliefError::Overflow(e));
                }
            }
        } else {
            out.push(l);
        }
        i = i + 1;
    }
    if !found {
        return Err(ReliefError::NotOpen { seq });
    }
    Ok(out)
}

} // verus!

verus! {

use crate::holding::{Holding, attach_result};
use crate::order::{Order, arranged};
use crate::relief::{Method, Taken, all_sound, lot_is_sound};

/// What matching a sale against open replacements produced. `remaining_*` is
/// what no open lot could take — a later repurchase inside the window still can.
#[derive(Clone, Copy, Debug, PartialEq, Eq)]
pub struct WashMatch {
    /// Total deferral written onto open replacements.
    pub attached: i64,
    /// Sold units not yet matched to a replacement.
    pub remaining_units: i64,
    /// The unmatched loss, still signed as a gain is.
    pub remaining_loss: i64,
}

/// Match one newly opened lot against a leftover wash from an earlier sale —
/// the forward half of the window. Answers the deferral written, the sold units
/// still unmatched, and the loss still unmatched.
pub open spec fn wash_purchase_spec(order: Method, q: Seq<Lot>, replacement_seq: u64, bought_units: i64, remaining_loss: i64,
    remaining_sold: i64, original_acquired: Option<Day>) -> (Result<(i64, i64, i64), ReliefError>, Seq<Lot>) {
    if remaining_loss >= 0 || remaining_sold <= 0 || bought_units <= 0 {
        (Ok((0, if remaining_sold > 0 { remaining_sold } else { 0 }, remaining_loss)), q)
    } else {
        let bought = if bought_units < remaining_sold { bought_units } else { remaining_sold };
        match disallowed_spec(remaining_loss, remaining_sold, bought) {
            Err(e) => (Err(e), q),
            Ok(d) => {
                let (a, fq) = if d > 0 { attach_result(order, q, replacement_seq, d, original_acquired) } else { (Ok(()), q) };
                match a {
                    Err(e) => (Err(e), fq),
                    Ok(()) => (Ok((d, (remaining_sold - bought) as i64, (remaining_loss + d) as i64)), fq),
                }
            }
        }
    }
}

/// Match one newly opened lot against a leftover wash from an earlier sale.
pub fn wash_purchase(held: &mut Holding, replacement_seq: u64, bought_units: i64, remaining_loss: i64,
    remaining_sold: i64, original_acquired: Option<Day>) -> (r: Result<(i64, i64, i64), ReliefError>)
    ensures
        final(held).order() == old(held).order(),
        (r, final(held).queue()) == wash_purchase_spec(old(held).order(), old(held).queue(), replacement_seq,
            bought_units, remaining_loss, remaining_sold, original_acquired),
{
    if remaining_loss >= 0 || remaining_sold <= 0 || bought_units <= 0 {
        let rs = if remaining_sold > 0 { remaining_sold } else { 0 };
        return Ok((0, rs, remaining_loss));
    }
    let bought = if bought_units < remaining_sold { bought_units } else { remaining_sold };
    let d = disallowed(remaining_loss, remaining_sold, bought)?;
    if d > 0 {
        held.attach(replacement_seq, d, original_acquired)?;
    }
    Ok((d, remaining_sold - bought, remaining_loss + d))
}

/// The open replacements a sale can wash against: open lots, oldest first,
/// that the sale did not take from and whose acquisition day sits inside the
/// window either side of the sale, as (ordinal, units).
pub open spec fn candidates(lots: Seq<Lot>, taken: Seq<Taken>, sale_day: Day, window: i64) -> Seq<(u64, i64)>
    decreases lots.len(),
{
    if lots.len() == 0 {
        Seq::empty()
    } else {
        let l = lots.last();
        let rest = candidates(lots.drop_last(), taken, sale_day, window);
        if !(exists|k: int| 0 <= k < taken.len() && #[trigger] taken[k].seq == l.seq)
            && l.acquired is Some && in_window(window as int, sale_day as int, l.acquired.unwrap() as int) {
            rest.push((l.seq, l.units))
        } else {
            rest
        }
    }
}

/// The plan of a wash: walk the candidates oldest first, matching sold units
/// and attaching each one's share of the disallowance, until the sale is
/// matched or the loss is gone. Answers the writes and what stays unmatched.
pub open spec fn wash_plan(c: Seq<(u64, i64)>, rs: i64, rl: i64) -> Result<(Seq<(u64, i64)>, i64, i64), ReliefError>
    decreases c.len(),
{
    if c.len() == 0 || rs <= 0 || rl >= 0 {
        Ok((Seq::empty(), rs, rl))
    } else {
        let (seq, units) = c[0];
        let bought = if units < rs { units } else { rs };
        match disallowed_spec(rl, rs, bought) {
            Err(e) => Err(e),
            Ok(d) => {
                let rl2 = if d > 0 { (rl + d) as i64 } else { rl };
                match wash_plan(c.drop_first(), (rs - bought) as i64, rl2) {
                    Err(e) => Err(e),
                    Ok((p, a, b)) => Ok((if d > 0 { seq![(seq, d)] + p } else { p }, a, b)),
                }
            }
        }
    }
}

/// Carrying out a plan of wash writes on a holding, one after another, summing
/// what was attached. The first refusal stops it, with the writes before it kept.
pub open spec fn attach_all(order: Method, q: Seq<Lot>, plan: Seq<(u64, i64)>, acq: Option<Day>, sum: int) -> (Result<i64, ReliefError>, Seq<Lot>)
    decreases plan.len(),
{
    if plan.len() == 0 {
        (Ok(sum as i64), q)
    } else {
        let (seq, d) = plan[0];
        let (r, q2) = attach_result(order, q, seq, d, acq);
        match r {
            Err(e) => (Err(e), q2),
            Ok(()) => {
                if !fits(sum + d) {
                    (Err(ReliefError::Overflow(Overflow { what: "the attached deferral" })), q2)
                } else {
                    attach_all(order, q2, plan.drop_first(), acq, sum + d)
                }
            }
        }
    }
}

/// A wash against the lots still open in a holding: plan it, then write it.
pub open spec fn wash_open_spec(order: Method, q: Seq<Lot>, loss: i64, sold_units: i64, sale_day: Day, window: i64,
    original_acquired: Option<Day>, taken: Seq<Taken>) -> (Result<WashMatch, ReliefError>, Seq<Lot>) {
    if loss >= 0 || sold_units <= 0 {
        (Ok(WashMatch { attached: 0, remaining_units: if sold_units > 0 { sold_units } else { 0 }, remaining_loss: loss }), q)
    } else {
        let c = candidates(arranged(Order::By(Method::Fifo), q), taken, sale_day, window);
        match wash_plan(c, sold_units, loss) {
            Err(e) => (Err(e), q),
            Ok((plan, rs, rl)) => {
                let (r, fq) = attach_all(order, q, plan, original_acquired, 0);
                match r {
                    Err(e) => (Err(e), fq),
                    Ok(a) => (Ok(WashMatch { attached: a, remaining_units: rs, remaining_loss: rl }), fq),
                }
            }
        }
    }
}

/// Plan, then write, a wash against the lots still open in `held`.
///
/// The holding is the remainder: a lot the sale took from is not a candidate,
/// even where some of it remains. Replacements are matched oldest first and
/// each is attached its share of the disallowance; a split that will not divide
/// refuses before any write lands.
pub fn wash_open(held: &mut Holding, loss: i64, sold_units: i64, sale_day: Day, window: i64,
    original_acquired: Option<Day>, taken: &[Taken]) -> (r: Result<WashMatch, ReliefError>)
    ensures
        final(held).order() == old(held).order(),
        (r, final(held).queue()) == wash_open_spec(old(held).order(), old(held).queue(), loss, sold_units, sale_day,
            window, original_acquired, taken@),
{
    if loss >= 0 || sold_units <= 0 {
        let ru = if sold_units > 0 { sold_units } else { 0 };
        return Ok(WashMatch { attached: 0, remaining_units: ru, remaining_loss: loss });
    }
    let lots = held.lots();
    let mut cands: Vec<(u64, i64)> = Vec::new();
    let mut i: usize = 0;
    assert(lots@.take(0) =~= Seq::<Lot>::empty());
    while i < lots.len()
        invariant
            0 <= i <= lots@.len(),
            all_sound(lots@),
            cands@ == candidates(lots@.take(i as int), taken@, sale_day, window),
            forall|k: int| 0 <= k < cands@.len() ==> (#[trigger] cands@[k]).1 >= 0,
        decreases lots@.len() - i,
    {
        let l = lots[i];
        assert(lot_is_sound(lots@[i as int].units as int, lots@[i as int].cost as int));
        assert(lots@.take(i + 1).drop_last() =~= lots@.take(i as int));
        assert(lots@.take(i + 1).last() == l);
        let mut was_taken = false;
        let mut k: usize = 0;
        while k < taken.len()
            invariant
                0 <= k <= taken@.len(),
                was_taken == (exists|j: int| 0 <= j < k && #[trigger] taken@[j].seq == l.seq),
            decreases taken@.len() - k,
        {
            if taken[k].seq == l.seq {
                was_taken = true;
            }
            k = k + 1;
        }
        if !was_taken {
            if let Some(b) = l.acquired {
                if in_wash_window(window, sale_day, b) {
                    cands.push((l.seq, l.units));
                }
            }
        }
        i = i + 1;
    }
    assert(lots@.take(lots@.len() as int) =~= lots@);
    let mut plan: Vec<(u64, i64)> = Vec::new();
    let mut remaining_sold = sold_units;
    let mut remaining_loss = loss;
    let mut j: usize = 0;
    assert(cands@.skip(0) =~= cands@);
    assert(plan@ + Seq::<(u64, i64)>::empty() =~= plan@);
    while j < cands.len() && remaining_sold > 0 && remaining_loss < 0
        invariant
            loss < 0,
            sold_units > 0,
            held.queue() == old(held).queue(),
            held.order() == old(held).order(),
            cands@ == candidates(arranged(Order::By(Method::Fifo), old(held).queue()), taken@, sale_day, window),
            0 <= j <= cands@.len(),
            0 <= remaining_sold <= sold_units,
            loss <= remaining_loss <= 0,
            forall|k: int| 0 <= k < cands@.len() ==> (#[trigger] cands@[k]).1 >= 0,
            wash_plan(cands@, sold_units, loss) == plan_after(plan@, wash_plan(cands@.skip(j as int), remaining_sold, remaining_loss)),
        decreases cands@.len() - j,
    {
        let (seq, units) = cands[j];
        assert(cands@[j as int].1 >= 0);
        let ghost rest = cands@.skip(j as int);
        assert(rest[0] == (seq, units));
        assert(rest.drop_first() =~= cands@.skip(j + 1));
        let bought = if units < remaining_sold { units } else { remaining_sold };
        let d = match disallowed(remaining_loss, remaining_sold, bought) {
            Ok(d) => d,
            Err(e) => {
                assert(wash_plan(rest, remaining_sold, remaining_loss) == Err::<(Seq<(u64, i64)>, i64, i64), ReliefError>(e));
                return Err(e);
            }
        };
        let ghost before = plan@;
        if d > 0 {
            plan.push((seq, d));
            remaining_loss = remaining_loss + d;
        }
        remaining_sold = remaining_sold - bought;
        j = j + 1;
        proof {
            match wash_plan(cands@.skip(j as int), remaining_sold, remaining_loss) {
                Ok((p, a, b)) => {
                    if d > 0 {
                        assert(before + (seq![(seq, d)] + p) =~= plan@ + p);
                    } else {
                        assert(before + p =~= plan@ + p);
                    }
                }
                Err(e) => {}
            }
        }
    }
    proof {
        if j == cands@.len() {
            assert(cands@.skip(j as int) =~= Seq::<(u64, i64)>::empty());
        }
        assert(wash_plan(cands@.skip(j as int), remaining_sold, remaining_loss)
            == Ok::<(Seq<(u64, i64)>, i64, i64), ReliefError>((Seq::empty(), remaining_sold, remaining_loss)));
        assert(plan@ + Seq::<(u64, i64)>::empty() =~= plan@);
    }
    let mut attached: i64 = 0;
    let mut m: usize = 0;
    assert(plan@.skip(0) =~= plan@);
    while m < plan.len()
        invariant
            loss < 0,
            sold_units > 0,
            cands@ == candidates(arranged(Order::By(Method::Fifo), old(held).queue()), taken@, sale_day, window),
            wash_plan(cands@, sold_units, loss) == Ok::<(Seq<(u64, i64)>, i64, i64), ReliefError>((plan@, remaining_sold, remaining_loss)),
            0 <= m <= plan@.len(),
            held.order() == old(held).order(),
            attach_all(old(held).order(), old(held).queue(), plan@, original_acquired, 0)
                == attach_all(old(held).order(), held.queue(), plan@.skip(m as int), original_acquired, attached as int),
        decreases plan@.len() - m,
    {
        let (seq, d) = plan[m];
        let ghost rest = plan@.skip(m as int);
        assert(rest[0] == (seq, d));
        assert(rest.drop_first() =~= plan@.skip(m + 1));
        held.attach(seq, d, original_acquired)?;
        attached = match checked::add(attached, d, "the attached deferral") {
            Ok(a) => a,
            Err(e) => { return Err(ReliefError::Overflow(e)); }
        };
        m = m + 1;
    }
    assert(plan@.skip(m as int) =~= Seq::<(u64, i64)>::empty());
    Ok(WashMatch { attached, remaining_units: remaining_sold, remaining_loss })
}

/// Put writes already planned in front of what the rest of a plan writes.
pub open spec fn plan_after(p0: Seq<(u64, i64)>, r: Result<(Seq<(u64, i64)>, i64, i64), ReliefError>) -> Result<(Seq<(u64, i64)>, i64, i64), ReliefError> {
    match r {
        Ok((p, a, b)) => Ok((p0 + p, a, b)),
        Err(e) => Err(e),
    }
}

} // verus!
