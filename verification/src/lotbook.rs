//! Open tax lots per position, maintained entry by entry.
//!
//! A purchase opens a lot and meets any leftover wash of an earlier sale of
//! the same position; a sale relieves lots under the method its own entry's
//! configuration named, or not at all. A sale that cannot be relieved, or
//! whose posted basis disagrees with what relieving the lots costs, is a
//! break: it concerns one position, and is named rather than propagated.

use vstd::prelude::*;
use crate::chart::{PostingRecord, PostingView, postings_view};
use crate::checked::fits;
use crate::fold::{HeldKey, held_order_key};
use crate::holding::{Holding, count_undated, place, reordered};
use crate::lots::{PendingWash, PendingView, pendings_view, pending_live, matched, match_step, min_tax_price, wash_sale_result,
    classified, earliest, classify, try_wash_sale, min_tax_sale, match_pending_washes};
use crate::merge::{MergeKey, key_lt, opt_lt, copy_text, opt_before, opt_same};
use crate::order::{Order, arranged};
use crate::project::{FoldCost, Terms};
use crate::relief::{Day, Lot, Method, Relief, ReliefError, Taken, lot_is_sound, walk, relief_message, method_words,
    relieve_min_tax_spec, relieve_spec_id_spec, relieve_average_cost_spec};
use crate::shadow::{JournalEntry, EntryView};
use crate::text::{decimal, push_decimal};
use crate::wash::WashMatch;

verus! {

/// One position's holding, as a value: its key, the order it is kept in, and
/// its open lots in that order.
pub type HoldingView = (HeldKey, Method, Seq<Lot>);

/// An amount kept per currency, as a value.
pub type CurrencyRow = (Option<Seq<char>>, i128);

/// A lot book, as a value.
pub struct BookView {
    pub open: Seq<HoldingView>,
    pub relieved: Seq<CurrencyRow>,
    pub short_term: Seq<CurrencyRow>,
    pub long_term: Seq<CurrencyRow>,
    pub pending: Seq<PendingView>,
    pub breaks: Seq<Seq<char>>,
}

/// Holdings, each taken as a value.
pub open spec fn holdings_view(v: Seq<((i64, String), Holding)>) -> Seq<HoldingView> {
    v.map_values(|e: ((i64, String), Holding)| ((e.0.0, e.0.1@), e.1.order(), e.1.queue()))
}

/// Amounts per currency, each taken as a value.
pub open spec fn currency_view(v: Seq<(Option<String>, i128)>) -> Seq<CurrencyRow> {
    v.map_values(|e: (Option<String>, i128)| (crate::chart::text_of(e.0), e.1))
}

/// Texts, each taken by its characters.
pub open spec fn texts_view(v: Seq<String>) -> Seq<Seq<char>> {
    v.map_values(|s: String| s@)
}

/// Open lots per position, what relieving them has cost, the classified part
/// of the realized gain, leftover washes, and the sales that were breaks.
/// Amounts per currency are kept per currency, because a sum over
/// denominations is not a figure; they are running sums that wrap at 128
/// bits, as unchecked additions do.
#[derive(Debug)]
pub struct LotBook {
    /// Open lots per position, in key order.
    pub open: Vec<((i64, String), Holding)>,
    /// Cost given up by sales, per currency.
    pub relieved: Vec<(Option<String>, i128)>,
    /// The part of the realized gain held short of the threshold, per currency.
    pub short_term: Vec<(Option<String>, i128)>,
    /// And held at least the threshold.
    pub long_term: Vec<(Option<String>, i128)>,
    /// Losses realized and not yet matched to a replacement.
    pub pending_wash: Vec<PendingWash>,
    /// Sales that could not be relieved, and why.
    pub breaks: Vec<String>,
}

impl View for LotBook {
    type V = BookView;

    open spec fn view(&self) -> BookView {
        BookView {
            open: holdings_view(self.open@),
            relieved: currency_view(self.relieved@),
            short_term: currency_view(self.short_term@),
            long_term: currency_view(self.long_term@),
            pending: pendings_view(self.pending_wash@),
            breaks: texts_view(self.breaks@),
        }
    }
}

// ------------------------------------------------------------ keyed tables

/// How many leading holdings have keys below `k`: where `k`'s holding is, or
/// would go.
pub open spec fn holding_slot(v: Seq<HoldingView>, k: HeldKey) -> int
    decreases v.len(),
{
    if v.len() == 0 || !key_lt(held_order_key(v[0].0), held_order_key(k)) {
        0
    } else {
        1 + holding_slot(v.drop_first(), k)
    }
}

/// A position's holding: its order and lots, or an empty oldest-first one.
pub open spec fn holding_of(v: Seq<HoldingView>, k: HeldKey) -> (Method, Seq<Lot>) {
    let p = holding_slot(v, k);
    if 0 <= p < v.len() && v[p].0 == k { (v[p].1, v[p].2) } else { (Method::Fifo, Seq::empty()) }
}

/// Holdings with a position's holding replaced, or put where its key goes.
pub open spec fn with_holding(v: Seq<HoldingView>, k: HeldKey, m: Method, q: Seq<Lot>) -> Seq<HoldingView> {
    let p = holding_slot(v, k);
    if 0 <= p < v.len() && v[p].0 == k { v.update(p, (k, m, q)) } else { v.insert(p, (k, m, q)) }
}

/// A currency in the order tables keep.
pub open spec fn currency_key(c: Option<Seq<char>>) -> MergeKey {
    (0, c, None)
}

/// How many leading rows have currencies below `c`.
pub open spec fn currency_slot(v: Seq<CurrencyRow>, c: Option<Seq<char>>) -> int
    decreases v.len(),
{
    if v.len() == 0 || !opt_lt(v[0].0, c) {
        0
    } else {
        1 + currency_slot(v.drop_first(), c)
    }
}

/// An amount added to a currency's running sum, wrapping at 128 bits; a
/// currency not yet kept starts from zero, in its place.
pub open spec fn currency_add(v: Seq<CurrencyRow>, c: Option<Seq<char>>, x: i128) -> Seq<CurrencyRow> {
    let p = currency_slot(v, c);
    if 0 <= p < v.len() && v[p].0 == c { v.update(p, (c, v[p].1.wrapping_add(x))) } else { v.insert(p, (c, 0i128.wrapping_add(x))) }
}

proof fn lemma_holding_slot_bounds(v: Seq<HoldingView>, k: HeldKey)
    ensures
        0 <= holding_slot(v, k) <= v.len(),
    decreases v.len(),
{
    if v.len() > 0 && key_lt(held_order_key(v[0].0), held_order_key(k)) {
        lemma_holding_slot_bounds(v.drop_first(), k);
    }
}

proof fn lemma_currency_slot_bounds(v: Seq<CurrencyRow>, c: Option<Seq<char>>)
    ensures
        0 <= currency_slot(v, c) <= v.len(),
    decreases v.len(),
{
    if v.len() > 0 && opt_lt(v[0].0, c) {
        lemma_currency_slot_bounds(v.drop_first(), c);
    }
}

fn held_key_below(key: &(i64, String), dim: i64, inst: &String) -> (r: bool)
    ensures
        r == key_lt(held_order_key((key.0, key.1@)), held_order_key((dim, inst@))),
{
    key.0 < dim || (key.0 == dim && crate::merge::text_before(key.1.as_str(), inst.as_str()))
}

/// Find where a position's holding is or goes; take it out where it is, or
/// start an empty oldest-first one.
fn take_holding(open: &mut Vec<((i64, String), Holding)>, dim: i64, inst: &String) -> (r: (usize, bool, Holding))
    ensures
        r.0 == holding_slot(holdings_view(old(open)@), (dim, inst@)),
        r.0 <= old(open)@.len(),
        r.1 == (r.0 < old(open)@.len() && holdings_view(old(open)@)[r.0 as int].0 == (dim, inst@)),
        (r.2.order(), r.2.queue()) == holding_of(holdings_view(old(open)@), (dim, inst@)),
        r.1 ==> final(open)@ == old(open)@.remove(r.0 as int),
        !r.1 ==> final(open)@ == old(open)@,
{
    let ghost v = holdings_view(open@);
    let ghost k: HeldKey = (dim, inst@);
    let mut i: usize = 0;
    proof {
        assert(v.skip(0) =~= v);
        lemma_holding_slot_bounds(v, k);
    }
    while i < open.len() && held_key_below(&open[i].0, dim, inst)
        invariant
            0 <= i <= open@.len(),
            v == holdings_view(open@),
            v.len() == open@.len(),
            k == (dim, inst@),
            holding_slot(v, k) == i + holding_slot(v.skip(i as int), k),
        decreases open@.len() - i,
    {
        proof {
            assert(v.skip(i as int)[0] == v[i as int]);
            assert(v.skip(i as int).drop_first() =~= v.skip(i + 1));
        }
        i = i + 1;
    }
    proof {
        if i < open@.len() {
            assert(v.skip(i as int)[0] == v[i as int]);
        }
        assert(holding_slot(v.skip(i as int), k) == 0);
    }
    let found = i < open.len() && open[i].0.0 == dim && crate::text::str_eq(open[i].0.1.as_str(), inst.as_str());
    if found {
        let (_, h) = open.remove(i);
        (i, true, h)
    } else {
        (i, false, Holding::new(Method::Fifo))
    }
}

/// Put a position's holding back where `take_holding` found its place.
fn put_holding(open: &mut Vec<((i64, String), Holding)>, at: usize, was: bool, dim: i64, inst: &String, h: Holding,
    Ghost(before): Ghost<Seq<((i64, String), Holding)>>)
    requires
        at == holding_slot(holdings_view(before), (dim, inst@)),
        at <= before.len(),
        was == (at < before.len() && holdings_view(before)[at as int].0 == (dim, inst@)),
        was ==> old(open)@ == before.remove(at as int),
        !was ==> old(open)@ == before,
    ensures
        holdings_view(final(open)@) == with_holding(holdings_view(before), (dim, inst@), h.order(), h.queue()),
{
    let ghost v = holdings_view(before);
    let ghost k: HeldKey = (dim, inst@);
    let ghost e = ((dim, inst@), h.order(), h.queue());
    open.insert(at, ((dim, inst.clone()), h));
    proof {
        let n = holdings_view(open@);
        if was {
            assert forall|j: int| 0 <= j < n.len() implies #[trigger] n[j] == v.update(at as int, e)[j] by {
                if j < at {
                    assert(open@[j] == before[j]);
                } else if j > at {
                    assert(open@[j] == before[j]);
                }
            }
            assert(n =~= v.update(at as int, e));
        } else {
            assert forall|j: int| 0 <= j < n.len() implies #[trigger] n[j] == v.insert(at as int, e)[j] by {
                if j < at {
                    assert(open@[j] == before[j]);
                } else if j > at {
                    assert(open@[j] == before[j - 1]);
                }
            }
            assert(n =~= v.insert(at as int, e));
        }
    }
}

/// Add to a currency's running sum.
fn add_to_currency(rows: &mut Vec<(Option<String>, i128)>, c: &Option<String>, x: i128)
    ensures
        currency_view(final(rows)@) == currency_add(currency_view(old(rows)@), crate::chart::text_of(*c), x),
{
    let ghost v = currency_view(rows@);
    let ghost cc = crate::chart::text_of(*c);
    let mut i: usize = 0;
    proof {
        assert(v.skip(0) =~= v);
        lemma_currency_slot_bounds(v, cc);
    }
    while i < rows.len() && opt_before(&rows[i].0, c)
        invariant
            0 <= i <= rows@.len(),
            v == currency_view(rows@),
            v.len() == rows@.len(),
            cc == crate::chart::text_of(*c),
            currency_slot(v, cc) == i + currency_slot(v.skip(i as int), cc),
        decreases rows@.len() - i,
    {
        proof {
            assert(v.skip(i as int)[0] == v[i as int]);
            assert(v.skip(i as int).drop_first() =~= v.skip(i + 1));
        }
        i = i + 1;
    }
    proof {
        if i < rows@.len() {
            assert(v.skip(i as int)[0] == v[i as int]);
        }
        assert(currency_slot(v.skip(i as int), cc) == 0);
    }
    if i < rows.len() && opt_same(&rows[i].0, c) {
        let a = rows[i].1;
        let key = copy_text(&rows[i].0);
        rows.set(i, (key, a.wrapping_add(x)));
        proof {
            assert(currency_view(rows@) =~= v.update(i as int, (cc, a.wrapping_add(x))));
        }
    } else {
        rows.insert(i, (copy_text(c), 0i128.wrapping_add(x)));
        proof {
            let n = currency_view(rows@);
            assert forall|j: int| 0 <= j < n.len() implies #[trigger] n[j] == v.insert(i as int, (cc, 0i128.wrapping_add(x)))[j] by {
                if j > i {
                    assert(rows@[j] == old(rows)@[j - 1]);
                }
            }
            assert(n =~= v.insert(i as int, (cc, 0i128.wrapping_add(x))));
        }
    }
}

// ------------------------------------------------------------ one entry

/// Whether a posting sells an instrument.
pub open spec fn is_sale(p: PostingView) -> bool {
    p.instrument is Some && (p.quantity matches Some(q) && q < 0)
}

/// How many postings sell an instrument.
pub open spec fn sale_count(ps: Seq<PostingView>) -> int
    decreases ps.len(),
{
    if ps.len() == 0 { 0 } else { sale_count(ps.drop_last()) + if is_sale(ps.last()) { 1int } else { 0 } }
}

/// The amounts posted to a dimension, added up.
pub open spec fn leg_sum(ps: Seq<PostingView>, d: i64) -> int
    decreases ps.len(),
{
    if ps.len() == 0 { 0 } else { leg_sum(ps.drop_last(), d) + if ps.last().dim == d { ps.last().amount as int } else { 0 } }
}

/// Whether anything is posted to a dimension.
pub open spec fn has_leg(ps: Seq<PostingView>, d: i64) -> bool {
    exists|i: int| 0 <= i < ps.len() && (#[trigger] ps[i]).dim == d
}

/// Whether adding up the amounts posted to a dimension stays within 64 bits.
pub open spec fn legs_fit(ps: Seq<PostingView>, d: i64) -> bool {
    forall|k: int| 0 <= k <= ps.len() ==> fits(#[trigger] leg_sum(ps.take(k), d))
}

/// The realized-gain leg a disposal is attributed: only an entry with exactly
/// one sale, under terms that name where a gain lands, and posting there.
pub open spec fn gain_leg_of(ps: Seq<PostingView>, terms: Result<Terms, Seq<char>>) -> Option<i64> {
    match terms {
        Ok(t) => match t.roles {
            Some(r) => if sale_count(ps) == 1 && has_leg(ps, r.realized_gain) { Some(leg_sum(ps, r.realized_gain) as i64) } else { None },
            None => None,
        },
        Err(_) => None,
    }
}

/// Whether an entry can be applied to a lot book without a figure leaving 64
/// bits where nothing checks it: a sale's units and posted amount can be
/// negated, and an attributed gain leg adds up.
pub open spec fn lots_computable(e: EntryView, terms: Result<Terms, Seq<char>>) -> bool {
    &&& forall|i: int| 0 <= i < e.postings.len() ==> (#[trigger] e.postings[i]).quantity != Some(i64::MIN)
    &&& forall|i: int| 0 <= i < e.postings.len() && is_sale(#[trigger] e.postings[i]) ==> e.postings[i].amount != i64::MIN
    &&& match terms {
        Ok(t) => match t.roles {
            Some(r) => sale_count(e.postings) == 1 && has_leg(e.postings, r.realized_gain) ==> legs_fit(e.postings, r.realized_gain),
            None => true,
        },
        Err(_) => true,
    }
}

/// `id: why`.
pub open spec fn entry_break(id: Seq<char>, why: Seq<char>) -> Seq<char> {
    id + ": "@ + why
}

/// `id: selling N of inst`.
pub open spec fn selling(id: Seq<char>, want: int, inst: Seq<char>) -> Seq<char> {
    id + ": selling "@ + decimal(want) + " of "@ + inst
}

/// A sale that could not be relieved, and why.
pub open spec fn not_relieved(id: Seq<char>, want: int, inst: Seq<char>, why: Seq<char>) -> Seq<char> {
    selling(id, want, inst) + " could not be relieved — "@ + why
}

/// Why a sale under a configuration that could not be read is not relieved.
pub open spec fn method_unknown(why: Seq<char>) -> Seq<char> {
    "the lot method is not known: "@ + why
}

/// A named selection under a configuration that ranks at a price.
pub open spec fn named_and_ranked() -> Seq<char> {
    "this sale names lots for specific identification and its configuration elects min-tax. Two answers for one sale. Drop identified_lots, or drop min_tax_short_weight"@
}

/// A named selection under a configuration that pools.
pub open spec fn named_and_pooled() -> Seq<char> {
    "this sale names lots for specific identification and its configuration elects average cost. Two answers for one sale. Drop identified_lots, or drop average_cost"@
}

/// How a sale was relieved, in an operator's words.
pub open spec fn how_words(e: EntryView, t: Terms) -> Seq<char> {
    if e.identified_lots is Some {
        "specific-identification"@
    } else if t.min_tax_short_weight is Some {
        "min-tax-at-the-sale-price"@
    } else if t.average_cost == Some(true) {
        "average-cost-pooled-basis"@
    } else {
        method_words(t.method)
    }
}

/// A sale whose posted basis is not what relieving the lots cost.
pub open spec fn drift(id: Seq<char>, want: int, inst: Seq<char>, posted: int, how: Seq<char>, cost: int) -> Seq<char> {
    selling(id, want, inst) + " posted "@ + decimal(posted) + " of basis, and relieving the lots "@ + how + " costs "@
        + decimal(cost) + " — the position and the lot book will disagree by "@ + decimal(posted - cost)
}

/// What relieving a holding gave: what was taken and what it cost, or why
/// not; and the holding's order and lots after.
pub type Outcome = (Result<(Seq<Taken>, int), Seq<char>>, Method, Seq<Lot>);

/// A relief drawn out of a holding in acquisition order, what is left settled
/// back into the holding's order.
pub open spec fn drawn_outcome(w: Result<(Seq<Taken>, Seq<Lot>, int), ReliefError>, order: Method, drained: Seq<Lot>) -> Outcome {
    match w {
        Ok((t, left, c)) => (Ok((t, c)), order, arranged(Order::By(order), left)),
        Err(e) => (Err(relief_message(e)), order, arranged(Order::By(order), drained)),
    }
}

/// A relief under an ordering method: the holding put into the method's
/// order, refused where the method needs dates a lot lacks, and walked.
pub open spec fn method_outcome(m: Method, q: Seq<Lot>, method: Method, want: i64) -> Outcome {
    if want < 0 {
        (Err(relief_message(ReliefError::NegativeSale { want })), m, q)
    } else {
        let rq = reordered(m, method, q);
        if method.spec_needs_dates() && count_undated(rq) > 0 {
            (Err(relief_message(ReliefError::UndatedLots { count: count_undated(rq) as u64, method })), method, rq)
        } else {
            match walk(rq, want as int, 0, want) {
                Ok((t, left, c)) => (Ok((t, c)), method, left),
                Err(e) => (Err(relief_message(e)), method, rq),
            }
        }
    }
}

/// How one sale relieves a holding: by the lots it names, at a price under
/// min-tax, from the pool under average cost, or under the method; a named
/// selection under terms that rank or pool is refused, being two answers.
pub open spec fn sale_outcome(m: Method, q: Seq<Lot>, want: i64, e: EntryView, t: Terms, trade_day: Option<Day>) -> Outcome {
    let drained = arranged(Order::By(Method::Fifo), q);
    match e.identified_lots {
        Some(named) => if t.min_tax_short_weight is Some {
            (Err(named_and_ranked()), m, q)
        } else if t.average_cost == Some(true) {
            (Err(named_and_pooled()), m, q)
        } else {
            drawn_outcome(relieve_spec_id_spec(drained, want, named), m, drained)
        },
        None => match t.min_tax_short_weight {
            Some(w) => match min_tax_price(e.postings, t, trade_day, want) {
                Err(why) => (Err(why), m, q),
                Ok(price) => drawn_outcome(relieve_min_tax_spec(drained, want, price, w, t.long_term_days, trade_day.unwrap()), m, drained),
            },
            None => if t.average_cost == Some(true) {
                drawn_outcome(relieve_average_cost_spec(drained, want), m, drained)
            } else {
                method_outcome(m, q, t.method, want)
            },
        },
    }
}

/// A purchase: a lot opened, met by any leftover wash its day falls in the
/// window of; a husk refused where it is offered.
pub open spec fn purchase_step(b: BookView, k: HeldKey, m: Method, q: Seq<Lot>, lot: Lot, id: Seq<char>, trade_day: Option<Day>) -> BookView {
    if !lot_is_sound(lot.units as int, lot.cost as int) {
        BookView {
            open: with_holding(b.open, k, m, q),
            breaks: b.breaks.push(entry_break(id, relief_message(ReliefError::Husk { seq: lot.seq, units: lot.units, cost: lot.cost }))),
            ..b
        }
    } else {
        let q1 = place(m, lot, q);
        match trade_day {
            None => BookView { open: with_holding(b.open, k, m, q1), ..b },
            Some(day) => {
                let (mr, fq) = matched(m, q1, b.pending, lot.units, k, lot.seq, day);
                match mr {
                    Ok(left) => BookView { open: with_holding(b.open, k, m, fq), pending: left, ..b },
                    Err(err) => BookView {
                        open: with_holding(b.open, k, m, fq),
                        pending: Seq::empty(),
                        breaks: b.breaks.push(entry_break(id, relief_message(err))),
                        ..b
                    },
                }
            },
        }
    }
}

/// The wash left over from a sale, where a loss and units remain unmatched
/// inside a dated window.
pub open spec fn leftover_of(attached: Option<WashMatch>, k: HeldKey, trade_day: Option<Day>, t: Terms, taken: Seq<Taken>) -> Option<PendingView> {
    match (attached, trade_day, t.wash_window_days) {
        (Some(w), Some(sold_on), Some(window)) => if w.remaining_units > 0 && w.remaining_loss < 0 {
            Some(PendingView {
                key: k,
                window,
                sold_on,
                remaining_units: w.remaining_units,
                remaining_loss: w.remaining_loss,
                original_acquired: if t.wash_keep_holding_period == Some(true) { None } else { earliest(taken) },
            })
        } else {
            None
        },
        _ => None,
    }
}

/// A sale: relieved, its cost given up in its currency, its loss washed
/// against what remains, its gain classified where it can be, and its
/// leftover wash remembered; or a break saying why it was not relieved.
pub open spec fn sale_step(b: BookView, k: HeldKey, m: Method, q: Seq<Lot>, p: PostingView, e: EntryView, t: Terms,
    trade_day: Option<Day>, gain_leg: Option<i64>, want: i64) -> BookView {
    let (res, m1, q1) = sale_outcome(m, q, want, e, t, trade_day);
    match res {
        Err(why) => BookView { open: with_holding(b.open, k, m1, q1), breaks: b.breaks.push(not_relieved(e.id, want as int, k.1, why)), ..b },
        Ok((taken, cost)) => {
            let posted = -p.amount;
            let br1 = if posted != cost { b.breaks.push(drift(e.id, want as int, k.1, posted, how_words(e, t), cost)) } else { b.breaks };
            let (wres, q2) = wash_sale_result(m1, q1, taken, want, gain_leg, trade_day, t);
            let attached = match wres { Ok(w) => w, Err(_) => None };
            let br2 = match wres { Ok(_) => br1, Err(err) => br1.push(entry_break(e.id, relief_message(err))) };
            let split = match gain_leg { Some(g) => classified(taken, cost as i64, g, trade_day, t.long_term_days), None => None };
            BookView {
                open: with_holding(b.open, k, m1, q2),
                relieved: currency_add(b.relieved, p.currency, cost as i128),
                short_term: match split { Some((s, _)) => currency_add(b.short_term, p.currency, s as i128), None => b.short_term },
                long_term: match split { Some((_, l)) => currency_add(b.long_term, p.currency, l as i128), None => b.long_term },
                pending: match leftover_of(attached, k, trade_day, t, taken) { Some(w) => b.pending.push(w), None => b.pending },
                breaks: br2,
            }
        },
    }
}

/// One posting applied to a lot book: a purchase opens a lot, a sale
/// relieves, and anything else leaves the book as it was.
pub open spec fn lot_step(b: BookView, p: PostingView, e: EntryView, terms: Result<Terms, Seq<char>>, trade_day: Option<Day>,
    at: int, gain_leg: Option<i64>) -> BookView {
    match (p.instrument, p.quantity) {
        (Some(inst), Some(qty)) => if qty == 0 {
            b
        } else {
            let k: HeldKey = (p.dim, inst);
            let (m, q) = holding_of(b.open, k);
            if qty > 0 {
                purchase_step(b, k, m, q, Lot { seq: at as u64, units: qty, cost: p.amount, acquired: trade_day }, e.id, trade_day)
            } else {
                match terms {
                    Err(why) => BookView { breaks: b.breaks.push(not_relieved(e.id, -qty, inst, method_unknown(why))), ..b },
                    Ok(t) => sale_step(b, k, m, q, p, e, t, trade_day, gain_leg, (-qty) as i64),
                }
            }
        },
        _ => b,
    }
}

/// Postings applied in order.
pub open spec fn lots_after(b: BookView, ps: Seq<PostingView>, e: EntryView, terms: Result<Terms, Seq<char>>,
    trade_day: Option<Day>, at: int, gain_leg: Option<i64>) -> BookView
    decreases ps.len(),
{
    if ps.len() == 0 {
        b
    } else {
        lot_step(lots_after(b, ps.drop_last(), e, terms, trade_day, at, gain_leg), ps.last(), e, terms, trade_day, at, gain_leg)
    }
}

/// Reliefs attempted: one per sale under terms that could be read.
pub open spec fn reliefs_after(r: u64, ps: Seq<PostingView>, terms_read: bool) -> u64
    decreases ps.len(),
{
    if ps.len() == 0 {
        r
    } else {
        let before = reliefs_after(r, ps.drop_last(), terms_read);
        if terms_read && is_sale(ps.last()) { before.wrapping_add(1) } else { before }
    }
}

/// Terms as values: a configuration that could not be read, by its reason.
pub open spec fn terms_view(t: Result<Terms, String>) -> Result<Terms, Seq<char>> {
    match t {
        Ok(x) => Ok(x),
        Err(s) => Err(s@),
    }
}

pub proof fn lemma_matched_live(order: Method, q: Seq<Lot>, pending: Seq<PendingView>, units_left: i64, key: HeldKey,
    seq: u64, day: Day)
    requires
        pending_live(pending),
    ensures
        matched(order, q, pending, units_left, key, seq, day).0 matches Ok(left) ==> pending_live(left),
    decreases pending.len(),
{
    if pending.len() > 0 {
        let (r, fq) = match_step(order, q, units_left, pending[0], key, seq, day);
        match r {
            Err(_) => {},
            Ok((left, kept)) => {
                let rest = pending.drop_first();
                assert forall|i: int| 0 <= i < rest.len() implies (#[trigger] rest[i]).remaining_units > 0 by {
                    assert(rest[i] == pending[i + 1]);
                }
                lemma_matched_live(order, fq, rest, left, key, seq, day);
                assert(pending[0].remaining_units > 0);
                match matched(order, fq, rest, left, key, seq, day).0 {
                    Ok(tail) => {
                        match kept {
                            Some(kk) => {
                                let all = seq![kk] + tail;
                                assert forall|i: int| 0 <= i < all.len() implies (#[trigger] all[i]).remaining_units > 0 by {
                                    if i > 0 {
                                        assert(all[i] == tail[i - 1]);
                                    }
                                }
                            },
                            None => {},
                        }
                    },
                    Err(_) => {},
                }
            },
        }
    }
}

// ------------------------------------------------------------ the words

fn entry_break_text(id: &str, why: &str) -> (r: String)
    ensures
        r@ == entry_break(id@, why@),
{
    let mut s = String::from_str(id);
    s.append(": ");
    s.append(why);
    s
}

fn selling_text(id: &str, want: i64, inst: &str) -> (r: String)
    ensures
        r@ == selling(id@, want as int, inst@),
{
    let mut s = String::from_str(id);
    s.append(": selling ");
    push_decimal(&mut s, want as i128);
    s.append(" of ");
    s.append(inst);
    s
}

fn not_relieved_text(id: &str, want: i64, inst: &str, why: &str) -> (r: String)
    ensures
        r@ == not_relieved(id@, want as int, inst@, why@),
{
    let mut s = selling_text(id, want, inst);
    s.append(" could not be relieved — ");
    s.append(why);
    s
}

fn how_text(e: &JournalEntry, t: &Terms) -> (r: &'static str)
    ensures
        r@ == how_words(e@, *t),
{
    if e.identified_lots.is_some() {
        "specific-identification"
    } else if t.min_tax_short_weight.is_some() {
        "min-tax-at-the-sale-price"
    } else if t.average_cost == Some(true) {
        "average-cost-pooled-basis"
    } else {
        t.method.describe()
    }
}

fn drift_text(id: &str, want: i64, inst: &str, posted: i64, how: &str, cost: i64) -> (r: String)
    ensures
        r@ == drift(id@, want as int, inst@, posted as int, how@, cost as int),
{
    let mut s = selling_text(id, want, inst);
    s.append(" posted ");
    push_decimal(&mut s, posted as i128);
    s.append(" of basis, and relieving the lots ");
    s.append(how);
    s.append(" costs ");
    push_decimal(&mut s, cost as i128);
    s.append(" — the position and the lot book will disagree by ");
    push_decimal(&mut s, posted as i128 - cost as i128);
    s
}

// ------------------------------------------------------------ applying

/// Open a lot for a purchase, and meet it with any leftover wash.
fn purchase(book: &mut LotBook, p: &PostingRecord, inst: &String, qty: i64, e: &JournalEntry, trade_day: Option<Day>, at: usize)
    requires
        p.instrument == Some(*inst),
        p.quantity == Some(qty),
        qty > 0,
        pending_live(old(book)@.pending),
    ensures
        ({
            let k: HeldKey = (p.dim, inst@);
            let (m, q) = holding_of(old(book)@.open, k);
            final(book)@ == purchase_step(old(book)@, k, m, q, Lot { seq: at as u64, units: qty, cost: p.amount, acquired: trade_day }, e.id@, trade_day)
        }),
        pending_live(final(book)@.pending),
{
    let ghost b = book@;
    let ghost before = book.open@;
    let ghost k: HeldKey = (p.dim, inst@);
    let (slot, was, mut held) = take_holding(&mut book.open, p.dim, inst);
    let lot = Lot { seq: at as u64, units: qty, cost: p.amount, acquired: trade_day };
    match held.push(lot) {
        Err(err) => {
            put_holding(&mut book.open, slot, was, p.dim, inst, held, Ghost(before));
            let t = entry_break_text(e.id.as_str(), err.message().as_str());
            book.breaks.push(t);
            proof {
                assert(texts_view(book.breaks@) =~= b.breaks.push(t@));
            }
            return;
        },
        Ok(()) => {},
    }
    let ghost q1 = held.queue();
    let mut pending: Vec<PendingWash> = Vec::new();
    std::mem::swap(&mut pending, &mut book.pending_wash);
    let matched_result = match_pending_washes(&mut held, &mut pending, p.dim, inst.as_str(), lot.seq, qty, trade_day);
    proof {
        match trade_day {
            Some(day) => { lemma_matched_live(held.order(), q1, b.pending, qty, k, lot.seq, day); },
            None => {},
        }
    }
    match matched_result {
        Err(err) => {
            let t = entry_break_text(e.id.as_str(), err.message().as_str());
            book.breaks.push(t);
            proof {
                assert(texts_view(book.breaks@) =~= b.breaks.push(t@));
            }
        },
        Ok(()) => {},
    }
    book.pending_wash = pending;
    put_holding(&mut book.open, slot, was, p.dim, inst, held, Ghost(before));
    proof {
        assert(pendings_view(book.pending_wash@) == book@.pending);
        if matched_result is Err {
            assert(pendings_view(book.pending_wash@) =~= Seq::<PendingView>::empty());
        }
    }
}

/// Relieve one sale from its holding, as its terms say.
fn relieve_sale(held: &mut Holding, want: i64, e: &JournalEntry, t: &Terms, trade_day: Option<Day>) -> (r: Result<Relief, String>)
    ensures
        ({
            let (res, m1, q1) = sale_outcome(old(held).order(), old(held).queue(), want, e@, *t, trade_day);
            &&& final(held).order() == m1
            &&& final(held).queue() == q1
            &&& match res {
                Ok((taken, cost)) => r matches Ok(rf) && rf.taken@ == taken && rf.cost == cost,
                Err(why) => r matches Err(w) && w@ == why,
            }
        }),
{
    match &e.identified_lots {
        Some(named) => {
            if t.min_tax_short_weight.is_some() {
                Err(String::from_str("this sale names lots for specific identification and its configuration elects min-tax. Two answers for one sale. Drop identified_lots, or drop min_tax_short_weight"))
            } else if t.average_cost == Some(true) {
                Err(String::from_str("this sale names lots for specific identification and its configuration elects average cost. Two answers for one sale. Drop identified_lots, or drop average_cost"))
            } else {
                match held.relieve_spec_id(want, named.as_slice()) {
                    Ok(x) => Ok(x),
                    Err(err) => Err(err.message()),
                }
            }
        },
        None => match t.min_tax_short_weight {
            Some(w) => min_tax_sale(held, e.postings.as_slice(), t, trade_day, want, w),
            None => {
                if t.average_cost == Some(true) {
                    match held.relieve_average_cost(want) {
                        Ok(x) => Ok(x),
                        Err(err) => Err(err.message()),
                    }
                } else {
                    match held.relieve(t.method, want) {
                        Ok(x) => Ok(x),
                        Err(err) => Err(err.message()),
                    }
                }
            },
        },
    }
}

/// Relieve a sale, give up its cost, wash its loss, classify its gain and
/// remember its leftover wash; or name the break.
fn sale(book: &mut LotBook, cost: &mut FoldCost, p: &PostingRecord, inst: &String, qty: i64, e: &JournalEntry, t: &Terms,
    trade_day: Option<Day>, gain_leg: Option<i64>)
    requires
        p.instrument == Some(*inst),
        p.quantity == Some(qty),
        qty < 0,
        qty != i64::MIN,
        p.amount != i64::MIN,
        pending_live(old(book)@.pending),
    ensures
        ({
            let k: HeldKey = (p.dim, inst@);
            let (m, q) = holding_of(old(book)@.open, k);
            final(book)@ == sale_step(old(book)@, k, m, q, p@, e@, *t, trade_day, gain_leg, (-qty) as i64)
        }),
        pending_live(final(book)@.pending),
        final(cost).reliefs == old(cost).reliefs.wrapping_add(1),
{
    let ghost b = book@;
    let ghost before = book.open@;
    let ghost k: HeldKey = (p.dim, inst@);
    let want: i64 = -qty;
    let (slot, was, mut held) = take_holding(&mut book.open, p.dim, inst);
    cost.reliefs = cost.reliefs.wrapping_add(1);
    let relieved = relieve_sale(&mut held, want, e, t, trade_day);
    match relieved {
        Err(why) => {
            put_holding(&mut book.open, slot, was, p.dim, inst, held, Ghost(before));
            let s = not_relieved_text(e.id.as_str(), want, inst.as_str(), why.as_str());
            book.breaks.push(s);
            proof {
                assert(texts_view(book.breaks@) =~= b.breaks.push(s@));
            }
        },
        Ok(r) => {
            let ghost m1 = held.order();
            let ghost q1 = held.queue();
            let posted: i64 = -p.amount;
            if posted != r.cost {
                let s = drift_text(e.id.as_str(), want, inst.as_str(), posted, how_text(e, t), r.cost);
                let ghost bb = book.breaks@;
                book.breaks.push(s);
                proof {
                    assert(texts_view(book.breaks@) =~= texts_view(bb).push(s@));
                }
            }
            add_to_currency(&mut book.relieved, &p.currency, r.cost as i128);
            let washed = try_wash_sale(&mut held, &r, want, gain_leg, trade_day, t);
            let attached: Option<WashMatch> = match washed {
                Ok(w) => w,
                Err(err) => {
                    let s = entry_break_text(e.id.as_str(), err.message().as_str());
                    let ghost bb = book.breaks@;
                    book.breaks.push(s);
                    proof {
                        assert(texts_view(book.breaks@) =~= texts_view(bb).push(s@));
                    }
                    None
                },
            };
            match gain_leg {
                Some(g) => match classify(&r, g, trade_day, t) {
                    Some((st, lt)) => {
                        add_to_currency(&mut book.short_term, &p.currency, st);
                        add_to_currency(&mut book.long_term, &p.currency, lt);
                    },
                    None => {},
                },
                None => {},
            }
            let leftover: Option<PendingWash> = match (attached, trade_day, t.wash_window_days) {
                (Some(w), Some(sold_on), Some(window)) => {
                    if w.remaining_units > 0 && w.remaining_loss < 0 {
                        let original = crate::lots::earliest_of(&r.taken);
                        Some(PendingWash {
                            dim: p.dim,
                            instrument: inst.clone(),
                            window,
                            sold_on,
                            remaining_units: w.remaining_units,
                            remaining_loss: w.remaining_loss,
                            original_acquired: crate::wash::acquired_write(t.wash_keep_holding_period == Some(true), original),
                        })
                    } else {
                        None
                    }
                },
                _ => None,
            };
            put_holding(&mut book.open, slot, was, p.dim, inst, held, Ghost(before));
            match leftover {
                Some(w) => {
                    let ghost pw = book.pending_wash@;
                    book.pending_wash.push(w);
                    proof {
                        assert(pendings_view(book.pending_wash@) =~= pendings_view(pw).push(w@));
                        assert forall|i: int| 0 <= i < pendings_view(book.pending_wash@).len()
                            implies (#[trigger] pendings_view(book.pending_wash@)[i]).remaining_units > 0 by {
                            if i < pw.len() {
                                assert(pendings_view(book.pending_wash@)[i] == pendings_view(pw)[i]);
                            }
                        }
                    }
                },
                None => {},
            }
        },
    }
}

/// Maintain the lot book for one entry: purchases open lots, sales relieve
/// under the method the entry's own configuration named. `at` is the entry's
/// journal position, which is a lot's acquisition ordinal.
pub fn apply_lots(book: &mut LotBook, cost: &mut FoldCost, at: usize, e: &JournalEntry, terms: &Result<Terms, String>,
    trade_day: Option<Day>)
    requires
        pending_live(old(book)@.pending),
        lots_computable(e@, terms_view(*terms)),
    ensures
        final(book)@ == lots_after(old(book)@, e@.postings, e@, terms_view(*terms), trade_day, at as int,
            gain_leg_of(e@.postings, terms_view(*terms))),
        pending_live(final(book)@.pending),
        final(cost).reliefs == reliefs_after(old(cost).reliefs, e@.postings, terms is Ok),
{
    let gain_leg = gain_leg_for(e, terms);
    let ghost ev = e@;
    let ghost tv = terms_view(*terms);
    let ghost b0 = book@;
    let ghost r0 = cost.reliefs;
    let mut i: usize = 0;
    proof {
        assert(ev.postings.take(0) =~= Seq::<PostingView>::empty());
    }
    while i < e.postings.len()
        invariant
            0 <= i <= e.postings@.len(),
            ev == e@,
            tv == terms_view(*terms),
            ev.postings.len() == e.postings@.len(),
            lots_computable(ev, tv),
            gain_leg == gain_leg_of(ev.postings, tv),
            pending_live(book@.pending),
            book@ == lots_after(b0, ev.postings.take(i as int), ev, tv, trade_day, at as int, gain_leg),
            cost.reliefs == reliefs_after(r0, ev.postings.take(i as int), terms is Ok),
        decreases e.postings@.len() - i,
    {
        let p = &e.postings[i];
        proof {
            assert(ev.postings.take(i + 1).drop_last() =~= ev.postings.take(i as int));
            assert(ev.postings.take(i + 1).last() == ev.postings[i as int]);
            assert(ev.postings[i as int] == p@);
            assert(p@.quantity != Some(i64::MIN));
        }
        match (&p.instrument, p.quantity) {
            (Some(inst), Some(qty)) => {
                if qty > 0 {
                    purchase(book, p, inst, qty, e, trade_day, at);
                } else if qty < 0 {
                    proof {
                        assert(is_sale(ev.postings[i as int]));
                    }
                    match terms {
                        Err(why) => {
                            let s = not_relieved_text(e.id.as_str(), -qty, inst.as_str(), method_unknown_text(why).as_str());
                            let ghost bb = book.breaks@;
                            book.breaks.push(s);
                            proof {
                                assert(texts_view(book.breaks@) =~= texts_view(bb).push(s@));
                            }
                        },
                        Ok(t) => {
                            sale(book, cost, p, inst, qty, e, t, trade_day, gain_leg);
                        },
                    }
                }
            },
            _ => {},
        }
        i = i + 1;
    }
    proof {
        assert(ev.postings.take(e.postings@.len() as int) =~= ev.postings);
    }
}

fn method_unknown_text(why: &String) -> (r: String)
    ensures
        r@ == method_unknown(why@),
{
    let mut s = String::from_str("the lot method is not known: ");
    s.append(why.as_str());
    s
}

/// The realized-gain leg an entry's one sale is attributed, where its terms
/// name where a gain lands.
fn gain_leg_for(e: &JournalEntry, terms: &Result<Terms, String>) -> (r: Option<i64>)
    requires
        lots_computable(e@, terms_view(*terms)),
    ensures
        r == gain_leg_of(e@.postings, terms_view(*terms)),
{
    let ghost ps = e@.postings;
    let roles = match terms {
        Ok(t) => match t.roles {
            Some(r) => r,
            None => return None,
        },
        Err(_) => return None,
    };
    let mut sales: usize = 0;
    let mut sum: i64 = 0;
    let mut any = false;
    let mut i: usize = 0;
    proof {
        assert(ps.take(0) =~= Seq::<PostingView>::empty());
    }
    while i < e.postings.len()
        invariant
            0 <= i <= e.postings@.len(),
            ps == e@.postings,
            ps.len() == e.postings@.len(),
            sales == sale_count(ps.take(i as int)),
            sales <= i,
            any == has_leg(ps.take(i as int), roles.realized_gain),
            terms_view(*terms) == Ok::<Terms, Seq<char>>(terms->Ok_0),
            terms->Ok_0.roles == Some(roles),
            lots_computable(e@, terms_view(*terms)),
            sale_count(ps) == 1 && has_leg(ps, roles.realized_gain) ==> sum == leg_sum(ps.take(i as int), roles.realized_gain),
        decreases e.postings@.len() - i,
    {
        let p = &e.postings[i];
        let ghost a = ps.take(i as int);
        let ghost n = ps.take(i + 1);
        proof {
            assert(n.drop_last() =~= a);
            assert(n.last() == ps[i as int]);
            assert(ps[i as int] == p@);
            if has_leg(n, roles.realized_gain) {
                let w = choose|w: int| 0 <= w < n.len() && (#[trigger] n[w]).dim == roles.realized_gain;
                if w < a.len() {
                    assert(a[w] == n[w]);
                }
            }
            if any {
                let w = choose|w: int| 0 <= w < a.len() && (#[trigger] a[w]).dim == roles.realized_gain;
                assert(n[w] == a[w]);
            }
        }
        let selling = match (&p.instrument, p.quantity) {
            (Some(_), Some(q)) => q < 0,
            _ => false,
        };
        if selling {
            sales = sales + 1;
        }
        if p.dim == roles.realized_gain {
            if !any {
                assert(n[i as int].dim == roles.realized_gain);
            }
            any = true;
            proof {
                if sale_count(ps) == 1 && has_leg(ps, roles.realized_gain) {
                    assert(fits(leg_sum(ps.take(i + 1), roles.realized_gain)));
                }
            }
            sum = sum.wrapping_add(p.amount);
        }
        i = i + 1;
    }
    proof {
        assert(ps.take(ps.len() as int) =~= ps);
    }
    if sales == 1 && any {
        Some(sum)
    } else {
        None
    }
}

/// Whether an entry can be applied to a lot book under its terms without a
/// figure leaving 64 bits where nothing checks it.
pub fn entry_computable(e: &JournalEntry, terms: &Result<Terms, String>) -> (r: bool)
    ensures
        r == lots_computable(e@, terms_view(*terms)),
{
    let ghost ps = e@.postings;
    let mut i: usize = 0;
    while i < e.postings.len()
        invariant
            0 <= i <= e.postings@.len(),
            ps == e@.postings,
            ps.len() == e.postings@.len(),
            forall|j: int| 0 <= j < i ==> (#[trigger] ps[j]).quantity != Some(i64::MIN),
            forall|j: int| 0 <= j < i && is_sale(#[trigger] ps[j]) ==> ps[j].amount != i64::MIN,
        decreases e.postings@.len() - i,
    {
        let p = &e.postings[i];
        assert(ps[i as int] == p@);
        if p.quantity == Some(i64::MIN) {
            return false;
        }
        let selling = match (&p.instrument, p.quantity) {
            (Some(_), Some(q)) => q < 0,
            _ => false,
        };
        if selling && p.amount == i64::MIN {
            return false;
        }
        i = i + 1;
    }
    let roles = match terms {
        Ok(t) => match t.roles {
            Some(r) => r,
            None => return true,
        },
        Err(_) => return true,
    };
    let d = roles.realized_gain;
    let mut sales: usize = 0;
    let mut any = false;
    let mut j: usize = 0;
    proof { assert(ps.take(0) =~= Seq::<PostingView>::empty()); }
    while j < e.postings.len()
        invariant
            0 <= j <= e.postings@.len(),
            ps == e@.postings,
            ps.len() == e.postings@.len(),
            sales == sale_count(ps.take(j as int)),
            sales <= j,
            any == has_leg(ps.take(j as int), d),
        decreases e.postings@.len() - j,
    {
        let p = &e.postings[j];
        let ghost a = ps.take(j as int);
        let ghost n = ps.take(j + 1);
        proof {
            assert(n.drop_last() =~= a);
            assert(n.last() == ps[j as int]);
            assert(ps[j as int] == p@);
            if has_leg(n, d) {
                let w = choose|w: int| 0 <= w < n.len() && (#[trigger] n[w]).dim == d;
                if w < a.len() {
                    assert(a[w] == n[w]);
                }
            }
            if any {
                let w = choose|w: int| 0 <= w < a.len() && (#[trigger] a[w]).dim == d;
                assert(n[w] == a[w]);
            }
        }
        let selling = match (&p.instrument, p.quantity) {
            (Some(_), Some(q)) => q < 0,
            _ => false,
        };
        if selling {
            sales = sales + 1;
        }
        if p.dim == d {
            assert(n[j as int].dim == d);
            any = true;
        }
        j = j + 1;
    }
    proof { assert(ps.take(ps.len() as int) =~= ps); }
    if !(sales == 1 && any) {
        return true;
    }
    let mut sum: i64 = 0;
    let mut k: usize = 0;
    proof { assert(ps.take(0) =~= Seq::<PostingView>::empty()); }
    while k < e.postings.len()
        invariant
            0 <= k <= e.postings@.len(),
            ps == e@.postings,
            ps.len() == e.postings@.len(),
            sum == leg_sum(ps.take(k as int), d),
            forall|x: int| 0 <= x <= k ==> fits(#[trigger] leg_sum(ps.take(x), d)),
            sale_count(ps) == 1 && has_leg(ps, d),
            terms is Ok,
            terms->Ok_0.roles == Some(roles),
            d == roles.realized_gain,
        decreases e.postings@.len() - k,
    {
        let p = &e.postings[k];
        proof {
            assert(ps.take(k + 1).drop_last() =~= ps.take(k as int));
            assert(ps.take(k + 1).last() == ps[k as int]);
            assert(ps[k as int] == p@);
        }
        if p.dim == d {
            sum = match sum.checked_add(p.amount) {
                Some(v) => v,
                None => {
                    assert(!fits(leg_sum(ps.take(k + 1), d)));
                    assert(!legs_fit(ps, d));
                    return false;
                },
            };
        }
        k = k + 1;
    }
    proof { assert(ps.take(ps.len() as int) =~= ps); }
    true
}

} // verus!
