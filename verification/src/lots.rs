//! What a fold does with one sale's lots: split its gain by holding period,
//! wash its loss against open replacements, rank its lots by tax at the sale
//! price, and match a leftover wash against a later purchase.
//!
//! The gain follows the proceeds, not the cost: lots relieved by one sale
//! share its proceeds in proportion to their units while each keeps its own
//! basis, and a disposal whose proceeds do not divide exactly across its lots
//! is left wholly unclassified rather than rounded between two tax rates.

use vstd::prelude::*;
use crate::checked::fits;
use crate::project::Terms;
use crate::relief::{Day, Lot, Method, Relief, ReliefError, Taken, taken_cost, relief_message, relieve_min_tax_spec};
use crate::checked::{Overflow, overflow_message};
use crate::holding::{Holding, drawn_relief};
use crate::order::{Order, arranged};
use crate::wash::{WashMatch, wash_open, wash_open_spec, wash_purchase, wash_purchase_spec, in_wash_window, in_window};
use crate::chart::{PostingRecord, PostingView, postings_view};

verus! {

/// The units a run of taken lots gave up.
pub open spec fn units_total(t: Seq<Taken>) -> int
    decreases t.len(),
{
    if t.len() == 0 { 0 } else { units_total(t.drop_last()) + t.last().units }
}

/// The cost a run of taken lots gave up, last lot last.
pub open spec fn cost_total(t: Seq<Taken>) -> int
    decreases t.len(),
{
    if t.len() == 0 { 0 } else { cost_total(t.drop_last()) + t.last().cost }
}

/// One lot's share of a disposal's gain, as (short-term, long-term): its
/// cost less its units' share of the proceeds, on the side its holding period
/// puts it; or nothing where the share does not divide, the lot is undated, or
/// a figure does not fit in 64 bits.
pub open spec fn lot_split(t: Taken, proceeds: int, units: int, day: int, threshold: int) -> Option<(int, int)> {
    let scaled = proceeds * t.units;
    if !fits(scaled) || scaled % units != 0 || t.acquired is None {
        None
    } else {
        let share = t.cost - scaled / units;
        if !fits(share) {
            None
        } else if day - t.acquired.unwrap() >= threshold {
            Some((0, share))
        } else {
            Some((share, 0))
        }
    }
}

/// The lots' shares added up, or nothing if any lot declines.
pub open spec fn splits(taken: Seq<Taken>, proceeds: int, units: int, day: int, threshold: int) -> Option<(int, int)>
    decreases taken.len(),
{
    if taken.len() == 0 {
        Some((0, 0))
    } else {
        match (splits(taken.drop_last(), proceeds, units, day, threshold), lot_split(taken.last(), proceeds, units, day, threshold)) {
            (Some(a), Some(b)) => Some((a.0 + b.0, a.1 + b.1)),
            _ => None,
        }
    }
}

/// One disposal's gain split into (short-term, long-term), or declined: the
/// proceeds are the cost less the gain leg, and the split needs a disposal
/// day and units to share them over.
pub open spec fn classified(taken: Seq<Taken>, cost: i64, gain: i64, disposed_on: Option<Day>, threshold: i64) -> Option<(int, int)> {
    let proceeds = cost - gain;
    if !fits(proceeds) {
        None
    } else {
        match disposed_on {
            None => None,
            Some(day) => {
                let units = units_total(taken);
                if !units_countable(taken) || units <= 0 { None } else { splits(taken, proceeds, units, day as int, threshold as int) }
            },
        }
    }
}

/// Whether every running total of a relief's units fits in 64 bits.
pub open spec fn units_countable(taken: Seq<Taken>) -> bool {
    forall|k: int| 0 <= k <= taken.len() ==> fits(#[trigger] units_total(taken.take(k)))
}

/// Split one disposal's gain into (short-term, long-term), or decline.
pub fn classify(r: &Relief, gain: i64, disposed_on: Option<Day>, terms: &Terms) -> (c: Option<(i128, i128)>)
    ensures
        match c {
            Some((s, l)) => classified(r.taken@, r.cost, gain, disposed_on, terms.long_term_days) == Some((s as int, l as int)),
            None => classified(r.taken@, r.cost, gain, disposed_on, terms.long_term_days) is None,
        },
{
    let proceeds = match crate::checked::sub(r.cost, gain, "proceeds") {
        Ok(p) => p,
        Err(_) => return None,
    };
    let day: i64 = match disposed_on {
        Some(d) => d as i64,
        None => return None,
    };
    let t = &r.taken;
    let mut units: i64 = 0;
    let mut i: usize = 0;
    assert(t@.take(0) =~= Seq::<Taken>::empty());
    while i < t.len()
        invariant
            0 <= i <= t@.len(),
            units == units_total(t@.take(i as int)),
            t@ == r.taken@,
            forall|k: int| 0 <= k <= i ==> fits(#[trigger] units_total(t@.take(k))),
        decreases t@.len() - i,
    {
        assert(t@.take(i + 1).drop_last() =~= t@.take(i as int));
        units = match crate::checked::add(units, t[i].units, "the units a relief gave up") {
            Ok(u) => u,
            Err(_) => {
                assert(!fits(units_total(t@.take(i + 1))));
                assert(!units_countable(r.taken@));
                return None;
            },
        };
        i = i + 1;
    }
    assert(t@.take(t@.len() as int) =~= t@);
    assert(units_countable(t@));
    if units <= 0 {
        return None;
    }
    let mut short: i128 = 0;
    let mut long: i128 = 0;
    let mut j: usize = 0;
    assert(t@.take(0) =~= Seq::<Taken>::empty());
    while j < t.len()
        invariant
            0 <= j <= t@.len(),
            units > 0,
            units == units_total(t@),
            fits(proceeds as int),
            t@ == r.taken@,
            proceeds == r.cost - gain,
            disposed_on is Some && disposed_on.unwrap() as i64 == day,
            i32::MIN <= day <= i32::MAX,
            splits(t@.take(j as int), proceeds as int, units as int, day as int, terms.long_term_days as int) == Some((short as int, long as int)),
            -(j as int) * 0x8000_0000_0000_0000 <= short <= (j as int) * 0x8000_0000_0000_0000,
            -(j as int) * 0x8000_0000_0000_0000 <= long <= (j as int) * 0x8000_0000_0000_0000,
        decreases t@.len() - j,
    {
        let x = &t[j];
        proof {
            assert(t@.take(j + 1).drop_last() =~= t@.take(j as int));
            assert(t@.take(j + 1).last() == *x);
            assert((j as int) * 0x8000_0000_0000_0000 + 0x8000_0000_0000_0000 < 0x8000_0000_0000_0000_0000_0000_0000_0000) by (nonlinear_arith)
                requires
                    j < usize::MAX,
                    usize::MAX <= 0xffff_ffff_ffff_ffff,
            ;
        }
        let scaled = match crate::checked::mul(proceeds, x.units, "proceeds pro rata") {
            Ok(v) => v,
            Err(_) => {
                proof { lemma_splits_decline(t@, proceeds as int, units as int, day as int, terms.long_term_days as int, j as int); }
                return None;
            },
        };
        if scaled.checked_rem_euclid(units) != Some(0i64) {
            proof {
                lemma_splits_decline(t@, proceeds as int, units as int, day as int, terms.long_term_days as int, j as int);
            }
            return None;
        }
        proof {
            assert(((scaled as int) / (units as int)) * units == scaled) by (nonlinear_arith)
                requires units > 0, (scaled as int) % (units as int) == 0;
            assert(i64::MIN <= (scaled as int) / (units as int) <= i64::MAX) by (nonlinear_arith)
                requires ((scaled as int) / (units as int)) * units == scaled, units >= 1, i64::MIN <= scaled <= i64::MAX;
        }
        let part: i64 = match scaled.checked_div_euclid(units) {
            Some(q) => q,
            None => return None,
        };
        let acquired: i64 = match x.acquired {
            Some(a) => a as i64,
            None => {
                proof { lemma_splits_decline(t@, proceeds as int, units as int, day as int, terms.long_term_days as int, j as int); }
                return None;
            },
        };
        let share = match crate::checked::sub(x.cost, part, "a lot's gain") {
            Ok(v) => v,
            Err(_) => {
                proof { lemma_splits_decline(t@, proceeds as int, units as int, day as int, terms.long_term_days as int, j as int); }
                return None;
            },
        };
        if day - acquired >= terms.long_term_days {
            long = long + share as i128;
        } else {
            short = short + share as i128;
        }
        j = j + 1;
    }
    assert(t@.take(t@.len() as int) =~= t@);
    Some((short, long))
}

/// A lot that declines declines the whole disposal.
proof fn lemma_splits_decline(t: Seq<Taken>, proceeds: int, units: int, day: int, threshold: int, j: int)
    requires
        0 <= j < t.len(),
        lot_split(t[j], proceeds, units, day, threshold) is None,
    ensures
        splits(t, proceeds, units, day, threshold) is None,
    decreases t.len() - j,
{
    if j == t.len() - 1 {
        assert(t.last() == t[j]);
    } else {
        lemma_splits_decline(t.drop_last(), proceeds, units, day, threshold, j);
    }
}

proof fn lemma_taken_cost_push(t: Seq<Taken>, x: Taken)
    ensures
        taken_cost(t.push(x)) == taken_cost(t) + x.cost,
    decreases t.len(),
{
    if t.len() > 0 {
        lemma_taken_cost_push(t.drop_first(), x);
        assert(t.push(x).drop_first() =~= t.drop_first().push(x));
        assert(t.push(x)[0] == t[0]);
        assert(taken_cost(t.push(x)) == t[0].cost + taken_cost(t.drop_first().push(x)));
        assert(taken_cost(t) == t[0].cost + taken_cost(t.drop_first()));
    } else {
        assert(t.push(x).drop_first() =~= Seq::<Taken>::empty());
        assert(t.push(x)[0] == x);
        assert(taken_cost(t.push(x)) == x.cost + taken_cost(t.push(x).drop_first()));
    }
}

/// The two running totals of a run of lots agree.
proof fn lemma_cost_totals_agree(t: Seq<Taken>)
    ensures
        cost_total(t) == taken_cost(t),
    decreases t.len(),
{
    if t.len() > 0 {
        lemma_cost_totals_agree(t.drop_last());
        lemma_taken_cost_push(t.drop_last(), t.last());
        assert(t.drop_last().push(t.last()) =~= t);
    }
}

/// The shares, scaled by the units they are shared over, are the cost less
/// the proceeds' share of what was taken.
proof fn lemma_splits_scaled(t: Seq<Taken>, proceeds: int, units: int, day: int, threshold: int)
    requires
        units > 0,
        splits(t, proceeds, units, day, threshold) is Some,
    ensures
        ({
            let (a, b) = splits(t, proceeds, units, day, threshold)->Some_0;
            (a + b) * units == cost_total(t) * units - proceeds * units_total(t)
        }),
    decreases t.len(),
{
    if t.len() > 0 {
        let p = t.drop_last();
        let x = t.last();
        lemma_splits_scaled(p, proceeds, units, day, threshold);
        let (a, b) = splits(p, proceeds, units, day, threshold)->Some_0;
        let scaled = proceeds * x.units;
        let share = x.cost - scaled / units;
        assert(scaled % units == 0);
        assert((scaled / units) * units == scaled) by (nonlinear_arith)
            requires
                units > 0,
                scaled % units == 0,
        ;
        assert((a + b + share) * units == (a + b) * units + x.cost * units - scaled) by (nonlinear_arith)
            requires
                share == x.cost - scaled / units,
                (scaled / units) * units == scaled,
        ;
        assert(cost_total(t) * units == cost_total(p) * units + x.cost * units) by (nonlinear_arith)
            requires
                cost_total(t) == cost_total(p) + x.cost,
        ;
        assert(proceeds * units_total(t) == proceeds * units_total(p) + scaled) by (nonlinear_arith)
            requires
                units_total(t) == units_total(p) + x.units,
                scaled == proceeds * x.units,
        ;
    }
}

/// The short-term and long-term parts of a classified disposal add up to its
/// gain: splitting by holding period loses no minor unit and invents none.
pub proof fn law_classified_parts_sum_to_the_gain(taken: Seq<Taken>, cost: i64, gain: i64, disposed_on: Option<Day>, threshold: i64)
    requires
        cost == taken_cost(taken),
        classified(taken, cost, gain, disposed_on, threshold) is Some,
    ensures
        ({
            let (s, l) = classified(taken, cost, gain, disposed_on, threshold)->Some_0;
            s + l == gain
        }),
{
    let proceeds = cost - gain;
    let day = disposed_on.unwrap();
    let units = units_total(taken);
    lemma_splits_scaled(taken, proceeds, units, day as int, threshold as int);
    lemma_cost_totals_agree(taken);
    let (a, b) = splits(taken, proceeds, units, day as int, threshold as int)->Some_0;
    assert((a + b) * units == (cost - proceeds) * units) by (nonlinear_arith)
        requires
            (a + b) * units == cost_total(taken) * units - proceeds * units,
            cost_total(taken) == cost,
    ;
    assert(a + b == cost - proceeds) by (nonlinear_arith)
        requires
            (a + b) * units == (cost - proceeds) * units,
            units > 0,
    ;
}

// ---------------------------------------------------------------- washing

/// The earliest acquisition among the lots a sale took, if any carries one.
pub open spec fn earliest(t: Seq<Taken>) -> Option<Day>
    decreases t.len(),
{
    if t.len() == 0 {
        None
    } else {
        match (earliest(t.drop_last()), t.last().acquired) {
            (None, a) => a,
            (Some(p), None) => Some(p),
            (Some(p), Some(q)) => Some(if q < p { q } else { p }),
        }
    }
}

pub(crate) fn earliest_of(t: &Vec<Taken>) -> (r: Option<Day>)
    ensures
        r == earliest(t@),
{
    let mut best: Option<Day> = None;
    let mut i: usize = 0;
    assert(t@.take(0) =~= Seq::<Taken>::empty());
    while i < t.len()
        invariant
            0 <= i <= t@.len(),
            best == earliest(t@.take(i as int)),
        decreases t@.len() - i,
    {
        assert(t@.take(i + 1).drop_last() =~= t@.take(i as int));
        assert(t@.take(i + 1).last() == t@[i as int]);
        best = match (best, t[i].acquired) {
            (None, a) => a,
            (Some(p), None) => Some(p),
            (Some(p), Some(q)) => Some(if q < p { q } else { p }),
        };
        i = i + 1;
    }
    assert(t@.take(t@.len() as int) =~= t@);
    best
}

/// What washing a sale's loss against the lots still open does: nothing
/// without a window, a gain leg or a sale day, or where the sale made no loss;
/// otherwise the wash against the open lots, the written date being the
/// earliest the sale gave up unless the replacement keeps its own.
pub open spec fn wash_sale_result(order: Method, q: Seq<Lot>, taken: Seq<Taken>, sold_units: i64, gain_leg: Option<i64>,
    sale_day: Option<Day>, terms: Terms) -> (Result<Option<WashMatch>, ReliefError>, Seq<Lot>) {
    match (terms.wash_window_days, gain_leg, sale_day) {
        (Some(window), Some(g), Some(day)) =>
            if g == i64::MIN {
                (Err(ReliefError::Overflow(Overflow { what: "the realized loss" })), q)
            } else if -g >= 0 {
                (Ok(None), q)
            } else {
                let write = if terms.wash_keep_holding_period == Some(true) { None } else { earliest(taken) };
                let (w, fq) = wash_open_spec(order, q, (-g) as i64, sold_units, day, window, write, taken);
                (match w { Ok(m) => Ok(Some(m)), Err(e) => Err(e) }, fq)
            },
        _ => (Ok(None), q),
    }
}

/// Wash a sale's loss against the replacements still open in its holding.
pub fn try_wash_sale(held: &mut Holding, r: &Relief, sold_units: i64, gain_leg: Option<i64>, sale_day: Option<Day>,
    terms: &Terms) -> (res: Result<Option<WashMatch>, ReliefError>)
    ensures
        final(held).order() == old(held).order(),
        (res, final(held).queue()) == wash_sale_result(old(held).order(), old(held).queue(), r.taken@, sold_units,
            gain_leg, sale_day, *terms),
{
    let window = match terms.wash_window_days {
        Some(w) => w,
        None => return Ok(None),
    };
    let g = match gain_leg {
        Some(g) => g,
        None => return Ok(None),
    };
    let day = match sale_day {
        Some(d) => d,
        None => return Ok(None),
    };
    let loss = match crate::checked::neg(g, "the realized loss") {
        Ok(l) => l,
        Err(o) => return Err(ReliefError::Overflow(o)),
    };
    if loss >= 0 {
        return Ok(None);
    }
    let original = earliest_of(&r.taken);
    let write = crate::wash::acquired_write(terms.wash_keep_holding_period == Some(true), original);
    match wash_open(held, loss, sold_units, day, window, write, r.taken.as_slice()) {
        Ok(m) => Ok(Some(m)),
        Err(e) => Err(e),
    }
}

// ---------------------------------------------------------------- min-tax

/// The cash a sale's entry posts, in posting order.
pub open spec fn cash_of(ps: Seq<PostingView>, cash: i64) -> Seq<i64>
    decreases ps.len(),
{
    if ps.len() == 0 {
        Seq::empty()
    } else if ps.last().dim == cash {
        cash_of(ps.drop_last(), cash).push(ps.last().amount)
    } else {
        cash_of(ps.drop_last(), cash)
    }
}

/// Amounts added up left to right in 64 bits: the total, or the first
/// overflow.
pub open spec fn checked_total(xs: Seq<i64>, what: &'static str) -> Result<i64, Overflow>
    decreases xs.len(),
{
    if xs.len() == 0 {
        Ok(0)
    } else {
        match checked_total(xs.drop_last(), what) {
            Err(o) => Err(o),
            Ok(t) => crate::checked::checked(t + xs.last(), what),
        }
    }
}

/// Why min-tax relief cannot read a price from a sale, when it cannot.
pub open spec fn min_tax_price(ps: Seq<PostingView>, terms: Terms, trade_day: Option<Day>, want: i64) -> Result<i64, Seq<char>> {
    if trade_day is None {
        Err("min-tax relief needs the sale's trade date to classify lots short or long, and this entry has none — assuming today or the epoch would pick a rate the records do not support"@)
    } else {
        match terms.roles {
            None => Err("min-tax relief needs the sale PRICE, which is the cash posting, and this configuration names no chart roles — there is no cash dimension to read a price from"@),
            Some(roles) => {
                let cash = cash_of(ps, roles.cash);
                if cash.len() == 0 {
                    Err("min-tax relief needs the sale PRICE and this entry has no cash posting — a ranking without a price is a sort, and min-tax relief is not a sort"@)
                } else {
                    match checked_total(cash, "the sale's proceeds") {
                        Err(o) => Err(overflow_message(o.what@)),
                        Ok(proceeds) => {
                            if want <= 0 {
                                Err(relief_message(ReliefError::NotAPrice { want }))
                            } else if proceeds % want != 0 {
                                Err(relief_message(ReliefError::PriceIndivisible { want, proceeds }))
                            } else {
                                Ok((proceeds / want) as i64)
                            }
                        },
                    }
                }
            },
        }
    }
}

fn checked_cash_total(ps: &[PostingRecord], cash: i64) -> (r: (usize, Result<i64, Overflow>))
    ensures
        r.0 == cash_of(postings_view(ps@), cash).len(),
        r.1 == checked_total(cash_of(postings_view(ps@), cash), "the sale's proceeds"),
{
    let ghost pv = postings_view(ps@);
    let mut n: usize = 0;
    let mut total: Result<i64, Overflow> = Ok(0);
    let mut i: usize = 0;
    assert(pv.take(0) =~= Seq::<PostingView>::empty());
    while i < ps.len()
        invariant
            0 <= i <= ps@.len(),
            pv == postings_view(ps@),
            n == cash_of(pv.take(i as int), cash).len(),
            n <= i,
            total == checked_total(cash_of(pv.take(i as int), cash), "the sale's proceeds"),
        decreases ps@.len() - i,
    {
        assert(pv.take(i + 1).drop_last() =~= pv.take(i as int));
        assert(pv.take(i + 1).last() == ps@[i as int]@);
        if ps[i].dim == cash {
            let ghost c = cash_of(pv.take(i as int), cash);
            assert(c.push(ps@[i as int].amount).drop_last() =~= c);
            total = match total {
                Err(o) => Err(o),
                Ok(t) => crate::checked::add(t, ps[i].amount, "the sale's proceeds"),
            };
            n = n + 1;
        }
        i = i + 1;
    }
    assert(pv.take(ps@.len() as int) =~= pv);
    (n, total)
}

/// Relieve a sale by min-tax: rank the lots by the tax each would realize at
/// the sale's price per unit, read off its cash postings.
pub fn min_tax_sale(held: &mut Holding, postings: &[PostingRecord], terms: &Terms, trade_day: Option<Day>, want: i64,
    short_weight: i64) -> (r: Result<Relief, String>)
    ensures
        final(held).order() == old(held).order(),
        match min_tax_price(postings_view(postings@), *terms, trade_day, want) {
            Err(why) => r matches Err(e) && e@ == why && final(held).queue() == old(held).queue(),
            Ok(price) => {
                let drained = arranged(Order::By(Method::Fifo), old(held).queue());
                let w = relieve_min_tax_spec(drained, want, price, short_weight, terms.long_term_days, trade_day.unwrap());
                let rr: Result<Relief, ReliefError> = match r { Ok(x) => Ok(x), Err(_) => Err(w->Err_0) };
                &&& drawn_relief(rr, w, old(held).order(), drained, final(held).queue())
                &&& (r matches Err(e) ==> w is Err && e@ == relief_message(w->Err_0))
                &&& (r is Ok ==> w is Ok)
            },
        },
{
    let day = match trade_day {
        Some(d) => d,
        None => return Err(String::from_str("min-tax relief needs the sale's trade date to classify lots short or long, and this entry has none — assuming today or the epoch would pick a rate the records do not support")),
    };
    let roles = match terms.roles {
        Some(r) => r,
        None => return Err(String::from_str("min-tax relief needs the sale PRICE, which is the cash posting, and this configuration names no chart roles — there is no cash dimension to read a price from")),
    };
    let (n, total) = checked_cash_total(postings, roles.cash);
    if n == 0 {
        return Err(String::from_str("min-tax relief needs the sale PRICE and this entry has no cash posting — a ranking without a price is a sort, and min-tax relief is not a sort"));
    }
    let proceeds = match total {
        Ok(p) => p,
        Err(o) => return Err(o.message()),
    };
    let price = match crate::relief::unit_price(proceeds, want) {
        Ok(p) => p,
        Err(e) => return Err(e.message()),
    };
    match held.relieve_min_tax(want, price, short_weight, terms.long_term_days, day) {
        Ok(x) => Ok(x),
        Err(e) => Err(e.message()),
    }
}

// ----------------------------------------------------------- pending washes

/// A sale's leftover wash, waiting for a replacement to open. Window and
/// terms are the sale's, pinned by the configuration its entry named.
#[derive(Debug, PartialEq, Eq)]
pub struct PendingWash {
    /// The position: a dimension and an instrument.
    pub dim: i64,
    pub instrument: String,
    pub window: i64,
    pub sold_on: Day,
    pub remaining_units: i64,
    pub remaining_loss: i64,
    pub original_acquired: Option<Day>,
}

/// A pending wash as a value.
pub struct PendingView {
    pub key: (i64, Seq<char>),
    pub window: i64,
    pub sold_on: Day,
    pub remaining_units: i64,
    pub remaining_loss: i64,
    pub original_acquired: Option<Day>,
}

impl vstd::view::View for PendingWash {
    type V = PendingView;

    open spec fn view(&self) -> PendingView {
        PendingView {
            key: (self.dim, self.instrument@),
            window: self.window,
            sold_on: self.sold_on,
            remaining_units: self.remaining_units,
            remaining_loss: self.remaining_loss,
            original_acquired: self.original_acquired,
        }
    }
}

/// Pending washes, each taken as a value.
pub open spec fn pendings_view(s: Seq<PendingWash>) -> Seq<PendingView> {
    s.map_values(|w: PendingWash| w@)
}

/// One pending wash met by a purchase: passed over when it is another
/// position's, the purchase is used up, or the purchase falls outside its
/// window; otherwise washed against the new lot, and kept while units and a
/// loss remain.
pub open spec fn match_step(order: Method, q: Seq<Lot>, units_left: i64, w: PendingView, key: (i64, Seq<char>),
    seq: u64, buy_day: Day) -> (Result<(i64, Option<PendingView>), ReliefError>, Seq<Lot>) {
    if w.key != key || units_left <= 0 || !in_window(w.window as int, w.sold_on as int, buy_day as int) {
        (Ok((units_left, Some(w))), q)
    } else {
        let (r, fq) = wash_purchase_spec(order, q, seq, units_left, w.remaining_loss, w.remaining_units, w.original_acquired);
        match r {
            Err(e) => (Err(e), fq),
            Ok((_, ru, rl)) => {
                let left = (units_left - (w.remaining_units - ru)) as i64;
                (Ok((left, if ru > 0 && rl < 0 {
                    Some(PendingView { remaining_units: ru, remaining_loss: rl, ..w })
                } else {
                    None
                })), fq)
            },
        }
    }
}

/// Pending washes met in order by one purchase: the washes still pending, or
/// the first refusal, which leaves none pending.
pub open spec fn matched(order: Method, q: Seq<Lot>, pending: Seq<PendingView>, units_left: i64, key: (i64, Seq<char>),
    seq: u64, buy_day: Day) -> (Result<Seq<PendingView>, ReliefError>, Seq<Lot>)
    decreases pending.len(),
{
    if pending.len() == 0 {
        (Ok(Seq::empty()), q)
    } else {
        let (r, fq) = match_step(order, q, units_left, pending[0], key, seq, buy_day);
        match r {
            Err(e) => (Err(e), fq),
            Ok((left, kept)) => {
                let (rest, fq2) = matched(order, fq, pending.drop_first(), left, key, seq, buy_day);
                (match rest {
                    Err(e) => Err(e),
                    Ok(tail) => Ok(match kept { Some(k) => seq![k] + tail, None => tail }),
                }, fq2)
            },
        }
    }
}

/// Whether every pending wash still has units to match.
pub open spec fn pending_live(p: Seq<PendingView>) -> bool {
    forall|i: int| 0 <= i < p.len() ==> (#[trigger] p[i]).remaining_units > 0
}

/// Match a newly opened lot against the leftover washes of earlier sales of
/// the same position whose windows reach its purchase day. A refusal leaves
/// nothing pending.
pub fn match_pending_washes(held: &mut Holding, pending: &mut Vec<PendingWash>, dim: i64, instrument: &str, replacement_seq: u64,
    bought_units: i64, buy_day: Option<Day>) -> (r: Result<(), ReliefError>)
    requires
        pending_live(pendings_view(old(pending)@)),
        bought_units >= 0,
    ensures
        final(held).order() == old(held).order(),
        match buy_day {
            None => r is Ok && final(held).queue() == old(held).queue() && final(pending)@ == old(pending)@,
            Some(day) => {
                let (m, fq) = matched(old(held).order(), old(held).queue(), pendings_view(old(pending)@), bought_units,
                    (dim, instrument@), replacement_seq, day);
                &&& final(held).queue() == fq
                &&& match m {
                    Ok(left) => r is Ok && pendings_view(final(pending)@) == left,
                    Err(e) => r == Err::<(), ReliefError>(e) && final(pending)@.len() == 0,
                }
            },
        },
{
    let day = match buy_day {
        Some(d) => d,
        None => return Ok(()),
    };
    let ghost k = (dim, instrument@);
    let ghost order = held.order();
    let ghost q0 = held.queue();
    let ghost p0 = pendings_view(pending@);
    let ghost all = *pending;
    let mut leftover: Vec<PendingWash> = Vec::new();
    let mut units_left: i64 = bought_units;
    let mut i: usize = 0;
    let n = pending.len();
    proof {
        assert(p0.skip(0) =~= p0);
        let (rest, fq) = matched(order, q0, p0, bought_units, k, replacement_seq, day);
        match rest {
            Ok(tail) => { assert(pendings_view(leftover@) + tail =~= tail); },
            Err(_) => {},
        }
    }
    while i < n
        invariant
            0 <= i <= n,
            n == pending@.len(),
            pending@ == all@,
            all@ == old(pending)@,
            q0 == old(held).queue(),
            order == old(held).order(),
            buy_day == Some(day),
            k == (dim, instrument@),
            p0 == pendings_view(all@),
            pending_live(p0),
            units_left >= 0,
            held.order() == order,
            matched(order, q0, p0, bought_units, k, replacement_seq, day) == ({
                let (rest, fq) = matched(order, held.queue(), p0.skip(i as int), units_left, k, replacement_seq, day);
                (match rest { Err(e) => Err(e), Ok(tail) => Ok(pendings_view(leftover@) + tail) }, fq)
            }),
        decreases n - i,
    {
        let w = &pending[i];
        let ghost wv = p0[i as int];
        assert(wv == w@);
        proof {
            assert(p0.skip(i as int).drop_first() =~= p0.skip(i + 1));
            assert(p0.skip(i as int)[0] == wv);
        }
        let named = crate::text::str_eq(w.instrument.as_str(), instrument);
        let same = w.dim == dim && named;
        assert(wv.key.0 == w.dim && wv.key.1 == w.instrument@);
        assert(named == (w.instrument@ == instrument@));
        assert(same == (wv.key.0 == k.0 && wv.key.1 == k.1));
        assert(same == (wv.key == k));
        if !same || units_left <= 0 || !in_wash_window(w.window, w.sold_on, day) {
            let ghost before = leftover@;
            leftover.push(PendingWash {
                dim: w.dim,
                instrument: w.instrument.clone(),
                window: w.window,
                sold_on: w.sold_on,
                remaining_units: w.remaining_units,
                remaining_loss: w.remaining_loss,
                original_acquired: w.original_acquired,
            });
            proof {
                assert(pendings_view(leftover@) =~= pendings_view(before).push(wv));
                assert(pendings_view(before).push(wv) + matched(order, held.queue(), p0.skip(i + 1), units_left, k, replacement_seq, day).0->Ok_0
                    =~= pendings_view(before) + (seq![wv] + matched(order, held.queue(), p0.skip(i + 1), units_left, k, replacement_seq, day).0->Ok_0));
            }
        } else {
            let ghost hq = held.queue();
            match wash_purchase(held, replacement_seq, units_left, w.remaining_loss, w.remaining_units, w.original_acquired) {
                Err(e) => {
                    assert(match_step(order, hq, units_left, wv, k, replacement_seq, day) == (Err::<(i64, Option<PendingView>), ReliefError>(e), held.queue()));
                    assert(matched(order, hq, p0.skip(i as int), units_left, k, replacement_seq, day) == (Err::<Seq<PendingView>, ReliefError>(e), held.queue()));
                    pending.clear();
                    return Err(e);
                },
                Ok((_, ru, rl)) => {
                    assert(0 <= ru <= w.remaining_units);
                    assert(w.remaining_units - ru <= units_left);
                    units_left = units_left - (w.remaining_units - ru);
                    if ru > 0 && rl < 0 {
                        let ghost before = leftover@;
                        leftover.push(PendingWash {
                            dim: w.dim,
                            instrument: w.instrument.clone(),
                            window: w.window,
                            sold_on: w.sold_on,
                            remaining_units: ru,
                            remaining_loss: rl,
                            original_acquired: w.original_acquired,
                        });
                        proof {
                            let kept = PendingView { remaining_units: ru, remaining_loss: rl, ..wv };
                            assert(pendings_view(leftover@) =~= pendings_view(before).push(kept));
                            assert(pendings_view(before).push(kept) + matched(order, held.queue(), p0.skip(i + 1), units_left, k, replacement_seq, day).0->Ok_0
                                =~= pendings_view(before) + (seq![kept] + matched(order, held.queue(), p0.skip(i + 1), units_left, k, replacement_seq, day).0->Ok_0));
                        }
                    }
                },
            }
        }
        i = i + 1;
    }
    proof {
        assert(p0.skip(n as int) =~= Seq::<PendingView>::empty());
        assert(pendings_view(leftover@) + Seq::<PendingView>::empty() =~= pendings_view(leftover@));
    }
    *pending = leftover;
    Ok(())
}

} // verus!
