//! Relieving tax lots: which lots a sale gives up, and at what cost.
//!
//! Every failure guarded against here leaves the books tying: a husk (a lot
//! holding nothing and carrying cost) hands its basis to a sale that received
//! no units for it, a partial relief that rounds gives up the wrong basis by a
//! minor unit, and an unsorted holding makes "FIFO" mean whatever order the
//! storage returned. In all three the entry balances and only the realized gain
//! is wrong — the figure nobody reconciles because it has no counterparty.

use vstd::prelude::*;
use crate::checked::{self, Overflow, fits};

verus! {

/// A copy of a run of lots, as a vector.
pub(crate) fn copy_lots(lots: &[Lot]) -> (r: Vec<Lot>)
    ensures
        r@ == lots@,
{
    let mut out: Vec<Lot> = Vec::new();
    let mut i: usize = 0;
    while i < lots.len()
        invariant
            0 <= i <= lots@.len(),
            out@ == lots@.take(i as int),
        decreases lots@.len() - i,
    {
        out.push(lots[i]);
        i = i + 1;
        assert(out@ =~= lots@.take(i as int));
    }
    assert(lots@.take(lots@.len() as int) =~= lots@);
    out
}


/// A calendar day, as days since 1970-01-01.
pub type Day = i32;

/// A tax lot: when it was acquired, what it holds, what it cost.
#[derive(Clone, Copy, Debug, PartialEq, Eq)]
pub struct Lot {
    /// Acquisition ordinal. FIFO is this field, not the order of a vector.
    pub seq: u64,
    pub units: i64,
    pub cost: i64,
    /// The day it was acquired. Its absence is not a default: a lot with no
    /// date cannot be classified short- or long-term.
    pub acquired: Option<Day>,
}

/// What a sale took out of one lot.
#[derive(Clone, Copy, Debug, PartialEq, Eq)]
pub struct Taken {
    pub seq: u64,
    pub units: i64,
    pub cost: i64,
    /// The day the relieved lot was acquired, carried through from it.
    pub acquired: Option<Day>,
}

/// What a relief produced: what was taken, what is left, what it cost.
#[derive(Clone, Debug, PartialEq, Eq)]
pub struct Relieved {
    pub taken: Vec<Taken>,
    pub left: Vec<Lot>,
    pub cost: i64,
}

/// What a relief took from a holding that keeps what is left.
#[derive(Clone, Debug, PartialEq, Eq)]
pub struct Relief {
    pub taken: Vec<Taken>,
    pub cost: i64,
}

/// A lot is sound unless it holds no units and carries cost (a husk), or holds
/// a negative number of units.
pub open spec fn lot_is_sound(units: int, cost: int) -> bool {
    units > 0 || (units == 0 && cost == 0)
}

/// Whether every lot in a holding is sound.
pub open spec fn all_sound(lots: Seq<Lot>) -> bool {
    forall|i: int| 0 <= i < lots.len() ==> #[trigger] lot_is_sound(lots[i].units as int, lots[i].cost as int)
}

/// A walk takes a whole lot when the lot holds no more than is still wanted.
pub open spec fn takes_whole_lot(units: int, want: int) -> bool {
    units <= want
}

/// Whether `want` of a lot's `units` divides its cost into whole minor units.
pub open spec fn partial_divides(cost: int, want: int, units: int) -> bool {
    (cost * want) % units == 0
}

/// The cost of `want` of a lot's `units`, exactly pro rata.
pub open spec fn partial_cost(cost: int, want: int, units: int) -> int {
    (cost * want) / units
}

/// What taking a whole lot records.
pub open spec fn whole(l: Lot) -> Taken {
    Taken { seq: l.seq, units: l.units, cost: l.cost, acquired: l.acquired }
}

/// Why a relief was refused.
#[derive(Clone, Copy, Debug, PartialEq, Eq)]
pub enum ReliefError {
    /// A sale of a negative number of units.
    NegativeSale { want: i64 },
    /// A lot holding nothing that owes something, or holding less than nothing.
    Husk { seq: u64, units: i64, cost: i64 },
    /// A holding-period method met a lot with no acquisition date.
    Undated { seq: u64, method: Method },
    /// A holding-period method met undated lots in a holding.
    UndatedLots { count: u64, method: Method },
    /// Min-tax met a lot with no acquisition date.
    UnclassifiableForMinTax { seq: u64 },
    /// A partial relief whose cost does not divide into whole minor units.
    Indivisible { remaining: i64, seq: u64, units: i64, cost: i64 },
    /// A partial relief whose pro-rata product does not fit in 64 bits.
    SplitOverflow { seq: u64, cost: i64, remaining: i64 },
    /// The holding is `remaining` units short of the `want` being sold.
    Short { short_by: i128, want: i64 },
    /// A figure that does not fit in 64 bits.
    Overflow(Overflow),
    /// A min-tax short-term weight that is not positive.
    NotAWeight { weight: i64 },
    /// Specific identification elected and no lot named.
    Unnamed,
    /// One lot named twice on one sale.
    NamedTwice { seq: u64 },
    /// A lot named that the holding does not have.
    UnknownLot { seq: u64 },
    /// A selection naming lots the sale will not reach.
    Overspecified { want: i64 },
    /// Average cost over a holding of no units.
    EmptyPool { units: i64 },
    /// A pooled basis that does not divide into whole minor units.
    PoolIndivisible { units: i64, cost: i64 },
    /// A sale bigger than the pool.
    PoolShort { want: i64, units: i64 },
    /// A unit price over no units, or a negative number of them.
    NotAPrice { want: i64 },
    /// Proceeds that do not divide into a whole-minor-unit price.
    PriceIndivisible { want: i64, proceeds: i64 },
    /// A negative deferral, which would wash a gain.
    NegativeDeferral { d: i64 },
    /// A wash write to a lot that is not open.
    NotOpen { seq: u64 },
    /// A wash of a sale of no units.
    NothingToMatch { sold_units: i64 },
    /// A wash split that does not divide into whole minor units.
    WashIndivisible { matched: i64, sold_units: i64, magnitude: i64 },
}

/// Which lots a sale gives up: the methods that are orderings.
///
/// Specific identification is a selection named per sale, average cost pools
/// the holding, and min-tax ranks at a sale price — none is an ordering, so
/// none is a variant here.
#[derive(Clone, Copy, Debug, PartialEq, Eq, Structural)]
pub enum Method {
    /// Oldest acquisition first.
    Fifo,
    /// Newest first.
    Lifo,
    /// Dearest per unit first.
    Hifo,
    /// Cheapest per unit first.
    Lofo,
    /// Longest held first. Refuses a holding with an undated lot.
    LongestHeldFirst,
    /// Shortest held first. Refuses a holding with an undated lot.
    ShortestHeldFirst,
}

/// The engine's method for a configured one: the same ordering, variant for
/// variant.
pub open spec fn method_of(m: crate::rules::LotMethod) -> Method {
    match m {
        crate::rules::LotMethod::Fifo => Method::Fifo,
        crate::rules::LotMethod::Lifo => Method::Lifo,
        crate::rules::LotMethod::Hifo => Method::Hifo,
        crate::rules::LotMethod::Lofo => Method::Lofo,
        crate::rules::LotMethod::LongestHeldFirst => Method::LongestHeldFirst,
        crate::rules::LotMethod::ShortestHeldFirst => Method::ShortestHeldFirst,
    }
}

impl From<crate::rules::LotMethod> for Method {
    /// The configured method, as the engine's.
    fn from(m: crate::rules::LotMethod) -> (r: Self) {
        match m {
            crate::rules::LotMethod::Fifo => Method::Fifo,
            crate::rules::LotMethod::Lifo => Method::Lifo,
            crate::rules::LotMethod::Hifo => Method::Hifo,
            crate::rules::LotMethod::Lofo => Method::Lofo,
            crate::rules::LotMethod::LongestHeldFirst => Method::LongestHeldFirst,
            crate::rules::LotMethod::ShortestHeldFirst => Method::ShortestHeldFirst,
        }
    }
}

impl vstd::std_specs::convert::FromSpecImpl<crate::rules::LotMethod> for Method {
    open spec fn obeys_from_spec() -> bool {
        true
    }

    open spec fn from_spec(m: crate::rules::LotMethod) -> Method {
        method_of(m)
    }
}

impl Default for Method {
    fn default() -> (m: Self)
        ensures
            m == Method::Fifo,
    {
        Method::Fifo
    }
}

impl Method {
    /// Whether this method needs to know when each lot was acquired.
    pub open spec fn spec_needs_dates(self) -> bool {
        self == Method::LongestHeldFirst || self == Method::ShortestHeldFirst
    }

    /// Whether this method needs to know when each lot was acquired.
    pub fn needs_acquisition_dates(self) -> (r: bool)
        ensures
            r == self.spec_needs_dates(),
    {
        match self {
            Method::LongestHeldFirst | Method::ShortestHeldFirst => true,
            _ => false,
        }
    }

    /// How this method takes a holding, in the words an operator would use.
    pub fn describe(self) -> (r: &'static str)
        ensures
            r@ == method_words(self),
    {
        match self {
            Method::Fifo => "oldest-first",
            Method::Lifo => "newest-first",
            Method::Hifo => "dearest-per-unit-first",
            Method::Lofo => "cheapest-per-unit-first",
            Method::LongestHeldFirst => "longest-held-first",
            Method::ShortestHeldFirst => "shortest-held-first",
        }
    }
}

/// The operator's words for a method.
pub open spec fn method_words(m: Method) -> Seq<char> {
    match m {
        Method::Fifo => "oldest-first"@,
        Method::Lifo => "newest-first"@,
        Method::Hifo => "dearest-per-unit-first"@,
        Method::Lofo => "cheapest-per-unit-first"@,
        Method::LongestHeldFirst => "longest-held-first"@,
        Method::ShortestHeldFirst => "shortest-held-first"@,
    }
}

/// Whole lots taken, then at most one partial lot, over an already-ordered
/// holding. `acc` is the cost given up so far and `want0` the size of the sale.
///
/// A partial relief divides the lot's cost exactly pro rata and is refused when
/// that does not land on a whole minor unit; a running cost that leaves 64 bits
/// is refused; running out of lots is a short sale.
pub open spec fn walk(lots: Seq<Lot>, want: int, acc: int, want0: i64) -> Result<(Seq<Taken>, Seq<Lot>, int), ReliefError>
    decreases lots.len(),
{
    if want == 0 {
        Ok((Seq::empty(), lots, acc))
    } else if lots.len() == 0 {
        Err(ReliefError::Short { short_by: want as i128, want: want0 })
    } else {
        let l = lots[0];
        if takes_whole_lot(l.units as int, want) {
            if !fits(acc + l.cost) {
                Err(ReliefError::Overflow(Overflow { what: "the relieved cost" }))
            } else {
                match walk(lots.drop_first(), want - l.units, acc + l.cost, want0) {
                    Ok((t, left, c)) => Ok((seq![whole(l)] + t, left, c)),
                    Err(e) => Err(e),
                }
            }
        } else if !fits(l.cost * want) {
            Err(ReliefError::Overflow(Overflow { what: "a pro-rata lot split" }))
        } else if !partial_divides(l.cost as int, want, l.units as int) {
            Err(ReliefError::Indivisible { remaining: want as i64, seq: l.seq, units: l.units, cost: l.cost })
        } else {
            let part = partial_cost(l.cost as int, want, l.units as int);
            if !fits(acc + part) {
                Err(ReliefError::Overflow(Overflow { what: "the relieved cost" }))
            } else {
                Ok((
                    seq![Taken { seq: l.seq, units: want as i64, cost: part as i64, acquired: l.acquired }],
                    seq![Lot { seq: l.seq, units: (l.units - want) as i64, cost: (l.cost - part) as i64, acquired: l.acquired }] + lots.drop_first(),
                    acc + part,
                ))
            }
        }
    }
}

/// Units held by a sequence of lots.
pub open spec fn units_of(lots: Seq<Lot>) -> int
    decreases lots.len(),
{
    if lots.len() == 0 { 0 } else { lots[0].units + units_of(lots.drop_first()) }
}

/// Cost carried by a sequence of lots.
pub open spec fn cost_of(lots: Seq<Lot>) -> int
    decreases lots.len(),
{
    if lots.len() == 0 { 0 } else { lots[0].cost + cost_of(lots.drop_first()) }
}

/// Units a relief took.
pub open spec fn taken_units(t: Seq<Taken>) -> int
    decreases t.len(),
{
    if t.len() == 0 { 0 } else { t[0].units + taken_units(t.drop_first()) }
}

/// Cost a relief gave up.
pub open spec fn taken_cost(t: Seq<Taken>) -> int
    decreases t.len(),
{
    if t.len() == 0 { 0 } else { t[0].cost + taken_cost(t.drop_first()) }
}

/// What a relief conserves: the units sold are exactly the units wanted, the
/// cost given up is the cost of what was taken, and what was taken plus what
/// remains is what was there — in units and in cost.
pub open spec fn conserves(lots: Seq<Lot>, want: int, t: Seq<Taken>, left: Seq<Lot>, cost: int) -> bool {
    &&& taken_units(t) == want
    &&& cost == taken_cost(t)
    &&& taken_cost(t) + cost_of(left) == cost_of(lots)
    &&& taken_units(t) + units_of(left) == units_of(lots)
}

/// Conservation of the walk, and what a short sale means: a walk is refused as
/// short by exactly the units the holding lacks.
pub proof fn lemma_walk_conserves(lots: Seq<Lot>, want: int, acc: int, want0: i64)
    requires
        0 <= want <= i64::MAX,
        forall|i: int| 0 <= i < lots.len() ==> lots[i].units >= 0,
    ensures
        match walk(lots, want, acc, want0) {
            Ok((t, left, c)) => conserves(lots, want, t, left, c - acc),
            Err(ReliefError::Short { short_by, want: w }) => short_by > 0 && units_of(lots) == want - short_by && w == want0,
            Err(_) => true,
        },
    decreases lots.len(),
{
    reveal_with_fuel(taken_units, 2);
    reveal_with_fuel(taken_cost, 2);
    reveal_with_fuel(units_of, 2);
    reveal_with_fuel(cost_of, 2);
    if want == 0 {
    } else if lots.len() == 0 {
    } else {
        let l = lots[0];
        if takes_whole_lot(l.units as int, want) {
            if fits(acc + l.cost) {
                assert forall|i: int| 0 <= i < lots.drop_first().len() implies lots.drop_first()[i].units >= 0 by {
                    assert(lots.drop_first()[i] == lots[i + 1]);
                }
                lemma_walk_conserves(lots.drop_first(), want - l.units, acc + l.cost, want0);
                match walk(lots.drop_first(), want - l.units, acc + l.cost, want0) {
                    Ok((t, left, c)) => {
                        let tt = seq![whole(l)] + t;
                        assert(tt.drop_first() =~= t);
                    }
                    Err(e) => {}
                }
            }
        } else if fits(l.cost * want) && partial_divides(l.cost as int, want, l.units as int) {
            if l.units > 0 {
                lemma_partial_bounds(l.cost as int, want, l.units as int);
            }
            let part = partial_cost(l.cost as int, want, l.units as int);
            if fits(acc + part) {
                let t1 = Taken { seq: l.seq, units: want as i64, cost: part as i64, acquired: l.acquired };
                let l1 = Lot { seq: l.seq, units: (l.units - want) as i64, cost: (l.cost - part) as i64, acquired: l.acquired };
                let left = seq![l1] + lots.drop_first();
                assert(left.drop_first() =~= lots.drop_first());
                assert(left[0] == l1);
                assert(t1.units == want);
                assert(t1.cost == part);
                assert(l1.cost == l.cost - part);
                assert(l1.units == l.units - want);
                assert(seq![t1].drop_first() =~= Seq::<Taken>::empty());
                assert(taken_units(seq![t1]) == want);
                assert(taken_cost(seq![t1]) == part);
                assert(cost_of(left) == l1.cost + cost_of(lots.drop_first()));
            }
        }
    }
}

/// Put what an earlier stretch of the walk took in front of what the rest took.
pub open spec fn after(t0: Seq<Taken>, r: Result<(Seq<Taken>, Seq<Lot>, int), ReliefError>) -> Result<(Seq<Taken>, Seq<Lot>, int), ReliefError> {
    match r {
        Ok((t, left, c)) => Ok((t0 + t, left, c)),
        Err(e) => Err(e),
    }
}

/// Whether an executable relief is the walk's answer.
pub open spec fn is_walk(r: Result<Relieved, ReliefError>, w: Result<(Seq<Taken>, Seq<Lot>, int), ReliefError>) -> bool {
    match r {
        Ok(rv) => w == Ok::<(Seq<Taken>, Seq<Lot>, int), ReliefError>((rv.taken@, rv.left@, rv.cost as int)),
        Err(e) => w == Err::<(Seq<Taken>, Seq<Lot>, int), ReliefError>(e),
    }
}

proof fn lemma_partial_bounds(cost: int, want: int, units: int)
    requires
        0 < want < units,
        fits(cost),
        (cost * want) % units == 0,
    ensures
        fits((cost * want) / units),
        fits(cost - (cost * want) / units),
{
    let p = (cost * want) / units;
    assert(p * units == cost * want) by (nonlinear_arith)
        requires (cost * want) % units == 0, units > 0, p == (cost * want) / units;
    if cost >= 0 {
        assert(0 <= p <= cost) by (nonlinear_arith)
            requires p * units == cost * want, 0 < want < units, cost >= 0;
    } else {
        assert(cost <= p <= 0) by (nonlinear_arith)
            requires p * units == cost * want, 0 < want < units, cost < 0;
    }
}

/// Walk an already-ordered holding. The caller owns the order.
pub fn walk_ordered(ordered: &[Lot], want: i64) -> (r: Result<Relieved, ReliefError>)
    requires
        want >= 0,
    ensures
        is_walk(r, walk(ordered@, want as int, 0, want)),
{
    let n = ordered.len();
    let mut taken: Vec<Taken> = Vec::new();
    let mut cost: i64 = 0;
    let mut remaining: i128 = want as i128;
    let mut i: usize = 0;
    assert(ordered@.skip(0) =~= ordered@);
    assert(taken@ + Seq::<Taken>::empty() =~= taken@);
    while i < n && remaining > 0
        invariant
            n == ordered@.len(),
            0 <= i <= n,
            0 <= remaining <= want + i * 9223372036854775808,
            walk(ordered@, want as int, 0, want) == after(taken@, walk(ordered@.skip(i as int), remaining as int, cost as int, want)),
        decreases n - i,
    {
        let lot = ordered[i];
        let ghost rest = ordered@.skip(i as int);
        assert(rest[0] == lot);
        assert(rest.drop_first() =~= ordered@.skip(i + 1));
        if (lot.units as i128) <= remaining {
            match checked::add(cost, lot.cost, "the relieved cost") {
                Ok(c) => {
                    let ghost before = taken@;
                    taken.push(Taken { seq: lot.seq, units: lot.units, cost: lot.cost, acquired: lot.acquired });
                    cost = c;
                    remaining = remaining - lot.units as i128;
                    i = i + 1;
                    proof {
                        assert(taken@ == before + seq![whole(lot)]);
                        let w = walk(ordered@.skip(i as int), remaining as int, cost as int, want);
                        match w {
                            Ok((t, left, cc)) => {
                                assert(before + (seq![whole(lot)] + t) =~= taken@ + t);
                            }
                            Err(e) => {}
                        }
                    }
                }
                Err(e) => {
                    return Err(ReliefError::Overflow(e));
                }
            }
        } else {
            let rem: i64 = remaining as i64;
            let prod = match checked::mul(lot.cost, rem, "a pro-rata lot split") {
                Ok(p) => p,
                Err(e) => {
                    return Err(ReliefError::Overflow(e));
                }
            };
            let r = prod.checked_rem_euclid(lot.units);
            if r != Some(0i64) {
                return Err(ReliefError::Indivisible { remaining: rem, seq: lot.seq, units: lot.units, cost: lot.cost });
            }
            proof {
                lemma_partial_bounds(lot.cost as int, rem as int, lot.units as int);
            }
            let part = match prod.checked_div_euclid(lot.units) {
                Some(p) => p,
                None => {
                    return Err(ReliefError::Overflow(Overflow { what: "a pro-rata lot split" }));
                }
            };
            let c = match checked::add(cost, part, "the relieved cost") {
                Ok(c) => c,
                Err(e) => {
                    return Err(ReliefError::Overflow(e));
                }
            };
            let ghost before = taken@;
            taken.push(Taken { seq: lot.seq, units: rem, cost: part, acquired: lot.acquired });
            let mut left: Vec<Lot> = Vec::new();
            left.push(Lot { seq: lot.seq, units: lot.units - rem, cost: lot.cost - part, acquired: lot.acquired });
            let mut j: usize = i + 1;
            while j < n
                invariant
                    n == ordered@.len(),
                    i + 1 <= j <= n,
                    left@ == seq![Lot { seq: lot.seq, units: (lot.units - rem) as i64, cost: (lot.cost - part) as i64, acquired: lot.acquired }] + ordered@.subrange(i + 1, j as int),
                decreases n - j,
            {
                left.push(ordered[j]);
                j = j + 1;
                assert(left@ =~= seq![Lot { seq: lot.seq, units: (lot.units - rem) as i64, cost: (lot.cost - part) as i64, acquired: lot.acquired }] + ordered@.subrange(i + 1, j as int));
            }
            assert(ordered@.subrange(i + 1, n as int) =~= ordered@.skip(i + 1));
            proof {
                let t1 = Taken { seq: lot.seq, units: rem, cost: part, acquired: lot.acquired };
                assert(taken@ =~= before + seq![t1]);
                assert(walk(rest, remaining as int, cost as int, want) == Ok::<(Seq<Taken>, Seq<Lot>, int), ReliefError>((seq![t1], left@, c as int)));
            }
            return Ok(Relieved { taken, left, cost: c });
        }
    }
    if remaining > 0 {
        assert(ordered@.skip(i as int) =~= Seq::<Lot>::empty());
        return Err(ReliefError::Short { short_by: remaining, want });
    }
    let mut left: Vec<Lot> = Vec::new();
    let mut j: usize = i;
    while j < n
        invariant
            n == ordered@.len(),
            i <= j <= n,
            left@ == ordered@.subrange(i as int, j as int),
        decreases n - j,
    {
        left.push(ordered[j]);
        j = j + 1;
        assert(left@ =~= ordered@.subrange(i as int, j as int));
    }
    assert(ordered@.subrange(i as int, n as int) =~= ordered@.skip(i as int));
    assert(taken@ + Seq::<Taken>::empty() =~= taken@);
    Ok(Relieved { taken, left, cost })
}

} // verus!

verus! {

use crate::order::{Order, arranged, arrange, lemma_arranged, rankable, tax_computes};

/// The first lot in a holding with no acquisition date.
pub open spec fn first_undated(lots: Seq<Lot>) -> Option<Lot>
    decreases lots.len(),
{
    if lots.len() == 0 {
        None
    } else if lots[0].acquired is None {
        Some(lots[0])
    } else {
        first_undated(lots.drop_first())
    }
}

/// The first lot in a holding that is not sound.
pub open spec fn first_husk(lots: Seq<Lot>) -> Option<Lot>
    decreases lots.len(),
{
    if lots.len() == 0 {
        None
    } else if !lot_is_sound(lots[0].units as int, lots[0].cost as int) {
        Some(lots[0])
    } else {
        first_husk(lots.drop_first())
    }
}

/// Relief under a declared method: refuse a negative sale, refuse an undated
/// lot when the method needs dates, refuse a husk, then order the holding
/// itself and walk it.
pub open spec fn relieve_by_spec(m: Method, lots: Seq<Lot>, want: i64) -> Result<(Seq<Taken>, Seq<Lot>, int), ReliefError> {
    if want < 0 {
        Err(ReliefError::NegativeSale { want })
    } else if m.spec_needs_dates() && first_undated(lots) is Some {
        Err(ReliefError::Undated { seq: first_undated(lots).unwrap().seq, method: m })
    } else if first_husk(lots) is Some {
        let h = first_husk(lots).unwrap();
        Err(ReliefError::Husk { seq: h.seq, units: h.units, cost: h.cost })
    } else {
        walk(arranged(Order::By(m), lots), want as int, 0, want)
    }
}

proof fn lemma_no_husk_sound(lots: Seq<Lot>)
    requires
        first_husk(lots) is None,
    ensures
        all_sound(lots),
    decreases lots.len(),
{
    if lots.len() > 0 {
        lemma_no_husk_sound(lots.drop_first());
        assert forall|i: int| 0 <= i < lots.len() implies #[trigger] lot_is_sound(lots[i].units as int, lots[i].cost as int) by {
            if i > 0 {
                assert(lots[i] == lots.drop_first()[i - 1]);
            }
        }
    }
}

proof fn lemma_sound_husk_free(lots: Seq<Lot>)
    requires
        all_sound(lots),
    ensures
        first_husk(lots) is None,
    decreases lots.len(),
{
    if lots.len() > 0 {
        assert(lot_is_sound(lots[0].units as int, lots[0].cost as int));
        assert forall|i: int| 0 <= i < lots.drop_first().len() implies #[trigger] lot_is_sound(lots.drop_first()[i].units as int, lots.drop_first()[i].cost as int) by {
            assert(lots.drop_first()[i] == lots[i + 1]);
        }
        lemma_sound_husk_free(lots.drop_first());
    }
}

/// Find the first undated lot.
fn find_undated(lots: &[Lot]) -> (r: Option<Lot>)
    ensures
        r == first_undated(lots@),
{
    let mut i: usize = 0;
    assert(lots@.skip(0) =~= lots@);
    while i < lots.len()
        invariant
            0 <= i <= lots@.len(),
            first_undated(lots@) == first_undated(lots@.skip(i as int)),
        decreases lots@.len() - i,
    {
        assert(lots@.skip(i as int)[0] == lots@[i as int]);
        if lots[i].acquired.is_none() {
            return Some(lots[i]);
        }
        assert(lots@.skip(i as int).drop_first() =~= lots@.skip(i + 1));
        i = i + 1;
    }
    assert(lots@.skip(i as int) =~= Seq::<Lot>::empty());
    None
}

/// Find the first lot that is not sound.
fn find_husk(lots: &[Lot]) -> (r: Option<Lot>)
    ensures
        r == first_husk(lots@),
{
    let mut i: usize = 0;
    assert(lots@.skip(0) =~= lots@);
    while i < lots.len()
        invariant
            0 <= i <= lots@.len(),
            first_husk(lots@) == first_husk(lots@.skip(i as int)),
        decreases lots@.len() - i,
    {
        assert(lots@.skip(i as int)[0] == lots@[i as int]);
        let l = lots[i];
        if !(l.units > 0 || (l.units == 0 && l.cost == 0)) {
            return Some(l);
        }
        assert(lots@.skip(i as int).drop_first() =~= lots@.skip(i + 1));
        i = i + 1;
    }
    assert(lots@.skip(i as int) =~= Seq::<Lot>::empty());
    None
}

/// Whether a relieved figure is the answer of `relieve_by_spec`, and what it
/// conserves when it is one.
pub open spec fn relieved_by(r: Result<Relieved, ReliefError>, m: Method, lots: Seq<Lot>, want: i64) -> bool {
    &&& is_walk(r, relieve_by_spec(m, lots, want))
    &&& r matches Ok(rv) ==> conserves(lots, want as int, rv.taken@, rv.left@, rv.cost as int)
}

/// Relieve `want` units under a declared method.
///
/// Orders the holding itself rather than trusting the caller to have handed it
/// acquisition order: naming a method and then trusting the storage layer is how
/// a fund's tax position quietly becomes whatever that layer returned.
pub fn relieve_by(method: Method, lots: &[Lot], want: i64) -> (r: Result<Relieved, ReliefError>)
    ensures
        relieved_by(r, method, lots@, want),
{
    if want < 0 {
        return Err(ReliefError::NegativeSale { want });
    }
    if method.needs_acquisition_dates() {
        if let Some(l) = find_undated(lots) {
            return Err(ReliefError::Undated { seq: l.seq, method });
        }
    }
    if let Some(l) = find_husk(lots) {
        return Err(ReliefError::Husk { seq: l.seq, units: l.units, cost: l.cost });
    }
    let o = Order::By(method);
    assert(rankable(o, lots@)) by {
        assert forall|i: int| 0 <= i < lots@.len() implies tax_computes(o, #[trigger] lots@[i]) by {}
    }
    let ordered = arrange(o, lots);
    proof {
        lemma_no_husk_sound(lots@);
        lemma_arranged(o, lots@);
        let a = arranged(o, lots@);
        assert forall|i: int| 0 <= i < a.len() implies a[i].units >= 0 by {
            let k = choose|k: int| 0 <= k < lots@.len() && a[i] == lots@[k];
            assert(lot_is_sound(lots@[k].units as int, lots@[k].cost as int));
        }
        lemma_walk_conserves(a, want as int, 0, want);
    }
    walk_ordered(&ordered, want)
}

/// Relieve `want` units, oldest lot first.
pub fn relieve(lots: &[Lot], want: i64) -> (r: Result<Relieved, ReliefError>)
    ensures
        relieved_by(r, Method::Fifo, lots@, want),
{
    relieve_by(Method::Fifo, lots, want)
}

impl Relieved {
    /// Proceeds less the cost given up.
    pub fn gain(&self, proceeds: i64) -> (r: Result<i64, Overflow>)
        ensures
            r == checked::checked(proceeds - self.cost, "the realized gain"),
    {
        checked::sub(proceeds, self.cost, "the realized gain")
    }
}

impl Relief {
    /// Proceeds less the cost given up.
    pub fn gain(&self, proceeds: i64) -> (r: Result<i64, Overflow>)
        ensures
            r == checked::checked(proceeds - self.cost, "the realized gain"),
    {
        checked::sub(proceeds, self.cost, "the realized gain")
    }
}

} // verus!

verus! {

use vstd::string::*;
use crate::text::{decimal, push_decimal};

/// How a method is named in a refusal.
pub open spec fn method_name(m: Method) -> Seq<char> {
    match m {
        Method::Fifo => "Fifo"@,
        Method::Lifo => "Lifo"@,
        Method::Hifo => "Hifo"@,
        Method::Lofo => "Lofo"@,
        Method::LongestHeldFirst => "LongestHeldFirst"@,
        Method::ShortestHeldFirst => "ShortestHeldFirst"@,
    }
}

fn method_name_str(m: Method) -> (r: &'static str)
    ensures
        r@ == method_name(m),
{
    match m {
        Method::Fifo => "Fifo",
        Method::Lifo => "Lifo",
        Method::Hifo => "Hifo",
        Method::Lofo => "Lofo",
        Method::LongestHeldFirst => "LongestHeldFirst",
        Method::ShortestHeldFirst => "ShortestHeldFirst",
    }
}

/// Why neither fallback for a missing date is conservative.
pub open spec fn no_date_reason() -> Seq<char> {
    " — assuming the epoch would make it long-term at the favorable rate on records that do not support the claim, and assuming today would make it short-term on a holding that may have been held for years. Neither is conservative; they are wrong in opposite directions"@
}

/// The words of a relief refusal.
pub open spec fn relief_message(e: ReliefError) -> Seq<char> {
    match e {
        ReliefError::NegativeSale { want } =>
            "a relief of "@ + decimal(want as int) + " units is not a relief; a negative sale is a purchase"@,
        ReliefError::Husk { seq, units, cost } =>
            "lot "@ + decimal(seq as int) + " holds "@ + decimal(units as int) + " units and carries "@
                + decimal(cost as int) + " — a holding of nothing that owes something is not a lot, and relieving it would give away its basis for no units at all"@,
        ReliefError::Undated { seq, method } =>
            "lot "@ + decimal(seq as int) + " has no acquisition date, and "@ + method_name(method)
                + " cannot classify it"@ + no_date_reason(),
        ReliefError::UndatedLots { count, method } =>
            decimal(count as int) + " lot(s) have no acquisition date, and "@ + method_name(method)
                + " cannot classify them"@ + no_date_reason(),
        ReliefError::UnclassifiableForMinTax { seq } =>
            "lot "@ + decimal(seq as int) + " has no acquisition date, and min-tax cannot classify it"@ + no_date_reason(),
        ReliefError::Indivisible { remaining, seq, units, cost } =>
            "relieving "@ + decimal(remaining as int) + " of lot "@ + decimal(seq as int) + "'s "@ + decimal(units as int)
                + " units does not divide its cost of "@ + decimal(cost as int)
                + " into whole minor units — which way to round is a term of an administration agreement, not a property of arithmetic"@,
        ReliefError::SplitOverflow { seq, cost, remaining } =>
            "relieving lot "@ + decimal(seq as int) + "'s cost of "@ + decimal(cost as int) + " by "@ + decimal(remaining as int)
                + " units does not fit in 64 bits"@,
        ReliefError::Short { short_by, want } =>
            "this holding is "@ + decimal(short_by as int) + " units short of the "@ + decimal(want as int)
                + " being sold — short sales are refused, and going negative would create a position nobody opened"@,
        ReliefError::Overflow(o) => crate::checked::overflow_message(o.what@),
        ReliefError::NotAWeight { weight } =>
            "min-tax short-term weight is "@ + decimal(weight as int) + ", and a non-positive weight is not a weight"@,
        ReliefError::Unnamed =>
            "specific identification is elected and no lots were named — walking FIFO would relieve under a method this sale did not elect, and FIFO is a method real funds elect. Ratio.Lots.SpecId.an_unnamed_selection_is_refused"@,
        ReliefError::NamedTwice { seq } =>
            "lot "@ + decimal(seq as int) + " is named twice on one sale — two instructions about one remainder. Ratio.Lots.SpecId.a_duplicate_name_is_refused"@,
        ReliefError::UnknownLot { seq } =>
            "lot "@ + decimal(seq as int) + " is not in this holding — a name the book does not have is not a lot the taxpayer can identify. Ratio.Lots.SpecId.an_unknown_lot_is_refused"@,
        ReliefError::Overspecified { want } =>
            "this selection names more lots than the sale of "@ + decimal(want as int)
                + " unit(s) will reach — a client instruction that contradicts itself, not a walk. Ratio.Lots.SpecId.an_overspecified_selection_is_refused"@,
        ReliefError::EmptyPool { units } =>
            "a holding of "@ + decimal(units as int) + " unit(s) has no pooled basis — average cost pools what is held, and nothing is held. Ratio.Lots.AverageCost.a_zero_unit_holding_has_no_pooled_basis"@,
        ReliefError::PoolIndivisible { units, cost } =>
            "pooling "@ + decimal(units as int) + " unit(s) costing "@ + decimal(cost as int)
                + " does not divide into a whole minor unit — which way to round is a term of an administration agreement, not a property of arithmetic. Ratio.Lots.Methods.an_average_that_does_not_divide_is_refused"@,
        ReliefError::PoolShort { want, units } =>
            "the holding is short: "@ + decimal(want as int) + " unit(s) were sold and "@ + decimal(units as int) + " are held. Ratio.Lots.AverageCost.a_sale_bigger_than_the_pool_is_refused"@,
        ReliefError::NotAPrice { want } =>
            "a unit price over "@ + decimal(want as int) + " units is not a price — a sale of nothing, or a negative one, has no per-unit proceeds"@,
        ReliefError::PriceIndivisible { want, proceeds } =>
            "a sale of "@ + decimal(want as int) + " units for "@ + decimal(proceeds as int)
                + " does not divide into a whole-minor-unit price — which way to round would move every lot's tax rank, so it is refused rather than guessed"@,
        ReliefError::NegativeDeferral { d } =>
            "a negative deferral of "@ + decimal(d as int) + " is not a wash — that would reduce basis, which is washing a gain, and a gain is never washed"@,
        ReliefError::NotOpen { seq } =>
            "lot "@ + decimal(seq as int) + " is not open — the wash write searches the remainder, and a lot the sale took is not a candidate"@,
        ReliefError::NothingToMatch { sold_units } =>
            "washing a sale of "@ + decimal(sold_units as int) + " units is not a wash — there is nothing to match against"@,
        ReliefError::WashIndivisible { matched, sold_units, magnitude } =>
            "washing "@ + decimal(matched as int) + " of "@ + decimal(sold_units as int) + " sold units does not divide the "@
                + decimal(magnitude as int) + " loss into whole minor units — which way to round is a term of an administration agreement, not a property of arithmetic"@,
    }
}

impl ReliefError {
    /// The refusal, in words a fund accountant would use.
    pub fn message(&self) -> (r: String)
        ensures
            r@ == relief_message(*self),
    {
        match *self {
            ReliefError::NegativeSale { want } => {
                let mut s = String::from_str("a relief of ");
                push_decimal(&mut s, want as i128);
                s.append(" units is not a relief; a negative sale is a purchase");
                s
            }
            ReliefError::Husk { seq, units, cost } => {
                let mut s = String::from_str("lot ");
                push_decimal(&mut s, seq as i128);
                s.append(" holds ");
                push_decimal(&mut s, units as i128);
                s.append(" units and carries ");
                push_decimal(&mut s, cost as i128);
                s.append(" — a holding of nothing that owes something is not a lot, and relieving it would give away its basis for no units at all");
                s
            }
            ReliefError::Undated { seq, method } => {
                let mut s = String::from_str("lot ");
                push_decimal(&mut s, seq as i128);
                s.append(" has no acquisition date, and ");
                s.append(method_name_str(method));
                s.append(" cannot classify it");
                s.append(" — assuming the epoch would make it long-term at the favorable rate on records that do not support the claim, and assuming today would make it short-term on a holding that may have been held for years. Neither is conservative; they are wrong in opposite directions");
                s
            }
            ReliefError::UndatedLots { count, method } => {
                let mut s = String::new();
                push_decimal(&mut s, count as i128);
                s.append(" lot(s) have no acquisition date, and ");
                s.append(method_name_str(method));
                s.append(" cannot classify them");
                s.append(" — assuming the epoch would make it long-term at the favorable rate on records that do not support the claim, and assuming today would make it short-term on a holding that may have been held for years. Neither is conservative; they are wrong in opposite directions");
                assert(s@ =~= relief_message(*self));
                s
            }
            ReliefError::UnclassifiableForMinTax { seq } => {
                let mut s = String::from_str("lot ");
                push_decimal(&mut s, seq as i128);
                s.append(" has no acquisition date, and min-tax cannot classify it");
                s.append(" — assuming the epoch would make it long-term at the favorable rate on records that do not support the claim, and assuming today would make it short-term on a holding that may have been held for years. Neither is conservative; they are wrong in opposite directions");
                s
            }
            ReliefError::Indivisible { remaining, seq, units, cost } => {
                let mut s = String::from_str("relieving ");
                push_decimal(&mut s, remaining as i128);
                s.append(" of lot ");
                push_decimal(&mut s, seq as i128);
                s.append("'s ");
                push_decimal(&mut s, units as i128);
                s.append(" units does not divide its cost of ");
                push_decimal(&mut s, cost as i128);
                s.append(" into whole minor units — which way to round is a term of an administration agreement, not a property of arithmetic");
                s
            }
            ReliefError::SplitOverflow { seq, cost, remaining } => {
                let mut s = String::from_str("relieving lot ");
                push_decimal(&mut s, seq as i128);
                s.append("'s cost of ");
                push_decimal(&mut s, cost as i128);
                s.append(" by ");
                push_decimal(&mut s, remaining as i128);
                s.append(" units does not fit in 64 bits");
                s
            }
            ReliefError::Short { short_by, want } => {
                let mut s = String::from_str("this holding is ");
                push_decimal(&mut s, short_by);
                s.append(" units short of the ");
                push_decimal(&mut s, want as i128);
                s.append(" being sold — short sales are refused, and going negative would create a position nobody opened");
                s
            }
            ReliefError::Overflow(o) => o.message(),
            ReliefError::NotAWeight { weight } => {
                let mut s = String::from_str("min-tax short-term weight is ");
                push_decimal(&mut s, weight as i128);
                s.append(", and a non-positive weight is not a weight");
                s
            }
            ReliefError::Unnamed => {
                String::from_str("specific identification is elected and no lots were named — walking FIFO would relieve under a method this sale did not elect, and FIFO is a method real funds elect. Ratio.Lots.SpecId.an_unnamed_selection_is_refused")
            }
            ReliefError::NamedTwice { seq } => {
                let mut s = String::from_str("lot ");
                push_decimal(&mut s, seq as i128);
                s.append(" is named twice on one sale — two instructions about one remainder. Ratio.Lots.SpecId.a_duplicate_name_is_refused");
                s
            }
            ReliefError::UnknownLot { seq } => {
                let mut s = String::from_str("lot ");
                push_decimal(&mut s, seq as i128);
                s.append(" is not in this holding — a name the book does not have is not a lot the taxpayer can identify. Ratio.Lots.SpecId.an_unknown_lot_is_refused");
                s
            }
            ReliefError::Overspecified { want } => {
                let mut s = String::from_str("this selection names more lots than the sale of ");
                push_decimal(&mut s, want as i128);
                s.append(" unit(s) will reach — a client instruction that contradicts itself, not a walk. Ratio.Lots.SpecId.an_overspecified_selection_is_refused");
                s
            }
            ReliefError::EmptyPool { units } => {
                let mut s = String::from_str("a holding of ");
                push_decimal(&mut s, units as i128);
                s.append(" unit(s) has no pooled basis — average cost pools what is held, and nothing is held. Ratio.Lots.AverageCost.a_zero_unit_holding_has_no_pooled_basis");
                s
            }
            ReliefError::PoolIndivisible { units, cost } => {
                let mut s = String::from_str("pooling ");
                push_decimal(&mut s, units as i128);
                s.append(" unit(s) costing ");
                push_decimal(&mut s, cost as i128);
                s.append(" does not divide into a whole minor unit — which way to round is a term of an administration agreement, not a property of arithmetic. Ratio.Lots.Methods.an_average_that_does_not_divide_is_refused");
                s
            }
            ReliefError::PoolShort { want, units } => {
                let mut s = String::from_str("the holding is short: ");
                push_decimal(&mut s, want as i128);
                s.append(" unit(s) were sold and ");
                push_decimal(&mut s, units as i128);
                s.append(" are held. Ratio.Lots.AverageCost.a_sale_bigger_than_the_pool_is_refused");
                s
            }
            ReliefError::NotAPrice { want } => {
                let mut s = String::from_str("a unit price over ");
                push_decimal(&mut s, want as i128);
                s.append(" units is not a price — a sale of nothing, or a negative one, has no per-unit proceeds");
                s
            }
            ReliefError::PriceIndivisible { want, proceeds } => {
                let mut s = String::from_str("a sale of ");
                push_decimal(&mut s, want as i128);
                s.append(" units for ");
                push_decimal(&mut s, proceeds as i128);
                s.append(" does not divide into a whole-minor-unit price — which way to round would move every lot's tax rank, so it is refused rather than guessed");
                s
            }
            ReliefError::NegativeDeferral { d } => {
                let mut s = String::from_str("a negative deferral of ");
                push_decimal(&mut s, d as i128);
                s.append(" is not a wash — that would reduce basis, which is washing a gain, and a gain is never washed");
                s
            }
            ReliefError::NotOpen { seq } => {
                let mut s = String::from_str("lot ");
                push_decimal(&mut s, seq as i128);
                s.append(" is not open — the wash write searches the remainder, and a lot the sale took is not a candidate");
                s
            }
            ReliefError::NothingToMatch { sold_units } => {
                let mut s = String::from_str("washing a sale of ");
                push_decimal(&mut s, sold_units as i128);
                s.append(" units is not a wash — there is nothing to match against");
                s
            }
            ReliefError::WashIndivisible { matched, sold_units, magnitude } => {
                let mut s = String::from_str("washing ");
                push_decimal(&mut s, matched as i128);
                s.append(" of ");
                push_decimal(&mut s, sold_units as i128);
                s.append(" sold units does not divide the ");
                push_decimal(&mut s, magnitude as i128);
                s.append(" loss into whole minor units — which way to round is a term of an administration agreement, not a property of arithmetic");
                s
            }
        }
    }
}

} // verus!

verus! {

use crate::order::{long_term, lot_short, tax_at};

/// Per-unit proceeds of a sale, refused rather than rounded.
pub fn unit_price(proceeds: i64, want: i64) -> (r: Result<i64, ReliefError>)
    ensures
        want <= 0 ==> r == Err::<i64, ReliefError>(ReliefError::NotAPrice { want }),
        want > 0 && proceeds % want != 0 ==> r == Err::<i64, ReliefError>(ReliefError::PriceIndivisible { want, proceeds }),
        want > 0 && proceeds % want == 0 ==> r == Ok::<i64, ReliefError>((proceeds / want) as i64),
{
    if want <= 0 {
        return Err(ReliefError::NotAPrice { want });
    }
    if proceeds.checked_rem_euclid(want) != Some(0i64) {
        return Err(ReliefError::PriceIndivisible { want, proceeds });
    }
    proof {
        let q = proceeds as int / want as int;
        assert(q * want == proceeds) by (nonlinear_arith)
            requires proceeds % want == 0, want > 0, q == proceeds as int / want as int;
        assert(i64::MIN <= q <= i64::MAX) by (nonlinear_arith)
            requires q * want == proceeds, want >= 1, i64::MIN <= proceeds <= i64::MAX;
    }
    match proceeds.checked_div_euclid(want) {
        Some(p) => Ok(p),
        None => Err(ReliefError::NotAPrice { want }),
    }
}

/// Whether a holding period is long-term. The threshold day itself is.
pub fn is_long_term(threshold: i64, acquired: Day, as_of: Day) -> (r: bool)
    ensures
        r == long_term(threshold as int, acquired as int, as_of as int),
{
    (as_of as i64) - (acquired as i64) >= threshold
}

/// The first reason a holding cannot be ranked by tax at a price, lot by lot:
/// a missing date, a husk, or a tax that does not fit in 64 bits.
pub open spec fn min_tax_refusal(o: Order, lots: Seq<Lot>) -> Option<ReliefError>
    decreases lots.len(),
{
    if lots.len() == 0 {
        None
    } else {
        let l = lots[0];
        match o {
            Order::MinTax { price, short_weight, threshold, as_of } => {
                if l.acquired is None {
                    Some(ReliefError::UnclassifiableForMinTax { seq: l.seq })
                } else if !lot_is_sound(l.units as int, l.cost as int) {
                    Some(ReliefError::Husk { seq: l.seq, units: l.units, cost: l.cost })
                } else if !fits(price * l.units) {
                    Some(ReliefError::Overflow(Overflow { what: "min-tax proceeds at this lot" }))
                } else if !fits(price * l.units - l.cost) {
                    Some(ReliefError::Overflow(Overflow { what: "min-tax gain at this lot" }))
                } else if lot_short(threshold as int, as_of as int, l) && !fits((price * l.units - l.cost) * short_weight) {
                    Some(ReliefError::Overflow(Overflow { what: "min-tax short-term weight" }))
                } else {
                    min_tax_refusal(o, lots.drop_first())
                }
            },
            _ => None,
        }
    }
}

proof fn lemma_min_tax_rankable(o: Order, lots: Seq<Lot>)
    requires
        o is MinTax,
        min_tax_refusal(o, lots) is None,
    ensures
        rankable(o, lots),
        all_sound(lots),
    decreases lots.len(),
{
    if lots.len() > 0 {
        lemma_min_tax_rankable(o, lots.drop_first());
        assert forall|i: int| 0 <= i < lots.len() implies tax_computes(o, #[trigger] lots[i]) && lot_is_sound(lots[i].units as int, lots[i].cost as int) by {
            if i > 0 {
                assert(lots[i] == lots.drop_first()[i - 1]);
            }
        }
    }
}

fn check_min_tax(o: Order, lots: &[Lot]) -> (r: Option<ReliefError>)
    requires
        o is MinTax,
    ensures
        r == min_tax_refusal(o, lots@),
{
    let (price, short_weight, threshold, as_of) = match o {
        Order::MinTax { price, short_weight, threshold, as_of } => (price, short_weight, threshold, as_of),
        _ => (0, 0, 0, 0),
    };
    let mut i: usize = 0;
    assert(lots@.skip(0) =~= lots@);
    while i < lots.len()
        invariant
            o == (Order::MinTax { price, short_weight, threshold, as_of }),
            0 <= i <= lots@.len(),
            min_tax_refusal(o, lots@) == min_tax_refusal(o, lots@.skip(i as int)),
        decreases lots@.len() - i,
    {
        let l = lots[i];
        assert(lots@.skip(i as int)[0] == l);
        assert(lots@.skip(i as int).drop_first() =~= lots@.skip(i + 1));
        let acquired = match l.acquired {
            None => { return Some(ReliefError::UnclassifiableForMinTax { seq: l.seq }); }
            Some(d) => d,
        };
        if !(l.units > 0 || (l.units == 0 && l.cost == 0)) {
            return Some(ReliefError::Husk { seq: l.seq, units: l.units, cost: l.cost });
        }
        let proceeds = match checked::mul(price, l.units, "min-tax proceeds at this lot") {
            Ok(p) => p,
            Err(e) => { return Some(ReliefError::Overflow(e)); }
        };
        let gain = match checked::sub(proceeds, l.cost, "min-tax gain at this lot") {
            Ok(g) => g,
            Err(e) => { return Some(ReliefError::Overflow(e)); }
        };
        if !is_long_term(threshold, acquired, as_of) {
            if let Err(e) = checked::mul(gain, short_weight, "min-tax short-term weight") {
                return Some(ReliefError::Overflow(e));
            }
        }
        i = i + 1;
    }
    assert(lots@.skip(i as int) =~= Seq::<Lot>::empty());
    None
}

/// Rank a holding by tax at a sale price, cheapest-tax per unit first; equal
/// tax falls back to acquisition order. A missing date, a husk, or a tax that
/// does not fit is refused before anything moves.
pub fn arrange_min_tax(lots: &mut Vec<Lot>, price: i64, short_weight: i64, threshold: i64, as_of: Day) -> (r: Result<(), ReliefError>)
    ensures
        ({
            let o = Order::MinTax { price, short_weight, threshold, as_of };
            match min_tax_refusal(o, old(lots)@) {
                Some(e) => r == Err::<(), ReliefError>(e) && final(lots)@ == old(lots)@,
                None => r == Ok::<(), ReliefError>(()) && final(lots)@ == arranged(o, old(lots)@),
            }
        }),
{
    let o = Order::MinTax { price, short_weight, threshold, as_of };
    if let Some(e) = check_min_tax(o, lots) {
        return Err(e);
    }
    proof {
        lemma_min_tax_rankable(o, lots@);
    }
    let ordered = arrange(o, lots);
    *lots = ordered;
    Ok(())
}

/// Relief under min-tax: rank at the price, then walk.
pub open spec fn relieve_min_tax_spec(lots: Seq<Lot>, want: i64, price: i64, short_weight: i64, threshold: i64, as_of: Day) -> Result<(Seq<Taken>, Seq<Lot>, int), ReliefError> {
    let o = Order::MinTax { price, short_weight, threshold, as_of };
    if want < 0 {
        Err(ReliefError::NegativeSale { want })
    } else if short_weight <= 0 {
        Err(ReliefError::NotAWeight { weight: short_weight })
    } else if min_tax_refusal(o, lots) is Some {
        Err(min_tax_refusal(o, lots).unwrap())
    } else {
        walk(arranged(o, lots), want as int, 0, want)
    }
}

/// Relieve under min-tax: rank at the sale price, then walk. Conservation is
/// the walk's; the ranking decides the gain.
pub fn relieve_min_tax(lots: &[Lot], want: i64, price: i64, short_weight: i64, threshold: i64, as_of: Day) -> (r: Result<Relieved, ReliefError>)
    ensures
        is_walk(r, relieve_min_tax_spec(lots@, want, price, short_weight, threshold, as_of)),
        r matches Ok(rv) ==> conserves(lots@, want as int, rv.taken@, rv.left@, rv.cost as int),
{
    if want < 0 {
        return Err(ReliefError::NegativeSale { want });
    }
    if short_weight <= 0 {
        return Err(ReliefError::NotAWeight { weight: short_weight });
    }
    let mut ordered = copy_lots(lots);
    assert(ordered@ == lots@);
    match arrange_min_tax(&mut ordered, price, short_weight, threshold, as_of) {
        Err(e) => { return Err(e); }
        Ok(()) => {}
    }
    proof {
        let o = Order::MinTax { price, short_weight, threshold, as_of };
        lemma_min_tax_rankable(o, lots@);
        lemma_arranged(o, lots@);
        let a = arranged(o, lots@);
        assert forall|i: int| 0 <= i < a.len() implies a[i].units >= 0 by {
            let k = choose|k: int| 0 <= k < lots@.len() && a[i] == lots@[k];
            assert(lot_is_sound(lots@[k].units as int, lots@[k].cost as int));
        }
        lemma_walk_conserves(a, want as int, 0, want);
    }
    walk_ordered(&ordered, want)
}

} // verus!

verus! {

/// The first lot in a holding with this acquisition ordinal.
pub open spec fn find_seq(lots: Seq<Lot>, seq: u64) -> Option<Lot>
    decreases lots.len(),
{
    if lots.len() == 0 {
        None
    } else if lots[0].seq == seq {
        Some(lots[0])
    } else {
        find_seq(lots.drop_first(), seq)
    }
}

/// The lots a selection names, in the order named, or the first name that
/// refuses: one named twice, or one the holding does not have.
pub open spec fn select(lots: Seq<Lot>, named: Seq<u64>) -> Result<Seq<Lot>, ReliefError>
    decreases named.len(),
{
    if named.len() == 0 {
        Ok(Seq::empty())
    } else {
        match select(lots, named.drop_last()) {
            Err(e) => Err(e),
            Ok(p) => {
                let s = named.last();
                if named.drop_last().contains(s) {
                    Err(ReliefError::NamedTwice { seq: s })
                } else {
                    match find_seq(lots, s) {
                        None => Err(ReliefError::UnknownLot { seq: s }),
                        Some(l) => Ok(p.push(l)),
                    }
                }
            }
        }
    }
}

/// Whether a selection names lots the sale will not reach: a proper prefix
/// already covers `want`. A single named lot may be taken in part.
pub open spec fn overspecified_spec(picked: Seq<Lot>, want: int) -> bool
    decreases picked.len(),
{
    if picked.len() < 2 {
        false
    } else if want <= picked[0].units {
        true
    } else {
        overspecified_spec(picked.drop_first(), want - picked[0].units)
    }
}

/// The lots a selection does not name, in holding order.
pub open spec fn unnamed(lots: Seq<Lot>, named: Seq<u64>) -> Seq<Lot>
    decreases lots.len(),
{
    if lots.len() == 0 {
        lots
    } else if named.contains(lots.last().seq) {
        unnamed(lots.drop_last(), named)
    } else {
        unnamed(lots.drop_last(), named).push(lots.last())
    }
}

/// Relief under specific identification: the named lots, in the order named,
/// then what the selection left alone.
pub open spec fn relieve_spec_id_spec(lots: Seq<Lot>, want: i64, named: Seq<u64>) -> Result<(Seq<Taken>, Seq<Lot>, int), ReliefError> {
    if want < 0 {
        Err(ReliefError::NegativeSale { want })
    } else if named.len() == 0 {
        Err(ReliefError::Unnamed)
    } else {
        match select(lots, named) {
            Err(e) => Err(e),
            Ok(picked) => {
                if overspecified_spec(picked, want as int) {
                    Err(ReliefError::Overspecified { want })
                } else {
                    match walk(picked, want as int, 0, want) {
                        Err(e) => Err(e),
                        Ok((t, left, c)) => Ok((t, left + unnamed(lots, named), c)),
                    }
                }
            }
        }
    }
}

proof fn lemma_select_err_extends(lots: Seq<Lot>, named: Seq<u64>, k: int)
    requires
        0 <= k <= named.len(),
        select(lots, named.take(k)) is Err,
    ensures
        select(lots, named) == select(lots, named.take(k)),
    decreases named.len() - k,
{
    if k == named.len() {
        assert(named.take(k) =~= named);
    } else {
        assert(named.take(k + 1).drop_last() =~= named.take(k));
        lemma_select_err_extends(lots, named, k + 1);
    }
}

fn contains_seq(named: &[u64], upto: usize, s: u64) -> (r: bool)
    requires
        upto <= named@.len(),
    ensures
        r == named@.take(upto as int).contains(s),
{
    let mut i: usize = 0;
    while i < upto
        invariant
            upto <= named@.len(),
            0 <= i <= upto,
            forall|j: int| 0 <= j < i ==> named@[j] != s,
        decreases upto - i,
    {
        if named[i] == s {
            assert(named@.take(upto as int)[i as int] == s);
            return true;
        }
        i = i + 1;
    }
    assert forall|j: int| 0 <= j < upto implies named@.take(upto as int)[j] != s by {}
    false
}

fn find_lot(lots: &[Lot], seq: u64) -> (r: Option<Lot>)
    ensures
        r == find_seq(lots@, seq),
{
    let mut i: usize = 0;
    assert(lots@.skip(0) =~= lots@);
    while i < lots.len()
        invariant
            0 <= i <= lots@.len(),
            find_seq(lots@, seq) == find_seq(lots@.skip(i as int), seq),
        decreases lots@.len() - i,
    {
        assert(lots@.skip(i as int)[0] == lots@[i as int]);
        if lots[i].seq == seq {
            return Some(lots[i]);
        }
        assert(lots@.skip(i as int).drop_first() =~= lots@.skip(i + 1));
        i = i + 1;
    }
    assert(lots@.skip(i as int) =~= Seq::<Lot>::empty());
    None
}

fn overspecified(picked: &Vec<Lot>, want: i64) -> (r: bool)
    ensures
        r == overspecified_spec(picked@, want as int),
{
    if picked.len() < 2 {
        return false;
    }
    let mut remaining: i128 = want as i128;
    let mut i: usize = 0;
    assert(picked@.skip(0) =~= picked@);
    while i < picked.len()
        invariant
            picked@.len() >= 2,
            0 <= i < picked@.len(),
            i64::MIN - i * 9223372036854775808 <= remaining <= i64::MAX + i * 9223372036854775808,
            overspecified_spec(picked@, want as int) == overspecified_spec(picked@.skip(i as int), remaining as int),
        decreases picked@.len() - i,
    {
        let ghost rest = picked@.skip(i as int);
        assert(rest[0] == picked@[i as int]);
        assert(rest.drop_first() =~= picked@.skip(i + 1));
        if i + 1 == picked.len() {
            return false;
        }
        if remaining <= picked[i].units as i128 {
            return true;
        }
        remaining = remaining - picked[i].units as i128;
        i = i + 1;
    }
    false
}

/// Relieve under specific identification: take the named lots, in the order
/// named. An empty selection refuses rather than walking FIFO; a lot named
/// twice, a lot the holding does not have, or a selection naming lots the sale
/// will not reach, refuses.
pub fn relieve_spec_id(lots: &[Lot], want: i64, named: &[u64]) -> (r: Result<Relieved, ReliefError>)
    ensures
        is_walk(r, relieve_spec_id_spec(lots@, want, named@)),
{
    if want < 0 {
        return Err(ReliefError::NegativeSale { want });
    }
    if named.len() == 0 {
        return Err(ReliefError::Unnamed);
    }
    let mut picked: Vec<Lot> = Vec::new();
    let mut k: usize = 0;
    assert(named@.take(0) =~= Seq::<u64>::empty());
    while k < named.len()
        invariant
            want >= 0,
            named@.len() > 0,
            0 <= k <= named@.len(),
            select(lots@, named@.take(k as int)) == Ok::<Seq<Lot>, ReliefError>(picked@),
        decreases named@.len() - k,
    {
        let s = named[k];
        let ghost pre = named@.take(k as int);
        assert(named@.take(k + 1).drop_last() =~= pre);
        assert(named@.take(k + 1).last() == s);
        if contains_seq(named, k, s) {
            assert(select(lots@, named@.take(k + 1)) == Err::<Seq<Lot>, ReliefError>(ReliefError::NamedTwice { seq: s }));
            proof { lemma_select_err_extends(lots@, named@, k + 1); }
            return Err(ReliefError::NamedTwice { seq: s });
        }
        match find_lot(lots, s) {
            None => {
                assert(select(lots@, named@.take(k + 1)) == Err::<Seq<Lot>, ReliefError>(ReliefError::UnknownLot { seq: s }));
                proof { lemma_select_err_extends(lots@, named@, k + 1); }
                return Err(ReliefError::UnknownLot { seq: s });
            }
            Some(l) => { picked.push(l); }
        }
        k = k + 1;
    }
    assert(named@.take(named@.len() as int) =~= named@);
    if overspecified(&picked, want) {
        return Err(ReliefError::Overspecified { want });
    }
    let mut rest: Vec<Lot> = Vec::new();
    let mut i: usize = 0;
    assert(lots@.take(0) =~= Seq::<Lot>::empty());
    while i < lots.len()
        invariant
            0 <= i <= lots@.len(),
            rest@ == unnamed(lots@.take(i as int), named@),
        decreases lots@.len() - i,
    {
        let l = lots[i];
        assert(lots@.take(i + 1).drop_last() =~= lots@.take(i as int));
        assert(lots@.take(i + 1).last() == l);
        if !contains_seq(named, named.len(), l.seq) {
            rest.push(l);
        }
        assert(named@.take(named@.len() as int) =~= named@);
        i = i + 1;
    }
    assert(lots@.take(lots@.len() as int) =~= lots@);
    match walk_ordered(&picked, want) {
        Err(e) => Err(e),
        Ok(mut rv) => {
            let ghost l0 = rv.left@;
            rv.left.append(&mut rest);
            assert(rv.left@ =~= l0 + unnamed(lots@, named@));
            Ok(rv)
        }
    }
}

/// The sums a pool is made of, accumulated lot by lot in 64 bits.
pub open spec fn pool_sums(lots: Seq<Lot>) -> Result<(int, int), ReliefError>
    decreases lots.len(),
{
    if lots.len() == 0 {
        Ok((0, 0))
    } else {
        match pool_sums(lots.drop_last()) {
            Err(e) => Err(e),
            Ok((u, c)) => {
                if !fits(u + lots.last().units) {
                    Err(ReliefError::Overflow(Overflow { what: "the holding's units" }))
                } else if !fits(c + lots.last().cost) {
                    Err(ReliefError::Overflow(Overflow { what: "the holding's cost" }))
                } else {
                    Ok((u + lots.last().units, c + lots.last().cost))
                }
            }
        }
    }
}

pub proof fn lemma_pool_sums(lots: Seq<Lot>)
    ensures
        pool_sums(lots) matches Ok((u, c)) ==> u == units_of(lots) && c == cost_of(lots) && fits(u) && fits(c),
    decreases lots.len(),
{
    if lots.len() > 0 {
        lemma_pool_sums(lots.drop_last());
        crate::order::lemma_sums_drop_last(lots);
    }
}

/// The per-unit pooled basis of a holding: refused over no units, and refused
/// when it does not divide (Euclidean remainder).
pub open spec fn pooled_spec(lots: Seq<Lot>) -> Result<i64, ReliefError> {
    match pool_sums(lots) {
        Err(e) => Err(e),
        Ok((u, c)) => {
            if u <= 0 {
                Err(ReliefError::EmptyPool { units: u as i64 })
            } else if c % u != 0 {
                Err(ReliefError::PoolIndivisible { units: u as i64, cost: c as i64 })
            } else {
                Ok((c / u) as i64)
            }
        }
    }
}

fn sum_pool(lots: &[Lot]) -> (r: Result<(i64, i64), ReliefError>)
    ensures
        match r {
            Ok((u, c)) => pool_sums(lots@) == Ok::<(int, int), ReliefError>((u as int, c as int)),
            Err(e) => pool_sums(lots@) == Err::<(int, int), ReliefError>(e),
        },
{
    let mut units: i64 = 0;
    let mut cost: i64 = 0;
    let mut i: usize = 0;
    assert(lots@.take(0) =~= Seq::<Lot>::empty());
    while i < lots.len()
        invariant
            0 <= i <= lots@.len(),
            pool_sums(lots@.take(i as int)) == Ok::<(int, int), ReliefError>((units as int, cost as int)),
        decreases lots@.len() - i,
    {
        let l = lots[i];
        assert(lots@.take(i + 1).drop_last() =~= lots@.take(i as int));
        assert(lots@.take(i + 1).last() == l);
        units = match checked::add(units, l.units, "the holding's units") {
            Ok(u) => u,
            Err(e) => {
                assert(pool_sums(lots@.take(i + 1)) is Err);
                proof { lemma_pool_err_extends(lots@, i + 1); }
                return Err(ReliefError::Overflow(e));
            }
        };
        cost = match checked::add(cost, l.cost, "the holding's cost") {
            Ok(c) => c,
            Err(e) => {
                proof { lemma_pool_err_extends(lots@, i + 1); }
                return Err(ReliefError::Overflow(e));
            }
        };
        i = i + 1;
    }
    assert(lots@.take(lots@.len() as int) =~= lots@);
    Ok((units, cost))
}

proof fn lemma_pool_err_extends(lots: Seq<Lot>, k: int)
    requires
        0 <= k <= lots.len(),
        pool_sums(lots.take(k)) is Err,
    ensures
        pool_sums(lots) == pool_sums(lots.take(k)),
    decreases lots.len() - k,
{
    if k == lots.len() {
        assert(lots.take(k) =~= lots);
    } else {
        assert(lots.take(k + 1).drop_last() =~= lots.take(k));
        lemma_pool_err_extends(lots, k + 1);
    }
}

/// The per-unit pooled basis of a holding.
pub fn pooled_basis(lots: &[Lot]) -> (r: Result<i64, ReliefError>)
    ensures
        r == pooled_spec(lots@),
{
    let (units, cost) = match sum_pool(lots) {
        Ok(p) => p,
        Err(e) => { return Err(e); }
    };
    if units <= 0 {
        return Err(ReliefError::EmptyPool { units });
    }
    if cost.checked_rem_euclid(units) != Some(0i64) {
        return Err(ReliefError::PoolIndivisible { units, cost });
    }
    proof {
        assert(i64::MIN <= cost as int / units as int <= i64::MAX) by (nonlinear_arith)
            requires units >= 1, i64::MIN <= cost <= i64::MAX;
    }
    match cost.checked_div_euclid(units) {
        Some(p) => Ok(p),
        None => Err(ReliefError::EmptyPool { units }),
    }
}

/// The acquisition date a pool carries: the date every lot agrees on, or none.
pub open spec fn pool_acquired_spec(lots: Seq<Lot>) -> Option<Day> {
    if lots.len() > 0 && lots[0].acquired is Some
        && (forall|i: int| 0 <= i < lots.len() ==> #[trigger] lots[i].acquired == lots[0].acquired) {
        lots[0].acquired
    } else {
        None
    }
}

/// The acquisition date the pool carries, if every lot agrees. Mixed or missing
/// dates stay unset rather than being invented.
fn pool_acquired(lots: &[Lot]) -> (r: Option<Day>)
    ensures
        r == pool_acquired_spec(lots@),
{
    if lots.len() == 0 {
        return None;
    }
    let first = match lots[0].acquired {
        None => { return None; }
        Some(d) => d,
    };
    let mut i: usize = 1;
    while i < lots.len()
        invariant
            1 <= i <= lots@.len(),
            lots@[0].acquired == Some(first),
            forall|j: int| 0 <= j < i ==> #[trigger] lots@[j].acquired == Some(first),
        decreases lots@.len() - i,
    {
        match lots[i].acquired {
            Some(d) => {
                if d != first {
                    return None;
                }
            }
            None => { return None; }
        }
        i = i + 1;
    }
    Some(first)
}

/// Relief under average cost: pool the holding, slice `want` units off it. The
/// remainder is one pooled lot, sequence 0 — the holding, not a surviving lot.
pub open spec fn relieve_average_cost_spec(lots: Seq<Lot>, want: i64) -> Result<(Seq<Taken>, Seq<Lot>, int), ReliefError> {
    if want < 0 {
        Err(ReliefError::NegativeSale { want })
    } else if want == 0 {
        Ok((Seq::empty(), lots, 0))
    } else {
        match pooled_spec(lots) {
            Err(e) => Err(e),
            Ok(unit) => {
                let u = units_of(lots);
                let c = cost_of(lots);
                if want > u {
                    Err(ReliefError::PoolShort { want, units: u as i64 })
                } else if !fits(unit * want) {
                    Err(ReliefError::Overflow(Overflow { what: "the pooled basis given up" }))
                } else if !fits(c - unit * want) {
                    Err(ReliefError::Overflow(Overflow { what: "the pooled leftover cost" }))
                } else {
                    let acquired = pool_acquired_spec(lots);
                    let taken = seq![Taken { seq: 0, units: want, cost: (unit * want) as i64, acquired }];
                    let left = if u - want == 0 {
                        Seq::empty()
                    } else {
                        seq![Lot { seq: 0, units: (u - want) as i64, cost: (c - unit * want) as i64, acquired }]
                    };
                    Ok((taken, left, unit * want))
                }
            }
        }
    }
}

/// Relieve under average cost: pool the holding, then slice the pool.
pub fn relieve_average_cost(lots: &[Lot], want: i64) -> (r: Result<Relieved, ReliefError>)
    ensures
        is_walk(r, relieve_average_cost_spec(lots@, want)),
{
    if want < 0 {
        return Err(ReliefError::NegativeSale { want });
    }
    if want == 0 {
        return Ok(Relieved { taken: Vec::new(), left: copy_lots(lots), cost: 0 });
    }
    let unit = match pooled_basis(lots) {
        Ok(u) => u,
        Err(e) => { return Err(e); }
    };
    let (units, cost) = match sum_pool(lots) {
        Ok(p) => p,
        Err(e) => { return Err(e); }
    };
    proof {
        lemma_pool_sums(lots@);
    }
    if want > units {
        return Err(ReliefError::PoolShort { want, units });
    }
    let taken_cost = match checked::mul(unit, want, "the pooled basis given up") {
        Ok(c) => c,
        Err(e) => { return Err(ReliefError::Overflow(e)); }
    };
    let left_units = units - want;
    let left_cost = match checked::sub(cost, taken_cost, "the pooled leftover cost") {
        Ok(c) => c,
        Err(e) => { return Err(ReliefError::Overflow(e)); }
    };
    let acquired = pool_acquired(lots);
    let mut taken: Vec<Taken> = Vec::new();
    taken.push(Taken { seq: 0, units: want, cost: taken_cost, acquired });
    let mut left: Vec<Lot> = Vec::new();
    if left_units != 0 {
        left.push(Lot { seq: 0, units: left_units, cost: left_cost, acquired });
    }
    assert(left@ =~= (if units - want == 0 { Seq::<Lot>::empty() } else { seq![Lot { seq: 0, units: left_units, cost: left_cost, acquired }] }));
    Ok(Relieved { taken, left, cost: taken_cost })
}

} // verus!

verus! {

/// Whether every lot of `a` is one of the lots of `b`.
pub open spec fn drawn_from(a: Seq<Lot>, b: Seq<Lot>) -> bool {
    forall|j: int| 0 <= j < a.len() ==> exists|i: int| 0 <= i < b.len() && #[trigger] a[j] == b[i]
}

/// A holding drawn from a sound holding is sound.
pub proof fn lemma_drawn_sound(a: Seq<Lot>, b: Seq<Lot>)
    requires
        drawn_from(a, b),
        all_sound(b),
    ensures
        all_sound(a),
{
    assert forall|j: int| 0 <= j < a.len() implies #[trigger] lot_is_sound(a[j].units as int, a[j].cost as int) by {
        let i = choose|i: int| 0 <= i < b.len() && a[j] == b[i];
        assert(lot_is_sound(b[i].units as int, b[i].cost as int));
    }
}

/// What a walk leaves of a sound holding is sound: untouched lots, and at most
/// one partial remainder that still holds units.
pub proof fn lemma_walk_left_sound(lots: Seq<Lot>, want: int, acc: int, want0: i64)
    requires
        all_sound(lots),
        want >= 0,
    ensures
        walk(lots, want, acc, want0) matches Ok((t, left, c)) ==> all_sound(left),
    decreases lots.len(),
{
    if want != 0 && lots.len() > 0 {
        let l = lots[0];
        assert forall|i: int| 0 <= i < lots.drop_first().len() implies #[trigger] lot_is_sound(lots.drop_first()[i].units as int, lots.drop_first()[i].cost as int) by {
            assert(lots.drop_first()[i] == lots[i + 1]);
        }
        assert(lot_is_sound(l.units as int, l.cost as int));
        if takes_whole_lot(l.units as int, want) {
            lemma_walk_left_sound(lots.drop_first(), want - l.units, acc + l.cost, want0);
        } else if fits(l.cost * want) && partial_divides(l.cost as int, want, l.units as int) {
            lemma_partial_bounds(l.cost as int, want, l.units as int);
            let part = partial_cost(l.cost as int, want, l.units as int);
            if fits(acc + part) {
                let l1 = Lot { seq: l.seq, units: (l.units - want) as i64, cost: (l.cost - part) as i64, acquired: l.acquired };
                let left = seq![l1] + lots.drop_first();
                assert forall|i: int| 0 <= i < left.len() implies #[trigger] lot_is_sound(left[i].units as int, left[i].cost as int) by {
                    if i > 0 {
                        assert(left[i] == lots.drop_first()[i - 1]);
                    }
                }
            }
        }
    } else if want == 0 {
    }
}

proof fn lemma_find_seq_in(lots: Seq<Lot>, seq: u64)
    ensures
        find_seq(lots, seq) matches Some(l) ==> exists|i: int| 0 <= i < lots.len() && lots[i] == l,
    decreases lots.len(),
{
    if lots.len() > 0 {
        lemma_find_seq_in(lots.drop_first(), seq);
        if lots[0].seq != seq {
            if let Some(l) = find_seq(lots.drop_first(), seq) {
                let i = choose|i: int| 0 <= i < lots.drop_first().len() && lots.drop_first()[i] == l;
                assert(lots[i + 1] == l);
            }
        }
    }
}

/// The lots a selection names are lots of the holding.
pub proof fn lemma_select_drawn(lots: Seq<Lot>, named: Seq<u64>)
    ensures
        select(lots, named) matches Ok(p) ==> drawn_from(p, lots),
    decreases named.len(),
{
    if named.len() > 0 {
        lemma_select_drawn(lots, named.drop_last());
        lemma_find_seq_in(lots, named.last());
        if let Ok(p) = select(lots, named) {
            let p0 = select(lots, named.drop_last()).unwrap();
            assert(p == p0.push(find_seq(lots, named.last()).unwrap()));
            assert forall|j: int| 0 <= j < p.len() implies exists|i: int| 0 <= i < lots.len() && #[trigger] p[j] == lots[i] by {
                if j < p0.len() {
                    assert(p[j] == p0[j]);
                }
            }
        }
    }
}

/// The lots a selection leaves alone are lots of the holding.
pub proof fn lemma_unnamed_drawn(lots: Seq<Lot>, named: Seq<u64>)
    ensures
        drawn_from(unnamed(lots, named), lots),
    decreases lots.len(),
{
    if lots.len() > 0 {
        lemma_unnamed_drawn(lots.drop_last(), named);
        let u0 = unnamed(lots.drop_last(), named);
        let u = unnamed(lots, named);
        assert forall|j: int| 0 <= j < u.len() implies exists|i: int| 0 <= i < lots.len() && #[trigger] u[j] == lots[i] by {
            if j < u0.len() {
                assert(u[j] == u0[j]);
                let i = choose|i: int| 0 <= i < lots.drop_last().len() && u0[j] == lots.drop_last()[i];
                assert(lots.drop_last()[i] == lots[i]);
            } else {
                assert(u[j] == lots[lots.len() - 1]);
            }
        }
    }
}

} // verus!
