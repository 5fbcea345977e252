//! The order in which a method gives lots up, and the stable sort that applies it.
//!
//! The tiebreak on the acquisition ordinal applies ONLY on a tie: a comparator
//! written as "dearer, or earlier" is true whenever the sequence ascends and
//! quietly turns HIFO into FIFO. Per-unit cost is compared by cross-multiplying
//! in 128 bits, never by dividing, so lots whose per-unit costs differ by less
//! than a minor unit are not tied.

use vstd::prelude::*;
use crate::relief::{Day, Lot, Method};

verus! {

/// How a holding is ranked: by an ordering method, or by tax at a sale price.
#[derive(Clone, Copy, Debug, PartialEq, Eq, Structural)]
pub enum Order {
    By(Method),
    MinTax { price: i64, short_weight: i64, threshold: i64, as_of: Day },
}

/// `a` before `b` on an optional date, where no date sorts first.
pub open spec fn date_lt(a: Option<Day>, b: Option<Day>) -> bool {
    match (a, b) {
        (None, Some(_)) => true,
        (Some(x), Some(y)) => x < y,
        _ => false,
    }
}

/// Whether a holding period is long-term: the threshold day itself is.
pub open spec fn long_term(threshold: int, acquired: int, as_of: int) -> bool {
    as_of - acquired >= threshold
}

/// Tax of giving up a lot at a per-unit sale price, short-term results weighted.
pub open spec fn tax_at(short_weight: int, price: int, l: Lot, short: bool) -> int {
    let gain = price * l.units - l.cost;
    if short { gain * short_weight } else { gain }
}

/// Whether a dated lot is short-term as of a day.
pub open spec fn lot_short(threshold: int, as_of: int, l: Lot) -> bool {
    !long_term(threshold, l.acquired.unwrap() as int, as_of)
}

/// A lot's tax at a sale price.
pub open spec fn lot_tax(o: Order, l: Lot) -> int {
    match o {
        Order::MinTax { price, short_weight, threshold, as_of } =>
            tax_at(short_weight as int, price as int, l, lot_short(threshold as int, as_of as int, l)),
        _ => 0,
    }
}

/// Whether `a` is cheaper in tax per unit than `b`, cross-multiplied.
pub open spec fn cheaper_tax(o: Order, a: Lot, b: Lot) -> bool {
    lot_tax(o, a) * b.units < lot_tax(o, b) * a.units
}

/// Whether `a` goes strictly before `b` in this order.
pub open spec fn goes_before(o: Order, a: Lot, b: Lot) -> bool {
    match o {
        Order::By(Method::Fifo) => a.seq < b.seq,
        Order::By(Method::Lifo) => a.seq > b.seq,
        Order::By(Method::Hifo) =>
            a.cost * b.units > b.cost * a.units ||
            (a.cost * b.units == b.cost * a.units && a.seq < b.seq),
        Order::By(Method::Lofo) =>
            a.cost * b.units < b.cost * a.units ||
            (a.cost * b.units == b.cost * a.units && a.seq < b.seq),
        Order::By(Method::LongestHeldFirst) =>
            date_lt(a.acquired, b.acquired) || (a.acquired == b.acquired && a.seq < b.seq),
        Order::By(Method::ShortestHeldFirst) =>
            date_lt(b.acquired, a.acquired) || (a.acquired == b.acquired && a.seq < b.seq),
        Order::MinTax { .. } =>
            cheaper_tax(o, a, b) || (!cheaper_tax(o, b, a) && a.seq < b.seq),
    }
}

/// Insert `x` in front of the first lot it goes strictly before.
pub open spec fn insert_ranked(o: Order, x: Lot, s: Seq<Lot>) -> Seq<Lot>
    decreases s.len(),
{
    if s.len() == 0 {
        seq![x]
    } else if goes_before(o, x, s[0]) {
        seq![x] + s
    } else {
        seq![s[0]] + insert_ranked(o, x, s.drop_first())
    }
}

/// A holding in the order `o` gives it up: a stable insertion sort, so lots
/// that tie keep the order they were handed in.
pub open spec fn arranged(o: Order, s: Seq<Lot>) -> Seq<Lot>
    decreases s.len(),
{
    if s.len() == 0 {
        s
    } else {
        insert_ranked(o, s.last(), arranged(o, s.drop_last()))
    }
}

/// Whether a lot's tax at the sale price can be computed in 64 bits: it is
/// dated, and the proceeds, the gain and the weighted gain each fit.
pub open spec fn tax_computes(o: Order, l: Lot) -> bool {
    match o {
        Order::MinTax { price, short_weight, threshold, as_of } => {
            &&& l.acquired.is_some()
            &&& crate::checked::fits(price * l.units)
            &&& crate::checked::fits(price * l.units - l.cost)
            &&& lot_short(threshold as int, as_of as int, l) ==> crate::checked::fits((price * l.units - l.cost) * short_weight)
        },
        _ => true,
    }
}

/// Whether every lot the order ranks can be ranked without leaving 64 bits.
pub open spec fn rankable(o: Order, s: Seq<Lot>) -> bool {
    forall|i: int| 0 <= i < s.len() ==> tax_computes(o, #[trigger] s[i])
}

fn tax_of(o: Order, l: &Lot) -> (t: i64)
    requires
        o is MinTax,
        tax_computes(o, *l),
    ensures
        t == lot_tax(o, *l),
{
    match o {
        Order::MinTax { price, short_weight, threshold, as_of } => {
            let acq = l.acquired.unwrap();
            let short = !((as_of as i64) - (acq as i64) >= threshold);
            let gain = price * l.units - l.cost;
            if short {
                gain * short_weight
            } else {
                gain
            }
        }
        _ => 0,
    }
}

pub(crate) proof fn lemma_cross(a: int, b: int)
    requires
        i64::MIN <= a <= i64::MAX,
        i64::MIN <= b <= i64::MAX,
    ensures
        -0x4000_0000_0000_0000_0000_0000_0000_0000 <= a * b <= 0x4000_0000_0000_0000_0000_0000_0000_0000,
{
    assert(-0x4000_0000_0000_0000_0000_0000_0000_0000 <= a * b <= 0x4000_0000_0000_0000_0000_0000_0000_0000) by (nonlinear_arith)
        requires
            -0x8000_0000_0000_0000 <= a <= 0x7fff_ffff_ffff_ffff,
            -0x8000_0000_0000_0000 <= b <= 0x7fff_ffff_ffff_ffff;
}

/// Whether `a` goes strictly before `b` in this order.
pub fn before(o: Order, a: &Lot, b: &Lot) -> (r: bool)
    requires
        tax_computes(o, *a),
        tax_computes(o, *b),
    ensures
        r == goes_before(o, *a, *b),
{
    match o {
        Order::By(m) => {
            match m {
                Method::Fifo => a.seq < b.seq,
                Method::Lifo => a.seq > b.seq,
                Method::Hifo | Method::Lofo => {
                    proof {
                        lemma_cross(a.cost as int, b.units as int);
                        lemma_cross(b.cost as int, a.units as int);
                    }
                    let x: i128 = (a.cost as i128) * (b.units as i128);
                    let y: i128 = (b.cost as i128) * (a.units as i128);
                    if m == Method::Hifo {
                        x > y || (x == y && a.seq < b.seq)
                    } else {
                        x < y || (x == y && a.seq < b.seq)
                    }
                }
                Method::LongestHeldFirst | Method::ShortestHeldFirst => {
                    let (p, q) = if m == Method::LongestHeldFirst { (a.acquired, b.acquired) } else { (b.acquired, a.acquired) };
                    let lt = match (p, q) {
                        (None, Some(_)) => true,
                        (Some(x), Some(y)) => x < y,
                        _ => false,
                    };
                    let eq = match (a.acquired, b.acquired) {
                        (None, None) => true,
                        (Some(x), Some(y)) => x == y,
                        _ => false,
                    };
                    lt || (eq && a.seq < b.seq)
                }
            }
        }
        Order::MinTax { .. } => {
            let ta = tax_of(o, a);
            let tb = tax_of(o, b);
            proof {
                lemma_cross(ta as int, b.units as int);
                lemma_cross(tb as int, a.units as int);
            }
            let ab = (ta as i128) * (b.units as i128) < (tb as i128) * (a.units as i128);
            let ba = (tb as i128) * (a.units as i128) < (ta as i128) * (b.units as i128);
            ab || (!ba && a.seq < b.seq)
        }
    }
}

pub proof fn lemma_insert_at(o: Order, x: Lot, s: Seq<Lot>, p: int)
    requires
        0 <= p <= s.len(),
        forall|j: int| 0 <= j < p ==> !goes_before(o, x, #[trigger] s[j]),
        p < s.len() ==> goes_before(o, x, s[p]),
    ensures
        insert_ranked(o, x, s) =~= s.take(p).push(x) + s.skip(p),
    decreases s.len(),
{
    if s.len() == 0 {
    } else if p == 0 {
        assert(s.skip(0) =~= s);
    } else {
        assert(!goes_before(o, x, s[0]));
        let t = s.drop_first();
        assert forall|j: int| 0 <= j < p - 1 implies !goes_before(o, x, #[trigger] t[j]) by {
            assert(t[j] == s[j + 1]);
        }
        if p - 1 < t.len() {
            assert(t[p - 1] == s[p]);
        }
        lemma_insert_at(o, x, t, p - 1);
        assert(t.take(p - 1) =~= s.take(p).drop_first());
        assert(t.skip(p - 1) =~= s.skip(p));
    }
}

fn before_ranked(o: Order, x: &Lot, y: &Lot, Ghost(lots): Ghost<Seq<Lot>>, Ghost(k): Ghost<int>) -> (r: bool)
    requires
        rankable(o, lots),
        0 <= k < lots.len(),
        *x == lots[k],
        exists|i: int| 0 <= i < k && *y == lots[i],
    ensures
        r == goes_before(o, *x, *y),
{
    proof {
        let i = choose|i: int| 0 <= i < k && *y == lots[i];
        assert(tax_computes(o, lots[i]));
        assert(tax_computes(o, lots[k]));
    }
    before(o, x, y)
}

/// Arrange a holding in order `o`.
pub fn arrange(o: Order, lots: &[Lot]) -> (r: Vec<Lot>)
    requires
        rankable(o, lots@),
    ensures
        r@ == arranged(o, lots@),
{
    let n = lots.len();
    let mut res: Vec<Lot> = Vec::new();
    let mut k: usize = 0;
    assert(lots@.take(0) =~= Seq::<Lot>::empty());
    while k < n
        invariant
            n == lots@.len(),
            0 <= k <= n,
            rankable(o, lots@),
            res@ == arranged(o, lots@.take(k as int)),
            forall|j: int| 0 <= j < res@.len() ==> exists|i: int| 0 <= i < k && #[trigger] res@[j] == lots@[i],
        decreases n - k,
    {
        let x = lots[k];
        let mut p: usize = 0;
        while p < res.len() && !before_ranked(o, &x, &res[p], Ghost(lots@), Ghost(k as int))
            invariant
                n == lots@.len(),
                0 <= k < n,
                x == lots@[k as int],
                rankable(o, lots@),
                0 <= p <= res@.len(),
                forall|j: int| 0 <= j < p ==> !goes_before(o, x, #[trigger] res@[j]),
                forall|j: int| 0 <= j < res@.len() ==> exists|i: int| 0 <= i < k && #[trigger] res@[j] == lots@[i],
            decreases res@.len() - p,
        {
            p = p + 1;
        }
        proof {
            lemma_insert_at(o, x, res@, p as int);
            assert(lots@.take(k + 1).drop_last() =~= lots@.take(k as int));
            assert(lots@.take(k + 1).last() == x);
        }
        let ghost before_insert = res@;
        res.insert(p, x);
        assert(res@ =~= before_insert.take(p as int).push(x) + before_insert.skip(p as int));
        k = k + 1;
        assert forall|j: int| 0 <= j < res@.len() implies exists|i: int| 0 <= i < k && #[trigger] res@[j] == lots@[i] by {
            if j < p {
                assert(res@[j] == before_insert[j]);
            } else if j == p {
                assert(res@[j] == lots@[k - 1]);
            } else {
                assert(res@[j] == before_insert[j - 1]);
            }
        }
    }
    assert(lots@.take(n as int) =~= lots@);
    res
}

} // verus!

verus! {

use crate::relief::{units_of, cost_of};

/// Units and cost of a holding split at its last lot.
pub proof fn lemma_sums_drop_last(s: Seq<Lot>)
    requires
        s.len() > 0,
    ensures
        units_of(s) == units_of(s.drop_last()) + s.last().units,
        cost_of(s) == cost_of(s.drop_last()) + s.last().cost,
    decreases s.len(),
{
    if s.len() == 1 {
        assert(s.drop_last() =~= Seq::<Lot>::empty());
        assert(s.drop_first() =~= Seq::<Lot>::empty());
    } else {
        lemma_sums_drop_last(s.drop_first());
        assert(s.drop_first().drop_last() =~= s.drop_last().drop_first());
    }
}

proof fn lemma_insert_ranked(o: Order, x: Lot, t: Seq<Lot>)
    ensures
        insert_ranked(o, x, t).len() == t.len() + 1,
        units_of(insert_ranked(o, x, t)) == units_of(t) + x.units,
        cost_of(insert_ranked(o, x, t)) == cost_of(t) + x.cost,
        forall|j: int| 0 <= j < t.len() + 1 ==>
            #[trigger] insert_ranked(o, x, t)[j] == x || exists|i: int| 0 <= i < t.len() && insert_ranked(o, x, t)[j] == t[i],
    decreases t.len(),
{
    reveal_with_fuel(units_of, 2);
    reveal_with_fuel(cost_of, 2);
    let r = insert_ranked(o, x, t);
    if t.len() == 0 {
        assert(seq![x].drop_first() =~= Seq::<Lot>::empty());
    } else if goes_before(o, x, t[0]) {
        assert((seq![x] + t).drop_first() =~= t);
        assert forall|j: int| 0 <= j < t.len() + 1 implies
            #[trigger] r[j] == x || exists|i: int| 0 <= i < t.len() && r[j] == t[i] by {
            if j > 0 {
                assert(r[j] == t[j - 1]);
            }
        }
    } else {
        let tail = insert_ranked(o, x, t.drop_first());
        lemma_insert_ranked(o, x, t.drop_first());
        assert((seq![t[0]] + tail).drop_first() =~= tail);
        assert forall|j: int| 0 <= j < t.len() + 1 implies
            #[trigger] r[j] == x || exists|i: int| 0 <= i < t.len() && r[j] == t[i] by {
            if j == 0 {
                assert(r[0] == t[0]);
            } else {
                assert(r[j] == tail[j - 1]);
                if tail[j - 1] != x {
                    let i = choose|i: int| 0 <= i < t.drop_first().len() && tail[j - 1] == t.drop_first()[i];
                    assert(t.drop_first()[i] == t[i + 1]);
                }
            }
        }
    }
}

/// Arranging a holding reorders it and does nothing else: the same number of
/// lots, every one of them from the holding, carrying the same units and cost.
pub proof fn lemma_arranged(o: Order, s: Seq<Lot>)
    ensures
        arranged(o, s).len() == s.len(),
        units_of(arranged(o, s)) == units_of(s),
        cost_of(arranged(o, s)) == cost_of(s),
        forall|j: int| 0 <= j < s.len() ==> exists|i: int| 0 <= i < s.len() && #[trigger] arranged(o, s)[j] == s[i],
    decreases s.len(),
{
    if s.len() > 0 {
        let t = arranged(o, s.drop_last());
        lemma_arranged(o, s.drop_last());
        lemma_insert_ranked(o, s.last(), t);
        lemma_sums_drop_last(s);
        let r = arranged(o, s);
        assert forall|j: int| 0 <= j < s.len() implies exists|i: int| 0 <= i < s.len() && #[trigger] r[j] == s[i] by {
            if r[j] == s.last() {
                assert(r[j] == s[s.len() - 1]);
            } else {
                let i = choose|i: int| 0 <= i < t.len() && r[j] == t[i];
                let i2 = choose|i2: int| 0 <= i2 < s.drop_last().len() && t[i] == s.drop_last()[i2];
                assert(s.drop_last()[i2] == s[i2]);
            }
        }
    }
}

} // verus!

verus! {

/// Inserting at a rank adds one lot and otherwise keeps the lots it had.
pub proof fn lemma_insert_ranked_drawn(o: Order, x: Lot, t: Seq<Lot>)
    ensures
        insert_ranked(o, x, t).len() == t.len() + 1,
        forall|j: int| 0 <= j < t.len() + 1 ==>
            #[trigger] insert_ranked(o, x, t)[j] == x || exists|i: int| 0 <= i < t.len() && insert_ranked(o, x, t)[j] == t[i],
{
    lemma_insert_ranked(o, x, t);
}

} // verus!
