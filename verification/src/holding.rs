//! A position's open lots, kept in the order its method gives them up.
//!
//! The holding owns its order and a relief takes from the front, so ordering
//! work is paid when the method changes — a configuration promotion — rather
//! than on every sale. A husk is refused when it is offered, and a refused
//! relief leaves the open lots exactly as they were.

use vstd::prelude::*;
use crate::checked::{self, fits, Overflow};
use crate::order::{Order, arranged, arrange, insert_ranked, before, lemma_arranged, rankable, tax_computes};
use crate::relief::{Lot, Method, Relief, ReliefError, Day, all_sound, lot_is_sound, walk, walk_ordered, find_seq, units_of, cost_of, taken_units, taken_cost, lemma_walk_conserves, lemma_walk_left_sound, drawn_from, lemma_drawn_sound, relieve_min_tax_spec, relieve_spec_id_spec, relieve_average_cost_spec};

verus! {

/// Where a newly opened lot goes in a holding kept under `m`: at the back for
/// FIFO, at the front for LIFO, and at its rank for the ranked methods.
pub open spec fn place(m: Method, lot: Lot, q: Seq<Lot>) -> Seq<Lot> {
    match m {
        Method::Fifo => q.push(lot),
        Method::Lifo => seq![lot] + q,
        _ => insert_ranked(Order::By(m), lot, q),
    }
}

/// A holding kept under `from`, put into `to`: settled in acquisition order,
/// then ranked. Unchanged when the method does not change.
pub open spec fn reordered(from: Method, to: Method, q: Seq<Lot>) -> Seq<Lot> {
    if from == to {
        q
    } else {
        arranged(Order::By(to), arranged(Order::By(Method::Fifo), q))
    }
}

/// How many lots have no acquisition date.
pub open spec fn count_undated(q: Seq<Lot>) -> nat
    decreases q.len(),
{
    if q.len() == 0 {
        0
    } else {
        (if q[0].acquired is None { 1nat } else { 0nat }) + count_undated(q.drop_first())
    }
}

/// The open lots with the first one of this ordinal taken out.
pub open spec fn without_seq(q: Seq<Lot>, seq: u64) -> Seq<Lot>
    decreases q.len(),
{
    if q.len() == 0 {
        q
    } else if q[0].seq == seq {
        q.drop_first()
    } else {
        seq![q[0]] + without_seq(q.drop_first(), seq)
    }
}

/// A position's open lots, kept so the next one to give up is at the front.
#[derive(Debug)]
pub struct Holding {
    order: Method,
    open: Vec<Lot>,
}

impl Clone for Holding {
    fn clone(&self) -> (h: Self)
        ensures
            h.order() == self.order(),
            h.queue() == self.queue(),
    {
        proof { use_type_invariant(self); }
        Holding { order: self.order, open: self.open.clone() }
    }
}

impl Holding {
    #[verifier::type_invariant]
    spec fn sound(self) -> bool {
        all_sound(self.open@)
    }

    /// The method the holding is kept under.
    pub closed spec fn order(self) -> Method {
        self.order
    }

    /// The open lots, in the order they would be given up.
    pub closed spec fn queue(self) -> Seq<Lot> {
        self.open@
    }

    /// A holding that gives lots up under `order`.
    pub fn new(order: Method) -> (h: Self)
        ensures
            h.order() == order,
            h.queue() == Seq::<Lot>::empty(),
    {
        Holding { order, open: Vec::new() }
    }

    /// How many lots are open.
    pub fn len(&self) -> (n: usize)
        ensures
            n == self.queue().len(),
    {
        self.open.len()
    }

    /// Whether no lot is open.
    pub fn is_empty(&self) -> (b: bool)
        ensures
            b == (self.queue().len() == 0),
    {
        self.open.len() == 0
    }

    fn rank_insert(m: Method, lot: Lot, q: &Vec<Lot>) -> (r: Vec<Lot>)
        ensures
            r@ == insert_ranked(Order::By(m), lot, q@),
    {
        let o = Order::By(m);
        let mut p: usize = 0;
        while p < q.len() && !before(o, &lot, &q[p])
            invariant
                o == Order::By(m),
                0 <= p <= q@.len(),
                forall|j: int| 0 <= j < p ==> !crate::order::goes_before(o, lot, #[trigger] q@[j]),
            decreases q@.len() - p,
        {
            p = p + 1;
        }
        proof {
            crate::order::lemma_insert_at(o, lot, q@, p as int);
        }
        let mut r = q.clone();
        r.insert(p, lot);
        assert(r@ =~= q@.take(p as int).push(lot) + q@.skip(p as int));
        r
    }

    /// Open a lot. A husk — a lot holding nothing that owes something — is
    /// refused here, where it is offered, and does not enter the holding.
    pub fn push(&mut self, lot: Lot) -> (r: Result<(), ReliefError>)
        ensures
            final(self).order() == old(self).order(),
            lot_is_sound(lot.units as int, lot.cost as int) ==> r == Ok::<(), ReliefError>(())
                && final(self).queue() == place(old(self).order(), lot, old(self).queue()),
            !lot_is_sound(lot.units as int, lot.cost as int) ==> r == Err::<(), ReliefError>(ReliefError::Husk { seq: lot.seq, units: lot.units, cost: lot.cost })
                && final(self).queue() == old(self).queue(),
    {
        proof { use_type_invariant(&*self); }
        if !(lot.units > 0 || (lot.units == 0 && lot.cost == 0)) {
            return Err(ReliefError::Husk { seq: lot.seq, units: lot.units, cost: lot.cost });
        }
        let next = match self.order {
            Method::Fifo => {
                let mut v = self.open.clone();
                v.push(lot);
                v
            }
            Method::Lifo => {
                let mut v = self.open.clone();
                v.insert(0, lot);
                assert(v@ =~= seq![lot] + self.open@);
                v
            }
            _ => Self::rank_insert(self.order, lot, &self.open),
        };
        proof {
            if self.order != Method::Fifo && self.order != Method::Lifo {
                crate::order::lemma_insert_ranked_drawn(Order::By(self.order), lot, self.open@);
            }
            assert forall|i: int| 0 <= i < next@.len() implies #[trigger] lot_is_sound(next@[i].units as int, next@[i].cost as int) by {
                if next@[i] != lot {
                    if self.order == Method::Fifo {
                        assert(next@[i] == self.open@[i]);
                    } else if self.order == Method::Lifo {
                        assert(next@[i] == self.open@[i - 1]);
                    } else {
                        let k = choose|k: int| 0 <= k < self.open@.len() && next@[i] == self.open@[k];
                        assert(lot_is_sound(self.open@[k].units as int, self.open@[k].cost as int));
                    }
                }
            }
        }
        self.open = next;
        Ok(())
    }

    /// Settle `lots` into the holding's own order.
    fn settle(&mut self, lots: &Vec<Lot>)
        requires
            all_sound(lots@),
        ensures
            final(self).order() == old(self).order(),
            final(self).queue() == arranged(Order::By(old(self).order()), lots@),
    {
        let o = Order::By(self.order);
        assert(rankable(o, lots@)) by {
            assert forall|i: int| 0 <= i < lots@.len() implies tax_computes(o, #[trigger] lots@[i]) by {}
        }
        let next = arrange(o, lots);
        proof {
            lemma_arranged(o, lots@);
            lemma_drawn_sound(next@, lots@);
        }
        self.open = next;
    }

    /// Put the holding into `method`, if it is not already. Paid once per
    /// configuration change rather than once per sale.
    fn reorder(&mut self, method: Method)
        ensures
            final(self).order() == method,
            final(self).queue() == reordered(old(self).order(), method, old(self).queue()),
            cost_of(final(self).queue()) == cost_of(old(self).queue()),
            units_of(final(self).queue()) == units_of(old(self).queue()),
    {
        proof { use_type_invariant(&*self); }
        if self.order == method {
            return;
        }
        let fifo = Order::By(Method::Fifo);
        assert(rankable(fifo, self.open@)) by {
            assert forall|i: int| 0 <= i < self.open@.len() implies tax_computes(fifo, #[trigger] self.open@[i]) by {}
        }
        let by_seq = arrange(fifo, &self.open);
        proof {
            lemma_arranged(fifo, self.open@);
            lemma_drawn_sound(by_seq@, self.open@);
            lemma_arranged(Order::By(method), by_seq@);
        }
        self.order = method;
        self.settle(&by_seq);
    }

    /// The lots this holding currently has, oldest acquisition first.
    pub fn lots(&self) -> (r: Vec<Lot>)
        ensures
            r@ == arranged(Order::By(Method::Fifo), self.queue()),
            all_sound(r@),
    {
        proof { use_type_invariant(self); }
        let fifo = Order::By(Method::Fifo);
        assert(rankable(fifo, self.open@)) by {
            assert forall|i: int| 0 <= i < self.open@.len() implies tax_computes(fifo, #[trigger] self.open@[i]) by {}
        }
        let r = arrange(fifo, &self.open);
        proof {
            lemma_arranged(fifo, self.open@);
            lemma_drawn_sound(r@, self.open@);
        }
        r
    }

    /// The lot this order would give up next, without giving it up.
    pub fn peek(&self) -> (r: Option<&Lot>)
        ensures
            self.queue().len() == 0 ==> r is None,
            self.queue().len() > 0 ==> (r matches Some(l) && *l == self.queue()[0]),
    {
        if self.open.len() == 0 {
            None
        } else {
            Some(&self.open[0])
        }
    }

    fn position(&self, seq: u64) -> (r: Option<usize>)
        ensures
            match r {
                Some(i) => i < self.queue().len() && self.queue()[i as int].seq == seq
                    && (forall|j: int| 0 <= j < i ==> #[trigger] self.queue()[j].seq != seq)
                    && find_seq(self.queue(), seq) == Some(self.queue()[i as int])
                    && without_seq(self.queue(), seq) =~= self.queue().take(i as int) + self.queue().skip(i + 1),
                None => find_seq(self.queue(), seq) is None,
            },
    {
        let mut i: usize = 0;
        assert(self.open@.skip(0) =~= self.open@);
        while i < self.open.len()
            invariant
                0 <= i <= self.open@.len(),
                forall|j: int| 0 <= j < i ==> #[trigger] self.open@[j].seq != seq,
                find_seq(self.open@, seq) == find_seq(self.open@.skip(i as int), seq),
            decreases self.open@.len() - i,
        {
            assert(self.open@.skip(i as int)[0] == self.open@[i as int]);
            if self.open[i].seq == seq {
                proof { lemma_without_seq_at(self.open@, seq, i as int); }
                return Some(i);
            }
            assert(self.open@.skip(i as int).drop_first() =~= self.open@.skip(i + 1));
            i = i + 1;
        }
        assert(self.open@.skip(i as int) =~= Seq::<Lot>::empty());
        None
    }

    /// The open lot with this acquisition ordinal, if the holding still has it.
    pub fn get(&self, seq: u64) -> (r: Option<&Lot>)
        ensures
            match find_seq(self.queue(), seq) {
                Some(l) => (r matches Some(x) && *x == l),
                None => r is None,
            },
    {
        match self.position(seq) {
            Some(i) => Some(&self.open[i]),
            None => None,
        }
    }

    /// Attach a deferred loss to one open lot, and — when `acquired` is given —
    /// carry the original lot's acquisition date onto it. The search is over
    /// what remains open, so a lot the sale took is not a candidate. A negative
    /// deferral would wash a gain and is refused; a refusal writes nothing.
    pub fn attach(&mut self, seq: u64, d: i64, acquired: Option<Day>) -> (r: Result<(), ReliefError>)
        ensures
            final(self).order() == old(self).order(),
            (r, final(self).queue()) == attach_result(old(self).order(), old(self).queue(), seq, d, acquired),
    {
        proof { use_type_invariant(&*self); }
        if d < 0 {
            return Err(ReliefError::NegativeDeferral { d });
        }
        let i = match self.position(seq) {
            Some(i) => i,
            None => { return Err(ReliefError::NotOpen { seq }); }
        };
        let lot = self.open[i];
        let cost = match checked::add(lot.cost, d, "the replacement lot's basis") {
            Ok(c) => c,
            Err(e) => { return Err(ReliefError::Overflow(e)); }
        };
        let written = Lot {
            seq: lot.seq,
            units: lot.units,
            cost,
            acquired: match acquired { Some(day) => Some(day), None => lot.acquired },
        };
        if !(written.units > 0 || (written.units == 0 && written.cost == 0)) {
            return Err(ReliefError::Husk { seq: written.seq, units: written.units, cost: written.cost });
        }
        let mut rest = self.open.clone();
        rest.remove(i);
        assert(rest@ =~= self.open@.take(i as int) + self.open@.skip(i + 1));
        let next = Self::rank_insert(self.order, written, &rest);
        proof {
            crate::order::lemma_insert_ranked_drawn(Order::By(self.order), written, rest@);
            assert forall|k: int| 0 <= k < next@.len() implies #[trigger] lot_is_sound(next@[k].units as int, next@[k].cost as int) by {
                if next@[k] != written {
                    let m = choose|m: int| 0 <= m < rest@.len() && next@[k] == rest@[m];
                    if m < i {
                        assert(rest@[m] == self.open@[m]);
                    } else {
                        assert(rest@[m] == self.open@[m + 1]);
                    }
                }
            }
        }
        self.open = next;
        Ok(())
    }

    fn count_undated_lots(&self) -> (n: u64)
        ensures
            n == count_undated(self.queue()),
    {
        let mut n: u64 = 0;
        let mut i: usize = 0;
        assert(self.open@.skip(0) =~= self.open@);
        while i < self.open.len()
            invariant
                0 <= i <= self.open@.len(),
                n <= i,
                count_undated(self.open@) == n + count_undated(self.open@.skip(i as int)),
            decreases self.open@.len() - i,
        {
            assert(self.open@.skip(i as int)[0] == self.open@[i as int]);
            assert(self.open@.skip(i as int).drop_first() =~= self.open@.skip(i + 1));
            if self.open[i].acquired.is_none() {
                n = n + 1;
            }
            i = i + 1;
        }
        assert(self.open@.skip(i as int) =~= Seq::<Lot>::empty());
        n
    }

    /// Give up `want` units under `method`, mutating the holding.
    ///
    /// The holding is first put into `method`. A holding-period method refuses
    /// when any lot is undated, since such a lot cannot be ranked by a date. A
    /// refused relief leaves every open lot where it was.
    pub fn relieve(&mut self, method: Method, want: i64) -> (r: Result<Relief, ReliefError>)
        ensures
            want < 0 ==> r == Err::<Relief, ReliefError>(ReliefError::NegativeSale { want })
                && final(self).queue() == old(self).queue() && final(self).order() == old(self).order(),
            want >= 0 ==> final(self).order() == method
                && holding_relief(r, method, reordered(old(self).order(), method, old(self).queue()), want, final(self).queue()),
            r matches Ok(rf) ==> taken_units(rf.taken@) == want && rf.cost == taken_cost(rf.taken@)
                && rf.cost + cost_of(final(self).queue()) == cost_of(old(self).queue())
                && want + units_of(final(self).queue()) == units_of(old(self).queue()),
    {
        if want < 0 {
            return Err(ReliefError::NegativeSale { want });
        }
        self.reorder(method);
        proof { use_type_invariant(&*self); }
        if method.needs_acquisition_dates() {
            let n = self.count_undated_lots();
            if n > 0 {
                return Err(ReliefError::UndatedLots { count: n, method });
            }
        }
        proof {
            assert forall|i: int| 0 <= i < self.open@.len() implies self.open@[i].units >= 0 by {
                assert(lot_is_sound(self.open@[i].units as int, self.open@[i].cost as int));
            }
            lemma_walk_conserves(self.open@, want as int, 0, want);
            lemma_walk_left_sound(self.open@, want as int, 0, want);
        }
        match walk_ordered(&self.open, want) {
            Ok(rv) => {
                self.settle_exact(&rv.left);
                Ok(Relief { taken: rv.taken, cost: rv.cost })
            }
            Err(e) => Err(e),
        }
    }

    /// Replace the open lots with `lots`, already in order.
    fn settle_exact(&mut self, lots: &Vec<Lot>)
        requires
            all_sound(lots@),
        ensures
            final(self).order() == old(self).order(),
            final(self).queue() == lots@,
    {
        self.open = lots.clone();
    }

    /// Give up `want` units under min-tax: the lots are drawn in acquisition
    /// order, ranked at the sale price, walked, and what is left settles back
    /// into the holding's order. A refusal settles every lot back.
    pub fn relieve_min_tax(&mut self, want: i64, price: i64, short_weight: i64, threshold: i64, as_of: Day) -> (r: Result<Relief, ReliefError>)
        ensures
            final(self).order() == old(self).order(),
            drawn_relief(r, relieve_min_tax_spec(arranged(Order::By(Method::Fifo), old(self).queue()), want, price, short_weight, threshold, as_of),
                old(self).order(), arranged(Order::By(Method::Fifo), old(self).queue()), final(self).queue()),
    {
        proof { use_type_invariant(&*self); }
        let drained = self.lots();
        proof {
            lemma_arranged(Order::By(Method::Fifo), self.open@);
            lemma_drawn_sound(drained@, self.open@);
        }
        match crate::relief::relieve_min_tax(&drained, want, price, short_weight, threshold, as_of) {
            Ok(rv) => {
                proof {
                    let o = Order::MinTax { price, short_weight, threshold, as_of };
                    lemma_arranged(o, drained@);
                    lemma_drawn_sound(arranged(o, drained@), drained@);
                    lemma_walk_left_sound(arranged(o, drained@), want as int, 0, want);
                }
                self.settle(&rv.left);
                Ok(Relief { taken: rv.taken, cost: rv.cost })
            }
            Err(e) => {
                self.settle(&drained);
                Err(e)
            }
        }
    }

    /// Give up `want` units under specific identification: take the named
    /// lots, in the order named.
    pub fn relieve_spec_id(&mut self, want: i64, named: &[u64]) -> (r: Result<Relief, ReliefError>)
        ensures
            final(self).order() == old(self).order(),
            drawn_relief(r, relieve_spec_id_spec(arranged(Order::By(Method::Fifo), old(self).queue()), want, named@),
                old(self).order(), arranged(Order::By(Method::Fifo), old(self).queue()), final(self).queue()),
    {
        proof { use_type_invariant(&*self); }
        let drained = self.lots();
        proof {
            lemma_arranged(Order::By(Method::Fifo), self.open@);
            lemma_drawn_sound(drained@, self.open@);
        }
        match crate::relief::relieve_spec_id(&drained, want, named) {
            Ok(rv) => {
                proof {
                    crate::relief::lemma_select_drawn(drained@, named@);
                    crate::relief::lemma_unnamed_drawn(drained@, named@);
                    let p = crate::relief::select(drained@, named@).unwrap();
                    lemma_drawn_sound(p, drained@);
                    lemma_walk_left_sound(p, want as int, 0, want);
                    let u = crate::relief::unnamed(drained@, named@);
                    lemma_drawn_sound(u, drained@);
                    let l = walk(p, want as int, 0, want).unwrap().1;
                    assert(rv.left@ == l + u);
                    assert forall|i: int| 0 <= i < rv.left@.len() implies #[trigger] lot_is_sound(rv.left@[i].units as int, rv.left@[i].cost as int) by {
                        if i < l.len() {
                            assert(rv.left@[i] == l[i]);
                        } else {
                            assert(rv.left@[i] == u[i - l.len()]);
                        }
                    }
                }
                self.settle(&rv.left);
                Ok(Relief { taken: rv.taken, cost: rv.cost })
            }
            Err(e) => {
                self.settle(&drained);
                Err(e)
            }
        }
    }

    /// Give up `want` units under average cost: pool the holding, then slice
    /// the pool. What is left is one pooled lot.
    pub fn relieve_average_cost(&mut self, want: i64) -> (r: Result<Relief, ReliefError>)
        ensures
            final(self).order() == old(self).order(),
            drawn_relief(r, relieve_average_cost_spec(arranged(Order::By(Method::Fifo), old(self).queue()), want),
                old(self).order(), arranged(Order::By(Method::Fifo), old(self).queue()), final(self).queue()),
    {
        proof { use_type_invariant(&*self); }
        let drained = self.lots();
        proof {
            lemma_arranged(Order::By(Method::Fifo), self.open@);
            lemma_drawn_sound(drained@, self.open@);
        }
        match crate::relief::relieve_average_cost(&drained, want) {
            Ok(rv) => {
                proof {
                    crate::relief::lemma_pool_sums(drained@);
                    assert forall|i: int| 0 <= i < rv.left@.len() implies #[trigger] lot_is_sound(rv.left@[i].units as int, rv.left@[i].cost as int) by {
                        if want != 0 {
                            let u = units_of(drained@);
                            assert(fits(u));
                            assert(want <= u);
                            assert(u - want != 0);
                            assert(rv.left@.len() == 1);
                            assert(rv.left@[0].units == u - want);
                        } else {
                            assert(rv.left@ == drained@);
                        }
                    }
                }
                self.settle(&rv.left);
                Ok(Relief { taken: rv.taken, cost: rv.cost })
            }
            Err(e) => {
                self.settle(&drained);
                Err(e)
            }
        }
    }
}

/// Whether a relief of a holding drawn out of it in acquisition order is the
/// relief `w` of those lots, with what is left — or, on a refusal, every lot —
/// settled back into the holding's order.
pub open spec fn drawn_relief(r: Result<Relief, ReliefError>, w: Result<(Seq<crate::relief::Taken>, Seq<Lot>, int), ReliefError>,
    order: Method, drained: Seq<Lot>, fq: Seq<Lot>) -> bool {
    match w {
        Ok((t, left, c)) => (r matches Ok(rf) && rf.taken@ == t && rf.cost == c && fq == arranged(Order::By(order), left)),
        Err(e) => r == Err::<Relief, ReliefError>(e) && fq == arranged(Order::By(order), drained),
    }
}

/// Whether a holding relief under `method`, over the holding already put into
/// that method, is the walk of it — or the refusal of an undated lot.
pub open spec fn holding_relief(r: Result<Relief, ReliefError>, method: Method, q: Seq<Lot>, want: i64, fq: Seq<Lot>) -> bool {
    if method.spec_needs_dates() && count_undated(q) > 0 {
        r == Err::<Relief, ReliefError>(ReliefError::UndatedLots { count: count_undated(q) as u64, method }) && fq == q
    } else {
        match walk(q, want as int, 0, want) {
            Ok((t, left, c)) => (r matches Ok(rf) && rf.taken@ == t && rf.cost == c && fq == left),
            Err(e) => r == Err::<Relief, ReliefError>(e) && fq == q,
        }
    }
}

/// A wash write to a holding: refuse a negative deferral, refuse a lot that is
/// not open, refuse a basis that leaves 64 bits or a lot it would turn into a
/// husk — writing nothing — or else raise the lot's basis, carry `acquired`
/// onto it when given, and re-rank it among the rest.
pub open spec fn attach_result(order: Method, q: Seq<Lot>, seq: u64, d: i64, acquired: Option<Day>) -> (Result<(), ReliefError>, Seq<Lot>) {
    if d < 0 {
        (Err(ReliefError::NegativeDeferral { d }), q)
    } else {
        match find_seq(q, seq) {
            None => (Err(ReliefError::NotOpen { seq }), q),
            Some(l) => {
                if !fits(l.cost + d) {
                    (Err(ReliefError::Overflow(Overflow { what: "the replacement lot's basis" })), q)
                } else {
                    let w = Lot { seq: l.seq, units: l.units, cost: (l.cost + d) as i64,
                        acquired: if acquired is Some { acquired } else { l.acquired } };
                    if !lot_is_sound(w.units as int, w.cost as int) {
                        (Err(ReliefError::Husk { seq: w.seq, units: w.units, cost: w.cost }), q)
                    } else {
                        (Ok(()), insert_ranked(Order::By(order), w, without_seq(q, seq)))
                    }
                }
            }
        }
    }
}

proof fn lemma_without_seq_at(q: Seq<Lot>, seq: u64, i: int)
    requires
        0 <= i < q.len(),
        q[i].seq == seq,
        forall|j: int| 0 <= j < i ==> #[trigger] q[j].seq != seq,
    ensures
        without_seq(q, seq) =~= q.take(i) + q.skip(i + 1),
        find_seq(q, seq) == Some(q[i]),
    decreases i,
{
    if i > 0 {
        assert(q[0].seq != seq);
        assert forall|j: int| 0 <= j < i - 1 implies #[trigger] q.drop_first()[j].seq != seq by {
            assert(q.drop_first()[j] == q[j + 1]);
        }
        lemma_without_seq_at(q.drop_first(), seq, i - 1);
        assert(q.drop_first().take(i - 1) =~= q.take(i).drop_first());
        assert(q.drop_first().skip(i) =~= q.skip(i + 1));
    } else {
        assert(q.skip(1) =~= q.drop_first());
    }
}

} // verus!

verus! {

// ------------------------------------------------------------ the holding and the walk

/// The lots a holding kept under `m` holds after `lots` are pushed into it in
/// turn, none refused.
pub open spec fn pushed(m: Method, lots: Seq<Lot>) -> Seq<Lot>
    decreases lots.len(),
{
    if lots.len() == 0 { Seq::empty() } else { place(m, lots.last(), pushed(m, lots.drop_last())) }
}

/// Whether lots come in acquisition order: each opened after the one before.
pub open spec fn in_acquisition_order(lots: Seq<Lot>) -> bool {
    forall|i: int, j: int| 0 <= i < j < lots.len() ==> lots[i].seq < lots[j].seq
}

proof fn lemma_insert_last(o: Order, x: Lot, t: Seq<Lot>)
    requires
        forall|i: int| 0 <= i < t.len() ==> !crate::order::goes_before(o, x, #[trigger] t[i]),
    ensures
        insert_ranked(o, x, t) == t.push(x),
    decreases t.len(),
{
    if t.len() > 0 {
        assert(!crate::order::goes_before(o, x, t[0]));
        assert forall|i: int| 0 <= i < t.drop_first().len() implies !crate::order::goes_before(o, x, #[trigger] t.drop_first()[i]) by {
            assert(t.drop_first()[i] == t[i + 1]);
        }
        lemma_insert_last(o, x, t.drop_first());
        assert(seq![t[0]] + t.drop_first().push(x) =~= t.push(x));
    }
}

proof fn lemma_pushed_fifo(lots: Seq<Lot>)
    requires
        in_acquisition_order(lots),
    ensures
        pushed(Method::Fifo, lots) == lots,
        arranged(Order::By(Method::Fifo), lots) == lots,
    decreases lots.len(),
{
    if lots.len() > 0 {
        let init = lots.drop_last();
        lemma_pushed_fifo(init);
        assert forall|i: int| 0 <= i < init.len() implies
            !crate::order::goes_before(Order::By(Method::Fifo), lots.last(), #[trigger] init[i]) by {
            assert(init[i] == lots[i]);
        }
        lemma_insert_last(Order::By(Method::Fifo), lots.last(), init);
        assert(init.push(lots.last()) =~= lots);
    }
}

proof fn lemma_pushed_lifo(lots: Seq<Lot>)
    requires
        in_acquisition_order(lots),
    ensures
        pushed(Method::Lifo, lots) == arranged(Order::By(Method::Lifo), lots),
        lots.len() > 0 ==> pushed(Method::Lifo, lots)[0] == lots.last(),
    decreases lots.len(),
{
    if lots.len() > 0 {
        let init = lots.drop_last();
        lemma_pushed_lifo(init);
        let p = pushed(Method::Lifo, init);
        if init.len() > 0 {
            assert(p[0] == init.last());
            assert(init.last() == lots[lots.len() - 2]);
            assert(crate::order::goes_before(Order::By(Method::Lifo), lots.last(), p[0]));
        }
    }
}

proof fn lemma_pushed_ranked(m: Method, lots: Seq<Lot>)
    requires
        m != Method::Fifo,
        m != Method::Lifo,
    ensures
        pushed(m, lots) == arranged(Order::By(m), lots),
    decreases lots.len(),
{
    if lots.len() > 0 {
        lemma_pushed_ranked(m, lots.drop_last());
    }
}

/// A holding maintained by pushing lots in the order they were opened gives
/// up exactly what sorting the lots under its method and walking them would:
/// it keeps them in that order, so the relief of a holding kept under its
/// own method walks the same lots as `relieve_by`.
pub proof fn law_a_maintained_holding_gives_up_what_the_walk_would(m: Method, lots: Seq<Lot>, want: i64)
    requires
        in_acquisition_order(lots),
        crate::relief::first_husk(lots) is None,
        want >= 0,
        !(m.spec_needs_dates() && crate::relief::first_undated(lots) is Some),
    ensures
        pushed(m, lots) == arranged(Order::By(m), lots),
        reordered(m, m, pushed(m, lots)) == pushed(m, lots),
        crate::relief::relieve_by_spec(m, lots, want) == walk(pushed(m, lots), want as int, 0, want),
{
    match m {
        Method::Fifo => lemma_pushed_fifo(lots),
        Method::Lifo => lemma_pushed_lifo(lots),
        _ => lemma_pushed_ranked(m, lots),
    }
}

/// The lot a holding names next is the lot its relief gives up next: giving
/// up exactly that lot's units takes that lot whole and leaves the others in
/// their order.
pub proof fn law_the_lot_peeked_is_the_lot_given_up(q: Seq<Lot>)
    requires
        q.len() > 0,
        q[0].units > 0,
    ensures
        walk(q, q[0].units as int, 0, q[0].units)
            == Ok::<(Seq<crate::relief::Taken>, Seq<Lot>, int), ReliefError>((seq![crate::relief::whole(q[0])], q.drop_first(), q[0].cost as int)),
{
    assert(walk(q.drop_first(), 0, q[0].cost as int, q[0].units) == Ok::<(Seq<crate::relief::Taken>, Seq<Lot>, int), ReliefError>((Seq::<crate::relief::Taken>::empty(), q.drop_first(), q[0].cost as int)));
    assert(seq![crate::relief::whole(q[0])] + Seq::<crate::relief::Taken>::empty() =~= seq![crate::relief::whole(q[0])]);
}

} // verus!
