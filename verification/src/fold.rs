//! Running totals and positions, folded posting by posting.
//!
//! Totals are kept per dimension and currency, because a total over both is
//! not a figure, and by side, because a trial balance shows debit and credit
//! columns and a net cannot be split back into its sides. Positions are kept
//! per dimension and instrument, with what names no instrument kept per
//! dimension.

use vstd::prelude::*;
use crate::chart::{PostingRecord, PostingView, text_of};
use crate::merge::{MergeKey, key_lt, copy_text, opt_before, opt_same};
use crate::project::DimTotal;
use crate::table::{ascending, lemma_slot};

verus! {

/// A total's key: a dimension and a currency.
pub type TotalKey = (i64, Option<Seq<char>>);

/// The key a posting is totalled under.
pub open spec fn total_key(p: PostingView) -> TotalKey {
    (p.dim, p.currency)
}

/// A total's key in the order tables keep.
pub open spec fn total_order_key(k: TotalKey) -> MergeKey {
    (k.0, k.1, None)
}

/// The key of a row of totals.
pub open spec fn row_key(r: ((i64, Option<String>), DimTotal)) -> TotalKey {
    (r.0.0, text_of(r.0.1))
}

/// The keys of rows of totals, in the order tables keep.
pub open spec fn row_keys(rows: Seq<((i64, Option<String>), DimTotal)>) -> Seq<MergeKey> {
    rows.map_values(|r: ((i64, Option<String>), DimTotal)| total_order_key(row_key(r)))
}

/// The debits posted under a key.
pub open spec fn debit_on(ps: Seq<PostingView>, k: TotalKey) -> int
    decreases ps.len(),
{
    if ps.len() == 0 {
        0
    } else {
        debit_on(ps.drop_last(), k) + if total_key(ps.last()) == k && ps.last().amount >= 0 { ps.last().amount as int } else { 0 }
    }
}

/// The credits posted under a key, as a magnitude.
pub open spec fn credit_on(ps: Seq<PostingView>, k: TotalKey) -> int
    decreases ps.len(),
{
    if ps.len() == 0 {
        0
    } else {
        credit_on(ps.drop_last(), k) + if total_key(ps.last()) == k && ps.last().amount < 0 { -ps.last().amount } else { 0 }
    }
}

/// How many postings landed under a key.
pub open spec fn count_on(ps: Seq<PostingView>, k: TotalKey) -> int
    decreases ps.len(),
{
    if ps.len() == 0 {
        0
    } else {
        count_on(ps.drop_last(), k) + if total_key(ps.last()) == k { 1int } else { 0 }
    }
}

/// Every debit posted.
pub open spec fn debits_of(ps: Seq<PostingView>) -> int
    decreases ps.len(),
{
    if ps.len() == 0 {
        0
    } else {
        debits_of(ps.drop_last()) + if ps.last().amount >= 0 { ps.last().amount as int } else { 0 }
    }
}

/// Every credit posted, as a magnitude.
pub open spec fn credits_of(ps: Seq<PostingView>) -> int
    decreases ps.len(),
{
    if ps.len() == 0 {
        0
    } else {
        credits_of(ps.drop_last()) + if ps.last().amount < 0 { -ps.last().amount } else { 0 }
    }
}

/// Whether rows list the totals of postings: ascending by key, one row for
/// each key posted under and none other, each holding that key's debits,
/// credits and count.
pub open spec fn lists_totals(rows: Seq<((i64, Option<String>), DimTotal)>, ps: Seq<PostingView>) -> bool {
    &&& ascending(row_keys(rows))
    &&& forall|i: int| 0 <= i < rows.len() ==> {
        let k = row_key(#[trigger] rows[i]);
        &&& rows[i].1.debit == debit_on(ps, k)
        &&& rows[i].1.credit == credit_on(ps, k)
        &&& rows[i].1.postings == count_on(ps, k)
        &&& rows[i].1.postings >= 1
    }
    &&& forall|j: int| 0 <= j < ps.len() ==> exists|i: int| 0 <= i < rows.len() && row_key(rows[i]) == total_key(#[trigger] ps[j])
}

/// The magnitude of the furthest a 64-bit amount reaches from zero.
pub open spec fn reach() -> int {
    0x8000_0000_0000_0000
}

/// Nothing to prove of a run of postings before it is extended.
pub proof fn lemma_totals_len_hint(ps: Seq<PostingView>)
    ensures
        ps.len() >= 0,
{
}

proof fn lemma_sums_bounded(ps: Seq<PostingView>, k: TotalKey)
    ensures
        0 <= debit_on(ps, k) <= count_on(ps, k) * reach(),
        0 <= credit_on(ps, k) <= count_on(ps, k) * reach(),
        0 <= count_on(ps, k) <= ps.len(),
        0 <= debits_of(ps) <= ps.len() * reach(),
        0 <= credits_of(ps) <= ps.len() * reach(),
    decreases ps.len(),
{
    if ps.len() > 0 {
        lemma_sums_bounded(ps.drop_last(), k);
    }
}

/// Running totals a net asset value needs, per dimension and currency, with
/// every debit and every credit posted.
#[derive(Clone, Debug, Default, PartialEq, Eq)]
pub struct Totals {
    pub by_dim: Vec<((i64, Option<String>), DimTotal)>,
    pub debits: i128,
    pub credits: i128,
}

impl Totals {
    /// Whether these are the totals of the postings `ps`.
    pub open spec fn folds(&self, ps: Seq<PostingView>) -> bool {
        &&& lists_totals(self.by_dim@, ps)
        &&& self.debits == debits_of(ps)
        &&& self.credits == credits_of(ps)
    }

    /// Totals of nothing.
    pub fn new() -> (t: Totals)
        ensures
            t.folds(Seq::empty()),
    {
        Totals { by_dim: Vec::new(), debits: 0, credits: 0 }
    }

    /// Total one more posting.
    pub fn add(&mut self, p: &PostingRecord, Ghost(ps): Ghost<Seq<PostingView>>)
        requires
            old(self).folds(ps),
            ps.len() < i64::MAX,
        ensures
            final(self).folds(ps.push(p@)),
    {
        let ghost k = total_key(p@);
        let ghost q = ps.push(p@);
        let ghost rows = self.by_dim@;
        let ghost ks = row_keys(rows);
        assert(q.drop_last() =~= ps);
        assert(q.last() == p@);
        let mut i: usize = 0;
        while i < self.by_dim.len() && row_below(&self.by_dim[i].0, p)
            invariant
                0 <= i <= self.by_dim@.len(),
                self.by_dim@ == rows,
                ks == row_keys(rows),
                ks.len() == rows.len(),
                k == total_key(p@),
                forall|j: int| 0 <= j < i ==> key_lt(ks[j], total_order_key(k)),
            decreases self.by_dim@.len() - i,
        {
            assert(ks[i as int] == total_order_key(row_key(rows[i as int])));
            i = i + 1;
        }
        let found = i < self.by_dim.len() && row_at(&self.by_dim[i].0, p);
        proof {
            if i < rows.len() {
                assert(ks[i as int] == total_order_key(row_key(rows[i as int])));
            }
            lemma_slot(ks, total_order_key(k), i as int);
            lemma_sums_bounded(ps, k);
            lemma_sums_bounded(q, k);
            assert forall|j: int| 0 <= j < rows.len() implies #[trigger] ks[j] == total_order_key(row_key(rows[j])) by {}
        }
        let (d, c): (i128, i128) = if p.amount >= 0 { (p.amount as i128, 0) } else { (0, -(p.amount as i128)) };
        if found {
            let old_row = self.by_dim[i].1;
            proof {
                assert(row_key(rows[i as int]) == k);
            }
            let row = DimTotal { debit: old_row.debit + d, credit: old_row.credit + c, postings: old_row.postings + 1 };
            let key = (self.by_dim[i].0.0, copy_text(&self.by_dim[i].0.1));
            self.by_dim.set(i, (key, row));
            proof {
                let nr = self.by_dim@;
                assert forall|j: int| 0 <= j < nr.len() implies #[trigger] row_keys(nr)[j] == ks[j] by {
                    assert(row_keys(nr)[j] == total_order_key(row_key(nr[j])));
                }
                assert(row_keys(nr) =~= ks);
                assert forall|j: int| 0 <= j < nr.len() implies {
                    let kk = row_key(#[trigger] nr[j]);
                    &&& nr[j].1.debit == debit_on(q, kk)
                    &&& nr[j].1.credit == credit_on(q, kk)
                    &&& nr[j].1.postings == count_on(q, kk)
                    &&& nr[j].1.postings >= 1
                } by {
                    if j != i {
                        assert(ks[j] != total_order_key(k));
                        assert(row_key(nr[j]) != k);
                    }
                }
                assert forall|j: int| 0 <= j < q.len() implies exists|x: int| 0 <= x < nr.len() && row_key(nr[x]) == total_key(#[trigger] q[j]) by {
                    if j < ps.len() {
                        assert(q[j] == ps[j]);
                        let x = choose|x: int| 0 <= x < rows.len() && row_key(rows[x]) == total_key(ps[j]);
                        assert(row_key(nr[x]) == row_key(rows[x]));
                    } else {
                        assert(row_key(nr[i as int]) == total_key(q[j]));
                    }
                }
            }
        } else {
            let key = (p.dim, copy_text(&p.currency));
            let row = DimTotal { debit: d, credit: c, postings: 1 };
            self.by_dim.insert(i, (key, row));
            proof {
                let nr = self.by_dim@;
                assert(nr == rows.insert(i as int, (key, row)));
                assert(row_key(nr[i as int]) == k);
                assert forall|j: int| 0 <= j < nr.len() implies #[trigger] row_keys(nr)[j] == ks.insert(i as int, total_order_key(k))[j] by {
                    assert(row_keys(nr)[j] == total_order_key(row_key(nr[j])));
                    if j > i {
                        assert(nr[j] == rows[j - 1]);
                    }
                }
                assert(row_keys(nr) =~= ks.insert(i as int, total_order_key(k)));
                assert forall|j: int| 0 <= j < rows.len() implies row_key(#[trigger] rows[j]) != k by {
                    assert(ks[j] != total_order_key(k));
                }
                assert(count_on(ps, k) == 0) by {
                    if count_on(ps, k) != 0 {
                        lemma_count_witness(ps, k);
                        let w = choose|w: int| 0 <= w < ps.len() && total_key(ps[w]) == k;
                        let x = choose|x: int| 0 <= x < rows.len() && row_key(rows[x]) == total_key(ps[w]);
                    }
                }
                assert forall|j: int| 0 <= j < nr.len() implies {
                    let kk = row_key(#[trigger] nr[j]);
                    &&& nr[j].1.debit == debit_on(q, kk)
                    &&& nr[j].1.credit == credit_on(q, kk)
                    &&& nr[j].1.postings == count_on(q, kk)
                    &&& nr[j].1.postings >= 1
                } by {
                    if j < i {
                        assert(nr[j] == rows[j]);
                    } else if j > i {
                        assert(nr[j] == rows[j - 1]);
                    }
                }
                assert forall|j: int| 0 <= j < q.len() implies exists|x: int| 0 <= x < nr.len() && row_key(nr[x]) == total_key(#[trigger] q[j]) by {
                    if j < ps.len() {
                        assert(q[j] == ps[j]);
                        let x = choose|x: int| 0 <= x < rows.len() && row_key(rows[x]) == total_key(ps[j]);
                        if x < i {
                            assert(row_key(nr[x]) == row_key(rows[x]));
                        } else {
                            assert(row_key(nr[x + 1]) == row_key(rows[x]));
                        }
                    } else {
                        assert(row_key(nr[i as int]) == total_key(q[j]));
                    }
                }
            }
        }
        proof {
            lemma_sums_bounded(ps, k);
        }
        self.debits = self.debits + d;
        self.credits = self.credits + c;
    }
}

proof fn lemma_count_witness(ps: Seq<PostingView>, k: TotalKey)
    requires
        count_on(ps, k) != 0,
    ensures
        exists|w: int| 0 <= w < ps.len() && total_key(ps[w]) == k,
    decreases ps.len(),
{
    if ps.len() > 0 {
        if total_key(ps.last()) != k {
            lemma_count_witness(ps.drop_last(), k);
            let w = choose|w: int| 0 <= w < ps.drop_last().len() && total_key(ps.drop_last()[w]) == k;
            assert(ps[w] == ps.drop_last()[w]);
        } else {
            assert(total_key(ps[ps.len() - 1]) == k);
        }
    }
}

/// Whether a row's key comes before a posting's.
fn row_below(key: &(i64, Option<String>), p: &PostingRecord) -> (r: bool)
    ensures
        r == key_lt(total_order_key((key.0, text_of(key.1))), total_order_key(total_key(p@))),
{
    key.0 < p.dim || (key.0 == p.dim && opt_before(&key.1, &p.currency))
}

/// Whether a row's key is a posting's.
fn row_at(key: &(i64, Option<String>), p: &PostingRecord) -> (r: bool)
    ensures
        r == ((key.0, text_of(key.1)) == total_key(p@)),
{
    key.0 == p.dim && opt_same(&key.1, &p.currency)
}

/// A position's key: a dimension and an instrument.
pub type HeldKey = (i64, Seq<char>);

/// A position's key in the order tables keep.
pub open spec fn held_order_key(k: HeldKey) -> MergeKey {
    (k.0, Some(k.1), None)
}

/// The key of a row of positions.
pub open spec fn held_key(r: ((i64, String), (i64, i64))) -> HeldKey {
    (r.0.0, r.0.1@)
}

/// The keys of rows of positions, in the order tables keep.
pub open spec fn held_keys(rows: Seq<((i64, String), (i64, i64))>) -> Seq<MergeKey> {
    rows.map_values(|r: ((i64, String), (i64, i64))| held_order_key(held_key(r)))
}

/// Whether a posting is to a position.
pub open spec fn names_position(p: PostingView, k: HeldKey) -> bool {
    p.dim == k.0 && p.instrument == Some(k.1)
}

/// The units a posting moves, none counting as nothing.
pub open spec fn units_moved(p: PostingView) -> i64 {
    match p.quantity {
        Some(q) => q,
        None => 0,
    }
}

/// A position's cost and units: the postings to it added up, each sum
/// wrapping at 64 bits.
pub open spec fn held_on(ps: Seq<PostingView>, k: HeldKey) -> (i64, i64)
    decreases ps.len(),
{
    if ps.len() == 0 {
        (0, 0)
    } else {
        let (c, u) = held_on(ps.drop_last(), k);
        let p = ps.last();
        if names_position(p, k) {
            (c.wrapping_add(p.amount), u.wrapping_add(units_moved(p)))
        } else {
            (c, u)
        }
    }
}

/// How many postings went to a position.
pub open spec fn held_count(ps: Seq<PostingView>, k: HeldKey) -> int
    decreases ps.len(),
{
    if ps.len() == 0 {
        0
    } else {
        held_count(ps.drop_last(), k) + if names_position(ps.last(), k) { 1int } else { 0 }
    }
}

/// Whether a posting names no instrument and is to a dimension.
pub open spec fn rests_on(p: PostingView, d: i64) -> bool {
    p.dim == d && p.instrument is None
}

/// The amount posted to a dimension naming no instrument, wrapping at 64 bits.
pub open spec fn rest_on(ps: Seq<PostingView>, d: i64) -> i64
    decreases ps.len(),
{
    if ps.len() == 0 {
        0
    } else {
        let a = rest_on(ps.drop_last(), d);
        if rests_on(ps.last(), d) { a.wrapping_add(ps.last().amount) } else { a }
    }
}

/// How many postings naming no instrument went to a dimension.
pub open spec fn rest_count(ps: Seq<PostingView>, d: i64) -> int
    decreases ps.len(),
{
    if ps.len() == 0 {
        0
    } else {
        rest_count(ps.drop_last(), d) + if rests_on(ps.last(), d) { 1int } else { 0 }
    }
}

/// The order key of a dimension.
pub open spec fn rest_order_key(d: i64) -> MergeKey {
    (d, None, None)
}

/// The keys of rows of amounts by dimension, in the order tables keep.
pub open spec fn rest_keys(rows: Seq<(i64, i64)>) -> Seq<MergeKey> {
    rows.map_values(|r: (i64, i64)| rest_order_key(r.0))
}

/// Whether rows list the positions of postings: ascending by key, one row for
/// each position posted to and none other, each holding its cost and units.
pub open spec fn lists_held(rows: Seq<((i64, String), (i64, i64))>, ps: Seq<PostingView>) -> bool {
    &&& ascending(held_keys(rows))
    &&& forall|i: int| 0 <= i < rows.len() ==> {
        let k = held_key(#[trigger] rows[i]);
        &&& rows[i].1 == held_on(ps, k)
        &&& held_count(ps, k) >= 1
    }
    &&& forall|j: int| 0 <= j < ps.len() && (#[trigger] ps[j]).instrument is Some ==>
        exists|i: int| 0 <= i < rows.len() && names_position(ps[j], held_key(rows[i]))
}

/// Whether rows list the amounts posted naming no instrument, per dimension.
pub open spec fn lists_rest(rows: Seq<(i64, i64)>, ps: Seq<PostingView>) -> bool {
    &&& ascending(rest_keys(rows))
    &&& forall|i: int| 0 <= i < rows.len() ==> (#[trigger] rows[i]).1 == rest_on(ps, rows[i].0) && rest_count(ps, rows[i].0) >= 1
    &&& forall|j: int| 0 <= j < ps.len() && (#[trigger] ps[j]).instrument is None ==>
        exists|i: int| 0 <= i < rows.len() && rows[i].0 == ps[j].dim
}

proof fn lemma_held_witness(ps: Seq<PostingView>, k: HeldKey)
    requires
        held_count(ps, k) != 0,
    ensures
        exists|w: int| 0 <= w < ps.len() && names_position(ps[w], k),
    decreases ps.len(),
{
    if ps.len() > 0 {
        if !names_position(ps.last(), k) {
            lemma_held_witness(ps.drop_last(), k);
            let w = choose|w: int| 0 <= w < ps.drop_last().len() && names_position(ps.drop_last()[w], k);
            assert(ps[w] == ps.drop_last()[w]);
        } else {
            assert(names_position(ps[ps.len() - 1], k));
        }
    }
}

proof fn lemma_held_count_nonneg(ps: Seq<PostingView>, k: HeldKey)
    ensures
        held_count(ps, k) >= 0,
    decreases ps.len(),
{
    if ps.len() > 0 {
        lemma_held_count_nonneg(ps.drop_last(), k);
    }
}

proof fn lemma_rest_witness(ps: Seq<PostingView>, d: i64)
    requires
        rest_count(ps, d) != 0,
    ensures
        exists|w: int| 0 <= w < ps.len() && rests_on(ps[w], d),
    decreases ps.len(),
{
    if ps.len() > 0 {
        if !rests_on(ps.last(), d) {
            lemma_rest_witness(ps.drop_last(), d);
            let w = choose|w: int| 0 <= w < ps.drop_last().len() && rests_on(ps.drop_last()[w], d);
            assert(ps[w] == ps.drop_last()[w]);
        } else {
            assert(rests_on(ps[ps.len() - 1], d));
        }
    }
}

proof fn lemma_rest_count_nonneg(ps: Seq<PostingView>, d: i64)
    ensures
        rest_count(ps, d) >= 0,
    decreases ps.len(),
{
    if ps.len() > 0 {
        lemma_rest_count_nonneg(ps.drop_last(), d);
    }
}

/// Positions, folded from postings: cost and units per dimension and
/// instrument, and what names no instrument per dimension.
#[derive(Clone, Debug, Default, PartialEq, Eq)]
pub struct Positions {
    pub held: Vec<((i64, String), (i64, i64))>,
    pub rest: Vec<(i64, i64)>,
}

impl Positions {
    /// Whether these are the positions the postings `ps` build.
    pub open spec fn folds(&self, ps: Seq<PostingView>) -> bool {
        &&& lists_held(self.held@, ps)
        &&& lists_rest(self.rest@, ps)
    }

    /// Positions of nothing.
    pub fn new() -> (r: Positions)
        ensures
            r.folds(Seq::empty()),
    {
        Positions { held: Vec::new(), rest: Vec::new() }
    }

    /// Fold one more posting in.
    pub fn add(&mut self, p: &PostingRecord, Ghost(ps): Ghost<Seq<PostingView>>)
        requires
            old(self).folds(ps),
        ensures
            final(self).folds(ps.push(p@)),
    {
        let ghost q = ps.push(p@);
        assert(q.drop_last() =~= ps);
        assert(q.last() == p@);
        match &p.instrument {
            Some(inst) => {
                add_held(&mut self.held, p, inst, Ghost(ps));
                proof {
                    assert forall|j: int| 0 <= j < q.len() && (#[trigger] q[j]).instrument is None implies
                        exists|i: int| 0 <= i < self.rest@.len() && self.rest@[i].0 == q[j].dim by {
                        if j < ps.len() {
                            assert(q[j] == ps[j]);
                            let x = choose|x: int| 0 <= x < self.rest@.len() && self.rest@[x].0 == ps[j].dim;
                            assert(self.rest@[x].0 == q[j].dim);
                        } else {
                            assert(q[j] == p@);
                        }
                    }
                    assert forall|i: int| 0 <= i < self.rest@.len() implies
                        (#[trigger] self.rest@[i]).1 == rest_on(q, self.rest@[i].0) && rest_count(q, self.rest@[i].0) >= 1 by {}
                }
            },
            None => {
                add_rest(&mut self.rest, p, Ghost(ps));
                proof {
                    assert forall|j: int| 0 <= j < q.len() && (#[trigger] q[j]).instrument is Some implies
                        exists|i: int| 0 <= i < self.held@.len() && names_position(q[j], held_key(self.held@[i])) by {
                        if j < ps.len() {
                            assert(q[j] == ps[j]);
                            let x = choose|x: int| 0 <= x < self.held@.len() && names_position(ps[j], held_key(self.held@[x]));
                            assert(names_position(q[j], held_key(self.held@[x])));
                        } else {
                            assert(q[j] == p@);
                        }
                    }
                    assert forall|i: int| 0 <= i < self.held@.len() implies {
                        let k = held_key(#[trigger] self.held@[i]);
                        &&& self.held@[i].1 == held_on(q, k)
                        &&& held_count(q, k) >= 1
                    } by {}
                }
            },
        }
    }
}

fn held_below(key: &(i64, String), p: &PostingRecord, inst: &String) -> (r: bool)
    requires
        p.instrument == Some(*inst),
    ensures
        r == key_lt(held_order_key((key.0, key.1@)), held_order_key((p.dim, inst@))),
{
    key.0 < p.dim || (key.0 == p.dim && crate::merge::text_before(key.1.as_str(), inst.as_str()))
}

fn add_held(rows: &mut Vec<((i64, String), (i64, i64))>, p: &PostingRecord, inst: &String, Ghost(ps): Ghost<Seq<PostingView>>)
    requires
        lists_held(old(rows)@, ps),
        p.instrument == Some(*inst),
    ensures
        lists_held(final(rows)@, ps.push(p@)),
{
    let ghost k: HeldKey = (p.dim, inst@);
    let ghost q = ps.push(p@);
    let ghost rs = rows@;
    let ghost ks = held_keys(rs);
    assert(q.drop_last() =~= ps);
    assert(q.last() == p@);
    assert(names_position(p@, k));
    let mut i: usize = 0;
    while i < rows.len() && held_below(&rows[i].0, p, inst)
        invariant
            0 <= i <= rows@.len(),
            rows@ == rs,
            ks == held_keys(rs),
            ks.len() == rs.len(),
            p.instrument == Some(*inst),
            k == (p.dim, inst@),
            forall|j: int| 0 <= j < i ==> key_lt(ks[j], held_order_key(k)),
        decreases rows@.len() - i,
    {
        assert(ks[i as int] == held_order_key(held_key(rs[i as int])));
        i = i + 1;
    }
    let found = i < rows.len() && rows[i].0.0 == p.dim && crate::text::str_eq(rows[i].0.1.as_str(), inst.as_str());
    proof {
        if i < rs.len() {
            assert(ks[i as int] == held_order_key(held_key(rs[i as int])));
        }
        lemma_slot(ks, held_order_key(k), i as int);
        assert forall|j: int| 0 <= j < rs.len() implies #[trigger] ks[j] == held_order_key(held_key(rs[j])) by {}
    }
    let units: i64 = match p.quantity { Some(u) => u, None => 0 };
    if found {
        let (c0, u0) = rows[i].1;
        proof { assert(held_key(rs[i as int]) == k); }
        let key = (rows[i].0.0, rows[i].0.1.clone());
        rows.set(i, (key, (c0.wrapping_add(p.amount), u0.wrapping_add(units))));
        proof {
            let nr = rows@;
            assert forall|j: int| 0 <= j < nr.len() implies #[trigger] held_keys(nr)[j] == ks[j] by {
                assert(held_keys(nr)[j] == held_order_key(held_key(nr[j])));
            }
            assert(held_keys(nr) =~= ks);
            assert forall|j: int| 0 <= j < nr.len() implies {
                let kk = held_key(#[trigger] nr[j]);
                &&& nr[j].1 == held_on(q, kk)
                &&& held_count(q, kk) >= 1
            } by {
                lemma_held_count_nonneg(ps, held_key(nr[j]));
                if j != i {
                    assert(ks[j] != held_order_key(k));
                    assert(held_key(nr[j]) != k);
                }
            }
            assert forall|j: int| 0 <= j < q.len() && (#[trigger] q[j]).instrument is Some implies
                exists|x: int| 0 <= x < nr.len() && names_position(q[j], held_key(nr[x])) by {
                if j < ps.len() {
                    assert(q[j] == ps[j]);
                    let x = choose|x: int| 0 <= x < rs.len() && names_position(ps[j], held_key(rs[x]));
                    assert(held_key(nr[x]) == held_key(rs[x]));
                } else {
                    assert(names_position(q[j], held_key(nr[i as int])));
                }
            }
        }
    } else {
        let key = (p.dim, inst.clone());
        rows.insert(i, (key, (0i64.wrapping_add(p.amount), 0i64.wrapping_add(units))));
        proof {
            let nr = rows@;
            assert(held_key(nr[i as int]) == k);
            assert forall|j: int| 0 <= j < nr.len() implies #[trigger] held_keys(nr)[j] == ks.insert(i as int, held_order_key(k))[j] by {
                assert(held_keys(nr)[j] == held_order_key(held_key(nr[j])));
                if j > i {
                    assert(nr[j] == rs[j - 1]);
                } else if j < i {
                    assert(nr[j] == rs[j]);
                }
            }
            assert(held_keys(nr) =~= ks.insert(i as int, held_order_key(k)));
            assert forall|j: int| 0 <= j < rs.len() implies held_key(#[trigger] rs[j]) != k by {
                assert(ks[j] != held_order_key(k));
            }
            assert(held_count(ps, k) == 0) by {
                lemma_held_count_nonneg(ps, k);
                if held_count(ps, k) != 0 {
                    lemma_held_witness(ps, k);
                    let w = choose|w: int| 0 <= w < ps.len() && names_position(ps[w], k);
                    let x = choose|x: int| 0 <= x < rs.len() && names_position(ps[w], held_key(rs[x]));
                    assert(held_key(rs[x]) == k);
                }
            }
            assert(held_on(ps, k) == (0i64, 0i64)) by {
                lemma_held_absent(ps, k);
            }
            assert forall|j: int| 0 <= j < nr.len() implies {
                let kk = held_key(#[trigger] nr[j]);
                &&& nr[j].1 == held_on(q, kk)
                &&& held_count(q, kk) >= 1
            } by {
                if j < i {
                    assert(nr[j] == rs[j]);
                    lemma_held_count_nonneg(ps, held_key(nr[j]));
                } else if j > i {
                    assert(nr[j] == rs[j - 1]);
                    lemma_held_count_nonneg(ps, held_key(nr[j]));
                }
            }
            assert forall|j: int| 0 <= j < q.len() && (#[trigger] q[j]).instrument is Some implies
                exists|x: int| 0 <= x < nr.len() && names_position(q[j], held_key(nr[x])) by {
                if j < ps.len() {
                    assert(q[j] == ps[j]);
                    let x = choose|x: int| 0 <= x < rs.len() && names_position(ps[j], held_key(rs[x]));
                    if x < i {
                        assert(held_key(nr[x]) == held_key(rs[x]));
                    } else {
                        assert(held_key(nr[x + 1]) == held_key(rs[x]));
                    }
                } else {
                    assert(names_position(q[j], held_key(nr[i as int])));
                }
            }
        }
    }
}

proof fn lemma_held_absent(ps: Seq<PostingView>, k: HeldKey)
    requires
        held_count(ps, k) == 0,
    ensures
        held_on(ps, k) == (0i64, 0i64),
    decreases ps.len(),
{
    if ps.len() > 0 {
        lemma_held_count_nonneg(ps.drop_last(), k);
        lemma_held_absent(ps.drop_last(), k);
    }
}

proof fn lemma_rest_absent(ps: Seq<PostingView>, d: i64)
    requires
        rest_count(ps, d) == 0,
    ensures
        rest_on(ps, d) == 0,
    decreases ps.len(),
{
    if ps.len() > 0 {
        lemma_rest_count_nonneg(ps.drop_last(), d);
        lemma_rest_absent(ps.drop_last(), d);
    }
}

fn add_rest(rows: &mut Vec<(i64, i64)>, p: &PostingRecord, Ghost(ps): Ghost<Seq<PostingView>>)
    requires
        lists_rest(old(rows)@, ps),
        p.instrument is None,
    ensures
        lists_rest(final(rows)@, ps.push(p@)),
{
    let ghost q = ps.push(p@);
    let ghost rs = rows@;
    let ghost ks = rest_keys(rs);
    let ghost k = rest_order_key(p.dim);
    assert(q.drop_last() =~= ps);
    assert(q.last() == p@);
    let mut i: usize = 0;
    while i < rows.len() && rows[i].0 < p.dim
        invariant
            0 <= i <= rows@.len(),
            rows@ == rs,
            ks == rest_keys(rs),
            ks.len() == rs.len(),
            k == rest_order_key(p.dim),
            forall|j: int| 0 <= j < i ==> key_lt(ks[j], k),
        decreases rows@.len() - i,
    {
        assert(ks[i as int] == rest_order_key(rs[i as int].0));
        i = i + 1;
    }
    let found = i < rows.len() && rows[i].0 == p.dim;
    proof {
        if i < rs.len() {
            assert(ks[i as int] == rest_order_key(rs[i as int].0));
        }
        lemma_slot(ks, k, i as int);
        assert forall|j: int| 0 <= j < rs.len() implies #[trigger] ks[j] == rest_order_key(rs[j].0) by {}
    }
    if found {
        let a0 = rows[i].1;
        rows.set(i, (p.dim, a0.wrapping_add(p.amount)));
        proof {
            let nr = rows@;
            assert forall|j: int| 0 <= j < nr.len() implies #[trigger] rest_keys(nr)[j] == ks[j] by {
                assert(rest_keys(nr)[j] == rest_order_key(nr[j].0));
            }
            assert(rest_keys(nr) =~= ks);
            assert forall|j: int| 0 <= j < nr.len() implies (#[trigger] nr[j]).1 == rest_on(q, nr[j].0) && rest_count(q, nr[j].0) >= 1 by {
                lemma_rest_count_nonneg(ps, nr[j].0);
                if j != i {
                    assert(ks[j] != k);
                }
            }
            assert forall|j: int| 0 <= j < q.len() && (#[trigger] q[j]).instrument is None implies
                exists|x: int| 0 <= x < nr.len() && nr[x].0 == q[j].dim by {
                if j < ps.len() {
                    assert(q[j] == ps[j]);
                    let x = choose|x: int| 0 <= x < rs.len() && rs[x].0 == ps[j].dim;
                    assert(nr[x].0 == rs[x].0);
                } else {
                    assert(nr[i as int].0 == q[j].dim);
                }
            }
        }
    } else {
        rows.insert(i, (p.dim, 0i64.wrapping_add(p.amount)));
        proof {
            let nr = rows@;
            assert forall|j: int| 0 <= j < nr.len() implies #[trigger] rest_keys(nr)[j] == ks.insert(i as int, k)[j] by {
                assert(rest_keys(nr)[j] == rest_order_key(nr[j].0));
                if j > i {
                    assert(nr[j] == rs[j - 1]);
                } else if j < i {
                    assert(nr[j] == rs[j]);
                }
            }
            assert(rest_keys(nr) =~= ks.insert(i as int, k));
            assert forall|j: int| 0 <= j < rs.len() implies (#[trigger] rs[j]).0 != p.dim by {
                assert(ks[j] != k);
            }
            assert(rest_count(ps, p.dim) == 0) by {
                lemma_rest_count_nonneg(ps, p.dim);
                if rest_count(ps, p.dim) != 0 {
                    lemma_rest_witness(ps, p.dim);
                    let w = choose|w: int| 0 <= w < ps.len() && rests_on(ps[w], p.dim);
                    let x = choose|x: int| 0 <= x < rs.len() && rs[x].0 == ps[w].dim;
                }
            }
            lemma_rest_absent(ps, p.dim);
            assert forall|j: int| 0 <= j < nr.len() implies (#[trigger] nr[j]).1 == rest_on(q, nr[j].0) && rest_count(q, nr[j].0) >= 1 by {
                if j < i {
                    assert(nr[j] == rs[j]);
                    lemma_rest_count_nonneg(ps, nr[j].0);
                } else if j > i {
                    assert(nr[j] == rs[j - 1]);
                    lemma_rest_count_nonneg(ps, nr[j].0);
                }
            }
            assert forall|j: int| 0 <= j < q.len() && (#[trigger] q[j]).instrument is None implies
                exists|x: int| 0 <= x < nr.len() && nr[x].0 == q[j].dim by {
                if j < ps.len() {
                    assert(q[j] == ps[j]);
                    let x = choose|x: int| 0 <= x < rs.len() && rs[x].0 == ps[j].dim;
                    if x < i {
                        assert(nr[x].0 == rs[x].0);
                    } else {
                        assert(nr[x + 1].0 == rs[x].0);
                    }
                } else {
                    assert(nr[i as int].0 == q[j].dim);
                }
            }
        }
    }
}

/// What a fold of fewer postings than a 64-bit count holds stays within 128
/// bits: every row's net, and the trial-balance difference.
pub proof fn lemma_totals_fit(t: Totals, ps: Seq<PostingView>)
    requires
        t.folds(ps),
        ps.len() < i64::MAX,
    ensures
        forall|i: int| 0 <= i < t.by_dim@.len() ==> i128::MIN <= (#[trigger] t.by_dim@[i]).1.debit - t.by_dim@[i].1.credit <= i128::MAX,
        i128::MIN <= t.debits - t.credits <= i128::MAX,
{
    assert forall|i: int| 0 <= i < t.by_dim@.len() implies i128::MIN <= (#[trigger] t.by_dim@[i]).1.debit - t.by_dim@[i].1.credit <= i128::MAX by {
        lemma_sums_bounded(ps, row_key(t.by_dim@[i]));
        let k = row_key(t.by_dim@[i]);
        assert(count_on(ps, k) * reach() <= ps.len() * reach()) by (nonlinear_arith)
            requires count_on(ps, k) <= ps.len(), reach() > 0;
        assert(ps.len() * reach() <= i64::MAX * reach()) by (nonlinear_arith)
            requires ps.len() < i64::MAX, reach() > 0;
    }
    lemma_sums_bounded(ps, (0, None));
    assert(ps.len() * reach() <= i64::MAX * reach()) by (nonlinear_arith)
        requires ps.len() < i64::MAX, reach() > 0;
}

} // verus!
