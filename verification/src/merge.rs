//! Merging the legs of rules compiled for one transaction.
//!
//! Two balanced templates remain balanced when their postings are added
//! together: a loan payment compiles interest and principal as separate rules
//! and concatenates them, and the cash account then has two credits. Legs that
//! share a dimension, a currency and an instrument are merged into one, in key
//! order, and a leg that merges to zero is dropped: a posting of nothing is
//! nothing that happened.

use vstd::prelude::*;
use crate::chart::{PostingRecord, PostingView, postings_view, posted_net, text_of};
use crate::checked::fits;
use crate::config::{Rejected, Rejection, overflow_rejected};
use crate::text::chars_of;

verus! {

/// Where a posting merges: its dimension, currency and instrument.
pub type MergeKey = (i64, Option<Seq<char>>, Option<Seq<char>>);

/// A posting's merge key.
pub open spec fn key_of(p: PostingView) -> MergeKey {
    (p.dim, p.currency, p.instrument)
}

/// Text order: character by character by code point, a prefix first. It is
/// the order of UTF-8 bytes, which is how `String` orders.
pub open spec fn text_lt(a: Seq<char>, b: Seq<char>) -> bool
    decreases a.len(),
{
    if b.len() == 0 {
        false
    } else if a.len() == 0 {
        true
    } else if a[0] != b[0] {
        a[0] < b[0]
    } else {
        text_lt(a.drop_first(), b.drop_first())
    }
}

/// Optional text order: absent first.
pub open spec fn opt_lt(a: Option<Seq<char>>, b: Option<Seq<char>>) -> bool {
    match (a, b) {
        (None, Some(_)) => true,
        (Some(x), Some(y)) => text_lt(x, y),
        _ => false,
    }
}

/// Key order: by dimension, then currency, then instrument.
pub open spec fn key_lt(a: MergeKey, b: MergeKey) -> bool {
    a.0 < b.0 || (a.0 == b.0 && (opt_lt(a.1, b.1) || (a.1 == b.1 && opt_lt(a.2, b.2))))
}

pub(crate) proof fn lemma_text_lt_strict(a: Seq<char>, b: Seq<char>)
    ensures
        !(text_lt(a, b) && text_lt(b, a)),
        !text_lt(a, a),
    decreases a.len(),
{
    if a.len() > 0 && b.len() > 0 && a[0] == b[0] {
        lemma_text_lt_strict(a.drop_first(), b.drop_first());
    }
    if a.len() > 0 {
        lemma_text_lt_strict(a.drop_first(), a.drop_first());
    }
}

pub(crate) proof fn lemma_text_lt_trans(a: Seq<char>, b: Seq<char>, c: Seq<char>)
    requires
        text_lt(a, b),
        text_lt(b, c),
    ensures
        text_lt(a, c),
    decreases a.len(),
{
    if a.len() > 0 && b.len() > 0 && c.len() > 0 && a[0] == b[0] && b[0] == c[0] {
        lemma_text_lt_trans(a.drop_first(), b.drop_first(), c.drop_first());
    }
}

pub(crate) proof fn lemma_text_lt_total(a: Seq<char>, b: Seq<char>)
    requires
        a != b,
    ensures
        text_lt(a, b) || text_lt(b, a),
    decreases a.len(),
{
    if a.len() > 0 && b.len() > 0 && a[0] == b[0] {
        if a.drop_first() == b.drop_first() {
            assert(a =~= seq![a[0]] + a.drop_first());
            assert(b =~= seq![b[0]] + b.drop_first());
        }
        lemma_text_lt_total(a.drop_first(), b.drop_first());
    } else if a.len() == 0 && b.len() == 0 {
        assert(a =~= b);
    }
}

pub(crate) proof fn lemma_key_lt_order(a: MergeKey, b: MergeKey, c: MergeKey)
    ensures
        !key_lt(a, a),
        !(key_lt(a, b) && key_lt(b, a)),
        key_lt(a, b) && key_lt(b, c) ==> key_lt(a, c),
        a != b ==> key_lt(a, b) || key_lt(b, a),
{
    if let (Some(x), Some(y)) = (a.1, b.1) {
        lemma_text_lt_strict(x, y);
        if x != y { lemma_text_lt_total(x, y); }
    }
    if let Some(x) = a.1 { lemma_text_lt_strict(x, x); }
    if let (Some(x), Some(y)) = (a.2, b.2) {
        lemma_text_lt_strict(x, y);
        if x != y { lemma_text_lt_total(x, y); }
    }
    if let Some(x) = a.2 { lemma_text_lt_strict(x, x); }
    if let (Some(x), Some(y), Some(z)) = (a.1, b.1, c.1) {
        if text_lt(x, y) && text_lt(y, z) { lemma_text_lt_trans(x, y, z); }
    }
    if let (Some(x), Some(y), Some(z)) = (a.2, b.2, c.2) {
        if text_lt(x, y) && text_lt(y, z) { lemma_text_lt_trans(x, y, z); }
    }
    if a != b && a.0 == b.0 && a.1 == b.1 {
        assert(a.2 != b.2);
    }
}

/// Legs merged in order: each key's amount and units so far, or the first
/// figure that does not fit in 64 bits. A key's units start from the first
/// leg's, add where both sides carry units, and keep what they had where the
/// new leg carries none.
pub open spec fn merged(ps: Seq<PostingView>) -> Result<Map<MergeKey, (i64, Option<i64>)>, Rejected>
    decreases ps.len(),
{
    if ps.len() == 0 {
        Ok(Map::empty())
    } else {
        match merged(ps.drop_last()) {
            Err(x) => Err(x),
            Ok(m) => {
                let p = ps.last();
                let k = key_of(p);
                let (a0, q0) = if m.contains_key(k) { m[k] } else { (0i64, None) };
                if !fits(a0 + p.amount) {
                    Err(overflow_rejected("a merged posting"@))
                } else {
                    let a = (a0 + p.amount) as i64;
                    match (q0, p.quantity) {
                        (None, q) => Ok(m.insert(k, (a, q))),
                        (Some(x), Some(y)) => if !fits(x + y) {
                            Err(overflow_rejected("a merged quantity"@))
                        } else {
                            Ok(m.insert(k, (a, Some((x + y) as i64))))
                        },
                        (Some(x), None) => Ok(m.insert(k, (a, Some(x)))),
                    }
                }
            },
        }
    }
}

/// Whether postings list a merged map: in strictly ascending key order, each
/// the figures of its key, and, where `all` is not asked, every key with a
/// figure other than zero and no key without one.
pub open spec fn lists_merged(v: Seq<PostingView>, m: Map<MergeKey, (i64, Option<i64>)>, all: bool) -> bool {
    &&& forall|i: int, j: int| 0 <= i < j < v.len() ==> key_lt(key_of(v[i]), key_of(v[j]))
    &&& forall|i: int| 0 <= i < v.len() ==> m.contains_key(key_of(#[trigger] v[i])) && m[key_of(v[i])] == (v[i].amount, v[i].quantity)
        && (all || v[i].amount != 0)
    &&& forall|k: MergeKey| #[trigger] m.contains_key(k) && (all || m[k].0 != 0) ==>
        exists|i: int| 0 <= i < v.len() && key_of(#[trigger] v[i]) == k
}

/// Whether one text comes before another.
pub(crate) fn text_before(a: &str, b: &str) -> (r: bool)
    ensures
        r == text_lt(a@, b@),
{
    let x = chars_of(a);
    let y = chars_of(b);
    let mut i: usize = 0;
    assert(x@.skip(0) =~= x@);
    assert(y@.skip(0) =~= y@);
    while i < x.len() && i < y.len() && x[i] == y[i]
        invariant
            0 <= i <= x@.len(),
            i <= y@.len(),
            x@ == a@,
            y@ == b@,
            text_lt(a@, b@) == text_lt(x@.skip(i as int), y@.skip(i as int)),
        decreases x@.len() - i,
    {
        assert(x@.skip(i as int).drop_first() =~= x@.skip(i + 1));
        assert(y@.skip(i as int).drop_first() =~= y@.skip(i + 1));
        i = i + 1;
    }
    if i == y.len() {
        false
    } else if i == x.len() {
        true
    } else {
        assert(x@.skip(i as int)[0] == x@[i as int]);
        assert(y@.skip(i as int)[0] == y@[i as int]);
        x[i] < y[i]
    }
}

pub(crate) fn opt_before(a: &Option<String>, b: &Option<String>) -> (r: bool)
    ensures
        r == opt_lt(text_of(*a), text_of(*b)),
{
    match (a, b) {
        (None, Some(_)) => true,
        (Some(x), Some(y)) => text_before(x.as_str(), y.as_str()),
        _ => false,
    }
}

pub(crate) fn opt_same(a: &Option<String>, b: &Option<String>) -> (r: bool)
    ensures
        r == (text_of(*a) == text_of(*b)),
{
    match (a, b) {
        (None, None) => true,
        (Some(x), Some(y)) => crate::text::str_eq(x.as_str(), y.as_str()),
        _ => false,
    }
}

/// Whether one posting's key comes before another's.
fn key_before(a: &PostingRecord, b: &PostingRecord) -> (r: bool)
    ensures
        r == key_lt(key_of(a@), key_of(b@)),
{
    a.dim < b.dim || (a.dim == b.dim && (opt_before(&a.currency, &b.currency)
        || (opt_same(&a.currency, &b.currency) && opt_before(&a.instrument, &b.instrument))))
}

/// Whether two postings share a key.
fn same_key(a: &PostingRecord, b: &PostingRecord) -> (r: bool)
    ensures
        r == (key_of(a@) == key_of(b@)),
{
    a.dim == b.dim && opt_same(&a.currency, &b.currency) && opt_same(&a.instrument, &b.instrument)
}

pub(crate) fn copy_text(o: &Option<String>) -> (r: Option<String>)
    ensures
        text_of(r) == text_of(*o),
{
    match o {
        Some(s) => Some(s.clone()),
        None => None,
    }
}

/// Merge one leg into a key-ordered list of merged legs.
fn merge_one(acc: &mut Vec<PostingRecord>, p: &PostingRecord, Ghost(m): Ghost<Map<MergeKey, (i64, Option<i64>)>>,
    Ghost(ps): Ghost<Seq<PostingView>>) -> (r: Result<(), Rejection>)
    requires
        merged(ps) == Ok::<Map<MergeKey, (i64, Option<i64>)>, Rejected>(m),
        lists_merged(postings_view(old(acc)@), m, true),
    ensures
        match merged(ps.push(p@)) {
            Ok(m2) => r is Ok && lists_merged(postings_view(final(acc)@), m2, true),
            Err(x) => r matches Err(e) && (e.reason, e.text@) == x,
        },
{
    let ghost q = ps.push(p@);
    assert(q.drop_last() =~= ps);
    let ghost k = key_of(p@);
    let mut i: usize = 0;
    while i < acc.len() && key_before(&acc[i], p)
        invariant
            0 <= i <= acc@.len(),
            k == key_of(p@),
            forall|j: int| 0 <= j < i ==> key_lt(key_of(acc@[j]@), k),
        decreases acc@.len() - i,
    {
        i = i + 1;
    }
    let ghost before = acc@;
    let ghost bv = postings_view(before);
    proof {
        assert forall|j: int| 0 <= j < before.len() implies #[trigger] bv[j] == before[j]@ by {}
    }
    let found = i < acc.len() && same_key(&acc[i], p);
    proof {
        if !found {
            assert(!m.contains_key(k)) by {
                if m.contains_key(k) {
                    let j = choose|j: int| 0 <= j < bv.len() && key_of(#[trigger] bv[j]) == k;
                    if j < i {
                        lemma_key_lt_order(k, k, k);
                    } else {
                        if j > i {
                            lemma_key_lt_order(key_of(bv[i as int]), key_of(bv[j]), k);
                        }
                        lemma_key_lt_order(key_of(bv[i as int]), k, k);
                    }
                }
            }
        } else {
            assert(bv == postings_view(old(acc)@));
            assert(bv[i as int] == acc@[i as int]@);
            assert(key_of(bv[i as int]) == k);
            assert(m.contains_key(k));
            assert(m[k] == (acc@[i as int].amount, acc@[i as int].quantity));
        }
    }
    let (a0, q0): (i64, Option<i64>) = if found { (acc[i].amount, acc[i].quantity) } else { (0, None) };
    let a = match crate::checked::add(a0, p.amount, "a merged posting") {
        Ok(v) => v,
        Err(o) => return Err(Rejection::overflow(o)),
    };
    let qn: Option<i64> = match (q0, p.quantity) {
        (None, qq) => qq,
        (Some(x), Some(y)) => match crate::checked::add(x, y, "a merged quantity") {
            Ok(v) => Some(v),
            Err(o) => return Err(Rejection::overflow(o)),
        },
        (Some(x), None) => Some(x),
    };
    let ghost m2 = m.insert(k, (a, qn));
    assert(merged(q) == Ok::<Map<MergeKey, (i64, Option<i64>)>, Rejected>(m2));
    let rec = PostingRecord {
        dim: p.dim,
        amount: a,
        currency: copy_text(&p.currency),
        instrument: copy_text(&p.instrument),
        quantity: qn,
    };
    assert(key_of(rec@) == k);
    if found {
        acc.set(i, rec);
        proof {
            let av = postings_view(acc@);
            assert forall|j: int| 0 <= j < av.len() implies #[trigger] av[j] == (if j == i { rec@ } else { bv[j] }) by {}
            assert forall|x: int, y: int| 0 <= x < y < av.len() implies key_lt(key_of(av[x]), key_of(av[y])) by {
                assert(key_of(av[x]) == key_of(bv[x]));
                assert(key_of(av[y]) == key_of(bv[y]));
            }
            assert forall|j: int| 0 <= j < av.len() implies m2.contains_key(key_of(#[trigger] av[j])) && m2[key_of(av[j])] == (av[j].amount, av[j].quantity) by {
                if j != i {
                    assert(key_of(bv[j]) != k) by {
                        lemma_key_lt_order(key_of(bv[j]), key_of(bv[i as int]), k);
                        lemma_key_lt_order(key_of(bv[i as int]), key_of(bv[j]), k);
                    }
                }
            }
            assert forall|kk: MergeKey| #[trigger] m2.contains_key(kk) && (true || m2[kk].0 != 0) implies
                exists|j: int| 0 <= j < av.len() && key_of(#[trigger] av[j]) == kk by {
                if kk == k {
                    assert(key_of(av[i as int]) == kk);
                } else {
                    let j = choose|j: int| 0 <= j < bv.len() && key_of(#[trigger] bv[j]) == kk;
                    assert(key_of(av[j]) == kk);
                }
            }
        }
    } else {
        acc.insert(i, rec);
        proof {
            let av = postings_view(acc@);
            assert(acc@ == before.insert(i as int, rec));
            assert forall|j: int| 0 <= j < av.len() implies #[trigger] av[j] == (if j < i { bv[j] } else if j == i { rec@ } else { bv[j - 1] }) by {}
            if i < bv.len() {
                lemma_key_lt_order(key_of(bv[i as int]), k, k);
                assert(key_of(bv[i as int]) != k);
                assert(key_lt(k, key_of(bv[i as int])));
            }
            assert forall|x: int, y: int| 0 <= x < y < av.len() implies key_lt(key_of(av[x]), key_of(av[y])) by {
                if y < i {
                } else if y == i {
                } else if x == i {
                    if y - 1 > i {
                        lemma_key_lt_order(k, key_of(bv[i as int]), key_of(bv[y - 1]));
                    }
                } else if x < i {
                    lemma_key_lt_order(key_of(bv[x]), k, key_of(bv[y - 1]));
                    if y - 1 > i {
                        lemma_key_lt_order(k, key_of(bv[i as int]), key_of(bv[y - 1]));
                    }
                } else {
                }
            }
            assert forall|j: int| 0 <= j < av.len() implies m2.contains_key(key_of(#[trigger] av[j])) && m2[key_of(av[j])] == (av[j].amount, av[j].quantity) by {
                if j < i {
                    assert(key_of(bv[j]) != k) by { lemma_key_lt_order(key_of(bv[j]), k, k); }
                } else if j > i {
                    assert(key_of(bv[j - 1]) != k) by {
                        lemma_key_lt_order(k, key_of(bv[i as int]), key_of(bv[j - 1]));
                        lemma_key_lt_order(key_of(bv[j - 1]), k, k);
                    }
                }
            }
            assert forall|kk: MergeKey| #[trigger] m2.contains_key(kk) && (true || m2[kk].0 != 0) implies
                exists|j: int| 0 <= j < av.len() && key_of(#[trigger] av[j]) == kk by {
                if kk == k {
                    assert(key_of(av[i as int]) == kk);
                } else {
                    let j = choose|j: int| 0 <= j < bv.len() && key_of(#[trigger] bv[j]) == kk;
                    if j < i {
                        assert(key_of(av[j]) == kk);
                    } else {
                        assert(key_of(av[j + 1]) == kk);
                    }
                }
            }
        }
    }
    Ok(())
}

/// What a filter of merged legs has kept: in key order, only legs that do
/// not net to zero, each one of the list's, and every one of the list's
/// first `j` that does not net to zero.
pub open spec fn kept(ov: Seq<PostingView>, av: Seq<PostingView>, j: int) -> bool {
    &&& forall|x: int, y: int| 0 <= x < y < ov.len() ==> key_lt(key_of(ov[x]), key_of(ov[y]))
    &&& forall|x: int| 0 <= x < ov.len() ==> (#[trigger] ov[x]).amount != 0 && exists|y: int| 0 <= y < j && av[y] == ov[x]
    &&& forall|y: int| 0 <= y < j && (#[trigger] av[y]).amount != 0 ==> exists|x: int| 0 <= x < ov.len() && ov[x] == av[y]
}

/// A filter part way through a merged list.
#[verifier::opaque]
spec fn dropping(ov: Seq<PostingView>, av: Seq<PostingView>, j: int, m: Map<MergeKey, (i64, Option<i64>)>) -> bool {
    lists_merged(av, m, true) && kept(ov, av, j)
}

proof fn lemma_kept_step(ov: Seq<PostingView>, av: Seq<PostingView>, j: int, m: Map<MergeKey, (i64, Option<i64>)>)
    requires
        0 <= j < av.len(),
        dropping(ov, av, j, m),
    ensures
        av[j].amount != 0 ==> dropping(ov.push(av[j]), av, j + 1, m),
        av[j].amount == 0 ==> dropping(ov, av, j + 1, m),
{
    reveal(dropping);
    if av[j].amount != 0 {
        let nv = ov.push(av[j]);
        assert forall|x: int, y: int| 0 <= x < y < nv.len() implies key_lt(key_of(nv[x]), key_of(nv[y])) by {
            if y == nv.len() - 1 {
                let z = choose|z: int| 0 <= z < j && av[z] == ov[x];
                assert(nv[x] == ov[x]);
            } else {
                assert(nv[x] == ov[x] && nv[y] == ov[y]);
            }
        }
        assert forall|x: int| 0 <= x < nv.len() implies (#[trigger] nv[x]).amount != 0 && exists|y: int| 0 <= y < j + 1 && av[y] == nv[x] by {
            if x < ov.len() {
                assert(nv[x] == ov[x]);
                let z = choose|z: int| 0 <= z < j && av[z] == ov[x];
            } else {
                assert(av[j] == nv[x]);
            }
        }
        assert forall|y: int| 0 <= y < j + 1 && (#[trigger] av[y]).amount != 0 implies exists|x: int| 0 <= x < nv.len() && nv[x] == av[y] by {
            if y == j {
                assert(nv[nv.len() - 1] == av[y]);
            } else {
                let x = choose|x: int| 0 <= x < ov.len() && ov[x] == av[y];
                assert(nv[x] == ov[x]);
            }
        }
    } else {
        assert forall|x: int| 0 <= x < ov.len() implies (#[trigger] ov[x]).amount != 0 && exists|y: int| 0 <= y < j + 1 && av[y] == ov[x] by {
            let z = choose|z: int| 0 <= z < j && av[z] == ov[x];
        }
    }
}

proof fn lemma_kept_lists(ov: Seq<PostingView>, av: Seq<PostingView>, m: Map<MergeKey, (i64, Option<i64>)>)
    requires
        dropping(ov, av, av.len() as int, m),
    ensures
        lists_merged(ov, m, false),
{
    reveal(dropping);
    assert forall|x: int| 0 <= x < ov.len() implies m.contains_key(key_of(#[trigger] ov[x])) && m[key_of(ov[x])] == (ov[x].amount, ov[x].quantity)
        && (false || ov[x].amount != 0) by {
        let y = choose|y: int| 0 <= y < av.len() && av[y] == ov[x];
    }
    assert forall|k: MergeKey| #[trigger] m.contains_key(k) && (false || m[k].0 != 0) implies
        exists|x: int| 0 <= x < ov.len() && key_of(#[trigger] ov[x]) == k by {
        let y = choose|y: int| 0 <= y < av.len() && key_of(#[trigger] av[y]) == k;
        let x = choose|x: int| 0 <= x < ov.len() && ov[x] == av[y];
        assert(key_of(ov[x]) == k);
    }
}

/// The merged legs without those that net to zero.
fn drop_zeros(acc: &Vec<PostingRecord>, Ghost(m): Ghost<Map<MergeKey, (i64, Option<i64>)>>) -> (out: Vec<PostingRecord>)
    requires
        lists_merged(postings_view(acc@), m, true),
    ensures
        lists_merged(postings_view(out@), m, false),
        posted_net(postings_view(out@)) == posted_net(postings_view(acc@)),
{
    let ghost av = postings_view(acc@);
    let mut out: Vec<PostingRecord> = Vec::new();
    let mut j: usize = 0;
    proof {
        assert(av.take(0) =~= Seq::<PostingView>::empty());
        assert(postings_view(out@) =~= Seq::<PostingView>::empty());
        assert(dropping(postings_view(out@), av, 0, m)) by { reveal(dropping); }
    }
    while j < acc.len()
        invariant
            0 <= j <= acc@.len(),
            av == postings_view(acc@),
            dropping(postings_view(out@), av, j as int, m),
            posted_net(postings_view(out@)) == posted_net(av.take(j as int)),
        decreases acc@.len() - j,
    {
        let p = &acc[j];
        proof {
            assert(av[j as int] == p@);
            assert(av.take(j + 1).drop_last() =~= av.take(j as int));
            assert(av.take(j + 1).last() == p@);
            lemma_kept_step(postings_view(out@), av, j as int, m);
        }
        if p.amount != 0 {
            let ghost before = postings_view(out@);
            let rec = PostingRecord {
                dim: p.dim,
                amount: p.amount,
                currency: copy_text(&p.currency),
                instrument: copy_text(&p.instrument),
                quantity: p.quantity,
            };
            out.push(rec);
            proof {
                assert(postings_view(out@) =~= before.push(p@));
                assert(postings_view(out@).drop_last() =~= before);
            }
        }
        j = j + 1;
    }
    proof {
        assert(av.take(acc@.len() as int) =~= av);
        lemma_kept_lists(postings_view(out@), av, m);
    }
    out
}

/// Merge legs that share a dimension, currency and instrument: the merged
/// legs in key order, a leg that nets to zero dropped; or the first figure
/// that does not fit in 64 bits.
pub fn merge_postings(legs: Vec<PostingRecord>) -> (r: Result<Vec<PostingRecord>, Rejection>)
    ensures
        match merged(postings_view(legs@)) {
            Ok(m) => r matches Ok(v) && lists_merged(postings_view(v@), m, false)
                && posted_net(postings_view(v@)) == posted_net(postings_view(legs@)),
            Err(x) => r matches Err(e) && (e.reason, e.text@) == x,
        },
{
    let ghost pv = postings_view(legs@);
    let mut acc: Vec<PostingRecord> = Vec::new();
    let ghost mut m: Map<MergeKey, (i64, Option<i64>)> = Map::empty();
    let mut i: usize = 0;
    proof {
        assert(pv.take(0) =~= Seq::<PostingView>::empty());
        assert(postings_view(acc@) =~= Seq::<PostingView>::empty());
    }
    while i < legs.len()
        invariant
            0 <= i <= legs@.len(),
            pv == postings_view(legs@),
            merged(pv.take(i as int)) == Ok::<Map<MergeKey, (i64, Option<i64>)>, Rejected>(m),
            lists_merged(postings_view(acc@), m, true),
        decreases legs@.len() - i,
    {
        proof {
            assert(pv.take(i + 1) =~= pv.take(i as int).push(legs@[i as int]@));
        }
        match merge_one(&mut acc, &legs[i], Ghost(m), Ghost(pv.take(i as int))) {
            Ok(()) => {
                proof { m = merged(pv.take(i + 1))->Ok_0; }
            },
            Err(e) => {
                proof { lemma_merge_refused_from(pv, i + 1, (e.reason, e.text@)); }
                return Err(e);
            },
        }
        i = i + 1;
    }
    proof {
        assert(pv.take(legs@.len() as int) =~= pv);
    }
    proof {
        lemma_merged_list_net(postings_view(acc@), pv);
    }
    let out = drop_zeros(&acc, Ghost(m));
    Ok(out)
}

proof fn lemma_merge_refused_from(ps: Seq<PostingView>, k: int, x: Rejected)
    requires
        0 <= k <= ps.len(),
        merged(ps.take(k)) == Err::<Map<MergeKey, (i64, Option<i64>)>, Rejected>(x),
    ensures
        merged(ps) == Err::<Map<MergeKey, (i64, Option<i64>)>, Rejected>(x),
    decreases ps.len() - k,
{
    if k == ps.len() {
        assert(ps.take(k) =~= ps);
    } else {
        assert(ps.take(k + 1).drop_last() =~= ps.take(k));
        lemma_merge_refused_from(ps, k + 1, x);
    }
}

// --------------------------------------------------------------- the net

/// The net of the legs on one key.
pub open spec fn key_net(ps: Seq<PostingView>, k: MergeKey) -> int
    decreases ps.len(),
{
    if ps.len() == 0 {
        0
    } else {
        key_net(ps.drop_last(), k) + (if key_of(ps.last()) == k { ps.last().amount as int } else { 0 })
    }
}

/// A merged key's amount is the net of its legs, and the keys merged are the
/// keys posted to.
proof fn lemma_merged_nets(ps: Seq<PostingView>)
    requires
        merged(ps) is Ok,
    ensures
        forall|k: MergeKey| #[trigger] merged(ps)->Ok_0.contains_key(k) <==> exists|i: int| 0 <= i < ps.len() && key_of(ps[i]) == k,
        forall|k: MergeKey| #[trigger] merged(ps)->Ok_0.contains_key(k) ==> merged(ps)->Ok_0[k].0 == key_net(ps, k),
    decreases ps.len(),
{
    if ps.len() > 0 {
        let q = ps.drop_last();
        lemma_merged_nets(q);
        let m = merged(q)->Ok_0;
        let m2 = merged(ps)->Ok_0;
        let p = ps.last();
        assert(ps[ps.len() - 1] == p);
        assert forall|k: MergeKey| #[trigger] m2.contains_key(k) <==> exists|i: int| 0 <= i < ps.len() && key_of(ps[i]) == k by {
            if m.contains_key(k) {
                let i = choose|i: int| 0 <= i < q.len() && key_of(q[i]) == k;
                assert(ps[i] == q[i]);
            }
            if exists|i: int| 0 <= i < ps.len() && key_of(ps[i]) == k {
                let i = choose|i: int| 0 <= i < ps.len() && key_of(ps[i]) == k;
                if i < q.len() {
                    assert(q[i] == ps[i]);
                }
            }
        }
        assert forall|k: MergeKey| #[trigger] m2.contains_key(k) implies m2[k].0 == key_net(ps, k) by {
            if k != key_of(p) {
                assert(m.contains_key(k));
            } else if !m.contains_key(k) {
                assert forall|i: int| 0 <= i < q.len() implies key_of(q[i]) != k by {}
                lemma_key_net_absent(q, k);
            }
        }
    }
}

proof fn lemma_key_net_absent(ps: Seq<PostingView>, k: MergeKey)
    requires
        forall|i: int| 0 <= i < ps.len() ==> key_of(ps[i]) != k,
    ensures
        key_net(ps, k) == 0,
    decreases ps.len(),
{
    if ps.len() > 0 {
        let q = ps.drop_last();
        assert forall|i: int| 0 <= i < q.len() implies key_of(q[i]) != k by {
            assert(q[i] == ps[i]);
        }
        lemma_key_net_absent(q, k);
        assert(ps[ps.len() - 1] == ps.last());
    }
}

/// The nets over a list of keys, added up.
pub open spec fn key_nets_over(keys: Seq<MergeKey>, ps: Seq<PostingView>) -> int
    decreases keys.len(),
{
    if keys.len() == 0 { 0 } else { key_nets_over(keys.drop_last(), ps) + key_net(ps, keys.last()) }
}

proof fn lemma_key_nets_over_nothing(keys: Seq<MergeKey>)
    ensures
        key_nets_over(keys, Seq::empty()) == 0,
    decreases keys.len(),
{
    if keys.len() > 0 {
        lemma_key_nets_over_nothing(keys.drop_last());
    }
}

proof fn lemma_key_nets_over_push(keys: Seq<MergeKey>, ps: Seq<PostingView>, p: PostingView)
    requires
        forall|i: int, j: int| 0 <= i < j < keys.len() ==> keys[i] != keys[j],
    ensures
        key_nets_over(keys, ps.push(p)) == key_nets_over(keys, ps)
            + (if exists|i: int| 0 <= i < keys.len() && keys[i] == key_of(p) { p.amount as int } else { 0 }),
    decreases keys.len(),
{
    let q = ps.push(p);
    assert(q.drop_last() =~= ps);
    if keys.len() > 0 {
        let k = keys.drop_last();
        assert forall|i: int, j: int| 0 <= i < j < k.len() implies k[i] != k[j] by {
            assert(k[i] == keys[i] && k[j] == keys[j]);
        }
        lemma_key_nets_over_push(k, ps, p);
        if exists|i: int| 0 <= i < k.len() && k[i] == key_of(p) {
            let i = choose|i: int| 0 <= i < k.len() && k[i] == key_of(p);
            assert(keys[i] == key_of(p));
            assert(keys[i] != keys[keys.len() - 1]);
        }
        if exists|i: int| 0 <= i < keys.len() && keys[i] == key_of(p) {
            let i = choose|i: int| 0 <= i < keys.len() && keys[i] == key_of(p);
            if i < k.len() {
                assert(k[i] == key_of(p));
            }
        }
    }
}

proof fn lemma_key_nets_over_cover(keys: Seq<MergeKey>, ps: Seq<PostingView>)
    requires
        forall|i: int, j: int| 0 <= i < j < keys.len() ==> keys[i] != keys[j],
        forall|i: int| 0 <= i < ps.len() ==> exists|j: int| 0 <= j < keys.len() && keys[j] == key_of(#[trigger] ps[i]),
    ensures
        key_nets_over(keys, ps) == posted_net(ps),
    decreases ps.len(),
{
    if ps.len() == 0 {
        lemma_key_nets_over_nothing(keys);
        assert(ps =~= Seq::<PostingView>::empty());
    } else {
        let q = ps.drop_last();
        assert(ps[ps.len() - 1] == ps.last());
        assert(exists|j: int| 0 <= j < keys.len() && keys[j] == key_of(ps[ps.len() - 1]));
        assert forall|i: int| 0 <= i < q.len() implies exists|j: int| 0 <= j < keys.len() && keys[j] == key_of(#[trigger] q[i]) by {
            assert(q[i] == ps[i]);
        }
        lemma_key_nets_over_cover(keys, q);
        assert(q.push(ps.last()) =~= ps);
        lemma_key_nets_over_push(keys, q, ps.last());
    }
}

/// The keys of a run of postings.
pub open spec fn keys_of(v: Seq<PostingView>) -> Seq<MergeKey> {
    v.map_values(|p: PostingView| key_of(p))
}

proof fn lemma_amounts_are_nets(v: Seq<PostingView>, ps: Seq<PostingView>)
    requires
        forall|i: int| 0 <= i < v.len() ==> (#[trigger] v[i]).amount == key_net(ps, key_of(v[i])),
    ensures
        posted_net(v) == key_nets_over(keys_of(v), ps),
    decreases v.len(),
{
    if v.len() > 0 {
        let c = v.drop_last();
        assert forall|i: int| 0 <= i < c.len() implies (#[trigger] c[i]).amount == key_net(ps, key_of(c[i])) by {
            assert(c[i] == v[i]);
        }
        lemma_amounts_are_nets(c, ps);
        assert(keys_of(v).drop_last() =~= keys_of(c));
        assert(v[v.len() - 1] == v.last());
    }
}

/// A list of every merged key, with its amount, nets to what was merged.
proof fn lemma_merged_list_net(v: Seq<PostingView>, ps: Seq<PostingView>)
    requires
        merged(ps) is Ok,
        lists_merged(v, merged(ps)->Ok_0, true),
    ensures
        posted_net(v) == posted_net(ps),
{
    let m = merged(ps)->Ok_0;
    lemma_merged_nets(ps);
    assert forall|i: int| 0 <= i < v.len() implies (#[trigger] v[i]).amount == key_net(ps, key_of(v[i])) by {
        assert(m.contains_key(key_of(v[i])));
    }
    lemma_amounts_are_nets(v, ps);
    let k = keys_of(v);
    assert forall|i: int, j: int| 0 <= i < j < k.len() implies k[i] != k[j] by {
        lemma_key_lt_order(key_of(v[i]), key_of(v[j]), key_of(v[j]));
    }
    assert forall|i: int| 0 <= i < ps.len() implies exists|j: int| 0 <= j < k.len() && k[j] == key_of(#[trigger] ps[i]) by {
        assert(m.contains_key(key_of(ps[i])));
        let j = choose|j: int| 0 <= j < v.len() && key_of(#[trigger] v[j]) == key_of(ps[i]);
        assert(k[j] == key_of(v[j]));
    }
    lemma_key_nets_over_cover(k, ps);
}

} // verus!
