//! Tables kept in ascending key order, one row per key.
//!
//! A running total keyed by dimension, currency and instrument is a row in a
//! table ordered as the keys are: finding a key's row scans past the keys
//! below it, and a key not yet present goes exactly there.

use vstd::prelude::*;
use crate::merge::{MergeKey, key_lt, lemma_key_lt_order};

verus! {

/// Whether keys ascend strictly: no key twice, each below the next.
pub open spec fn ascending(ks: Seq<MergeKey>) -> bool {
    forall|i: int, j: int| 0 <= i < j < ks.len() ==> key_lt(ks[i], ks[j])
}

/// Where a key belongs in ascending keys, after every key below it: either
/// its row is there, or it is nowhere and can be put there.
pub proof fn lemma_slot(ks: Seq<MergeKey>, k: MergeKey, p: int)
    requires
        ascending(ks),
        0 <= p <= ks.len(),
        forall|j: int| 0 <= j < p ==> key_lt(ks[j], k),
        p < ks.len() ==> !key_lt(ks[p], k),
    ensures
        p < ks.len() && ks[p] == k ==> forall|j: int| 0 <= j < ks.len() && j != p ==> ks[j] != k,
        !(p < ks.len() && ks[p] == k) ==> (forall|j: int| 0 <= j < ks.len() ==> ks[j] != k),
        !(p < ks.len() && ks[p] == k) ==> ascending(ks.insert(p, k)),
{
    assert forall|j: int| 0 <= j < p implies ks[j] != k by {
        lemma_key_lt_order(ks[j], k, k);
    }
    if p < ks.len() {
        lemma_key_lt_order(ks[p], k, k);
        if ks[p] != k {
            assert(key_lt(k, ks[p]));
        }
        assert forall|j: int| p < j < ks.len() implies ks[j] != k && key_lt(k, ks[j]) by {
            lemma_key_lt_order(k, ks[p], ks[j]);
            lemma_key_lt_order(ks[p], ks[j], k);
            if ks[p] == k {
                lemma_key_lt_order(k, ks[j], k);
            }
        }
    }
    if !(p < ks.len() && ks[p] == k) {
        let n = ks.insert(p, k);
        assert forall|x: int, y: int| 0 <= x < y < n.len() implies key_lt(n[x], n[y]) by {
            if y < p {
            } else if y == p {
            } else if x < p {
                lemma_key_lt_order(ks[x], k, ks[y - 1]);
                if y - 1 > p {
                    lemma_key_lt_order(k, ks[p], ks[y - 1]);
                }
            } else if x == p {
            } else {
            }
        }
    }
}

} // verus!
