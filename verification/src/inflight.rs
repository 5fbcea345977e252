//! Reconciling two books of record: the entries one has recognised and the
//! other has not yet, each with what recognising it moves a net asset value
//! by, and the refusals where no such list can account for the difference.

use vstd::prelude::*;
use crate::project::{DimTotal, InFlightEntry, Rates, Reconciliation, Unplaced};
use crate::projection::{first_under, first_def, effect_spec, effect_of, nav_no_rate, first_defs_index, first_def_index,
    defs_table, band_count};
use crate::relief::Day;
use crate::shadow::EntryView;
use crate::text::{decimal, digits, push_char, push_decimal, push_digits, push_quoted, quoted, str_eq};
use crate::translation::{translation, row_terms, translation_fits, posting_terms};
use crate::viewfold::{Band, FoldView, PendingEntry, Pending, UnplacedView, bands_view, unplaced_view};
use crate::views::{ViewDef, PlacementView, Placement, placement_of};

verus! {


/// An entry in flight between two books of record, as a value.
pub struct InFlightView {
    pub id: Seq<char>,
    pub memo: Seq<char>,
    pub trade_day: Day,
    pub recognised_here: Option<Day>,
    pub recognised_there: Option<Day>,
    pub effect: i64,
    pub in_here: bool,
}

impl View for InFlightEntry {
    type V = InFlightView;

    open spec fn view(&self) -> InFlightView {
        InFlightView {
            id: self.id@,
            memo: self.memo@,
            trade_day: self.trade_day,
            recognised_here: self.recognised_here,
            recognised_there: self.recognised_there,
            effect: self.effect,
            in_here: self.in_here,
        }
    }
}

/// A pending entry and the day it waits for.
pub type Waiting = (PendingEntry, Day);

/// The entries of one band, each with the day it waits for.
pub open spec fn band_run(b: Band) -> Seq<Waiting> {
    b.1.map_values(|pe: PendingEntry| (pe, b.0))
}

/// Every pending entry in bands, by day and in journal order within a day.
pub open spec fn flat(bands: Seq<Band>) -> Seq<Waiting>
    decreases bands.len(),
{
    if bands.len() == 0 {
        Seq::empty()
    } else {
        flat(bands.drop_last()) + band_run(bands.last())
    }
}

/// How many leading entries sit at positions before `at`.
pub open spec fn at_slot(list: Seq<Waiting>, at: int) -> int
    decreases list.len(),
{
    if list.len() == 0 || !(list[0].0.at < at) { 0 } else { 1 + at_slot(list.drop_first(), at) }
}

/// An entry put at its journal position, replacing one already there.
pub open spec fn keyed_put(list: Seq<Waiting>, w: Waiting) -> Seq<Waiting> {
    let p = at_slot(list, w.0.at);
    if 0 <= p < list.len() && list[p].0.at == w.0.at { list.update(p, w) } else { list.insert(p, w) }
}

/// Pending entries keyed by journal position, in position order; a later one
/// at a position replaces an earlier.
pub open spec fn keyed(fl: Seq<Waiting>) -> Seq<Waiting>
    decreases fl.len(),
{
    if fl.len() == 0 { Seq::empty() } else { keyed_put(keyed(fl.drop_last()), fl.last()) }
}

/// Whether an entry at a journal position waits in a list.
pub open spec fn has_at(list: Seq<Waiting>, at: int) -> bool {
    exists|i: int| 0 <= i < list.len() && (#[trigger] list[i]).0.at == at
}

/// When one view recognises an entry, from the configuration it pinned; none
/// on a basis that consults no date.
pub open spec fn recognition(defs: Seq<(Seq<char>, Result<Seq<ViewDef>, Seq<char>>)>, view: Seq<char>, e: EntryView, trade_day: Day) -> Option<Day> {
    match first_under(defs, e.config) {
        Some(Ok(ds)) => match first_def(ds, view) {
            Some(d) => match placement_of(d, e.id, Some(trade_day)) {
                PlacementView::On(x) => Some(x),
                _ => None,
            },
            None => None,
        },
        _ => None,
    }
}

/// The entries one view has recognised and the other has not, each with its
/// signed effect, in the order the list gives; and what the effects sum to.
pub open spec fn in_flight_walk(list: Seq<Waiting>, other: Seq<Waiting>, in_here: bool, other_view: Seq<char>,
    defs: Seq<(Seq<char>, Result<Seq<ViewDef>, Seq<char>>)>, dims: Seq<i64>, base: Option<Seq<char>>,
    table: Seq<(Seq<char>, i64)>) -> Result<(Seq<(int, InFlightView)>, int), Seq<char>>
    decreases list.len(),
{
    if list.len() == 0 {
        Ok((Seq::empty(), 0))
    } else {
        match in_flight_walk(list.drop_last(), other, in_here, other_view, defs, dims, base, table) {
            Err(w) => Err(w),
            Ok((es, sum)) => {
                let (pe, d) = list.last();
                if has_at(other, pe.at) {
                    Ok((es, sum))
                } else {
                    match effect_spec(pe.entry, dims, base, table) {
                        Err(w) => Err(w),
                        Ok(x) => {
                            let v = InFlightView {
                                id: pe.entry.id,
                                memo: pe.entry.memo,
                                trade_day: pe.trade_day,
                                recognised_here: if in_here { recognition(defs, other_view, pe.entry, pe.trade_day) } else { Some(d) },
                                recognised_there: if in_here { Some(d) } else { recognition(defs, other_view, pe.entry, pe.trade_day) },
                                effect: if in_here { x } else { (-x) as i64 },
                                in_here,
                            };
                            Ok((es.push((pe.at, v)), if in_here { sum + x } else { sum - x }))
                        },
                    }
                }
            },
        }
    }
}

/// Two lists in journal-position order merged into one, the first's entry
/// first at a tie.
pub open spec fn merge_by_at(xs: Seq<(int, InFlightView)>, ys: Seq<(int, InFlightView)>) -> Seq<(int, InFlightView)>
    decreases xs.len() + ys.len(),
{
    if xs.len() == 0 {
        ys
    } else if ys.len() == 0 {
        xs
    } else if xs[0].0 <= ys[0].0 {
        seq![xs[0]] + merge_by_at(xs.drop_first(), ys)
    } else {
        seq![ys[0]] + merge_by_at(xs, ys.drop_first())
    }
}

/// The ids of unplaced entries.
pub open spec fn unplaced_ids(us: Seq<UnplacedView>) -> Seq<Seq<char>> {
    us.map_values(|u: UnplacedView| u.id)
}

/// The first unplaced entry of one view the other can place, if any.
pub open spec fn first_counted(mine: Seq<UnplacedView>, theirs: Seq<UnplacedView>) -> Option<UnplacedView>
    decreases mine.len(),
{
    if mine.len() == 0 {
        None
    } else if !unplaced_ids(theirs).contains(mine[0].id) {
        Some(mine[0])
    } else {
        first_counted(mine.drop_first(), theirs)
    }
}

/// The refusal of an entry one view cannot place and the other counts.
pub open spec fn placed_by_one(name: Seq<char>, u: UnplacedView) -> Seq<char> {
    "view "@ + quoted(name) + " cannot place "@ + quoted(u.id)
        + " and the other view counts it, so the difference cannot be accounted for entry by entry: "@ + u.why
}

/// Unplaced entries of one view that the other cannot place either.
pub open spec fn placed_by_neither(mine: Seq<UnplacedView>, theirs: Seq<UnplacedView>) -> Seq<UnplacedView>
    decreases mine.len(),
{
    if mine.len() == 0 {
        Seq::empty()
    } else {
        let before = placed_by_neither(mine.drop_last(), theirs);
        if unplaced_ids(theirs).contains(mine.last().id) { before.push(mine.last()) } else { before }
    }
}

/// The refusal of a difference the in-flight entries do not sum to.
pub open spec fn residue(difference: int, summed: int) -> Seq<char> {
    "the NAVs differ by "@ + crate::text::decimal(difference) + " and the in-flight entries sum to "@ + crate::text::decimal(summed)
        + " — a translation residue of "@ + crate::text::decimal(difference - summed)
        + " minor units, because integer translation does not distribute over a sum. The difference cannot be accounted for entry by entry at these rates"@
}

/// A reconciliation, as a value.
pub struct ReconciliationView {
    pub here: Seq<char>,
    pub there: Seq<char>,
    pub entries: Seq<InFlightView>,
    pub unplaceable: Seq<UnplacedView>,
    pub difference: i64,
}

/// The entries of a merged walk, without their positions.
pub open spec fn seconds(s: Seq<(int, InFlightView)>) -> Seq<InFlightView> {
    s.map_values(|e: (int, InFlightView)| e.1)
}

/// What accounts for two views' net asset values differing: refused where
/// an entry only one view can place exists, where an effect or a value
/// cannot be translated, or where the entries do not sum to the difference;
/// otherwise the entries one view holds and the other does not, in journal
/// order, the entries neither can place, and the difference.
pub open spec fn reconciled(a: FoldView, b: FoldView, here: Seq<char>, there: Seq<char>,
    rows_a: Seq<((i64, Option<String>), DimTotal)>, rows_b: Seq<((i64, Option<String>), DimTotal)>,
    defs: Seq<(Seq<char>, Result<Seq<ViewDef>, Seq<char>>)>, dims: Seq<i64>, base: Option<Seq<char>>,
    table: Seq<(Seq<char>, i64)>) -> Result<ReconciliationView, Seq<char>> {
    if first_counted(a.unplaceable, b.unplaceable) is Some {
        Err(placed_by_one(here, first_counted(a.unplaceable, b.unplaceable)->Some_0))
    } else if first_counted(b.unplaceable, a.unplaceable) is Some {
        Err(placed_by_one(there, first_counted(b.unplaceable, a.unplaceable)->Some_0))
    } else {
        let ka = keyed(flat(a.bands));
        let kb = keyed(flat(b.bands));
        match in_flight_walk(kb, ka, true, here, defs, dims, base, table) {
            Err(w) => Err(w),
            Ok((from_there, s1)) => match in_flight_walk(ka, kb, false, there, defs, dims, base, table) {
                Err(w) => Err(w),
                Ok((from_here, s2)) => match translation(row_terms(rows_a, dims), base, table) {
                    Err(c) => Err(nav_no_rate(c)),
                    Ok(nav_a) => match translation(row_terms(rows_b, dims), base, table) {
                        Err(c) => Err(nav_no_rate(c)),
                        Ok(nav_b) => {
                            let difference = nav_a - nav_b;
                            let summed = s1 + s2;
                            if difference != summed {
                                Err(residue(difference, summed))
                            } else if !crate::checked::fits(difference) {
                                Err("the difference between these views does not fit in 64 bits"@)
                            } else {
                                Ok(ReconciliationView {
                                    here,
                                    there,
                                    entries: seconds(merge_by_at(from_there, from_here)),
                                    unplaceable: placed_by_neither(a.unplaceable, b.unplaceable),
                                    difference: difference as i64,
                                })
                            }
                        },
                    },
                },
            },
        }
    }
}


// ------------------------------------------------------------ the keyed bands

/// The band entry an index pair names, with the day it waits for.
pub open spec fn waiting_at(bv: Seq<Band>, ix: (usize, usize)) -> Waiting {
    (bv[ix.0 as int].1[ix.1 as int], bv[ix.0 as int].0)
}

/// Whether index pairs name, in order, the entries of a list.
pub open spec fn names(bv: Seq<Band>, ixs: Seq<(usize, usize)>, list: Seq<Waiting>) -> bool {
    &&& ixs.len() == list.len()
    &&& forall|k: int| 0 <= k < ixs.len() ==> {
        &&& (#[trigger] ixs[k]).0 < bv.len()
        &&& ixs[k].1 < bv[ixs[k].0 as int].1.len()
        &&& waiting_at(bv, ixs[k]) == list[k]
    }
}

proof fn lemma_at_slot(list: Seq<Waiting>, at: int)
    ensures
        0 <= at_slot(list, at) <= list.len(),
        forall|i: int| 0 <= i < at_slot(list, at) ==> list[i].0.at < at,
        at_slot(list, at) < list.len() ==> !(list[at_slot(list, at)].0.at < at),
    decreases list.len(),
{
    if list.len() > 0 && list[0].0.at < at {
        let t = list.drop_first();
        lemma_at_slot(t, at);
        assert forall|i: int| 0 <= i < at_slot(list, at) implies list[i].0.at < at by {
            if i > 0 {
                assert(list[i] == t[i - 1]);
            }
        }
        let p = at_slot(list, at);
        if p < list.len() {
            assert(list[p] == t[p - 1]);
        }
    }
}

pub(crate) proof fn lemma_flat_len(bands: Seq<Band>)
    ensures
        flat(bands).len() == band_count(bands),
    decreases bands.len(),
{
    if bands.len() > 0 {
        lemma_flat_len(bands.drop_last());
    }
}

pub(crate) proof fn lemma_keyed_len(fl: Seq<Waiting>)
    ensures
        keyed(fl).len() <= fl.len(),
    decreases fl.len(),
{
    if fl.len() > 0 {
        lemma_keyed_len(fl.drop_last());
        lemma_at_slot(keyed(fl.drop_last()), fl.last().0.at);
    }
}

/// Put the band entry `(b, j)` at its journal position in a keyed list.
fn put_keyed(list: &mut Vec<(usize, usize)>, pend: &Vec<(Day, Vec<Pending>)>, b: usize, j: usize, Ghost(k): Ghost<Seq<Waiting>>)
    requires
        b < pend@.len(),
        j < pend@[b as int].1@.len(),
        names(bands_view(pend@), old(list)@, k),
    ensures
        names(bands_view(pend@), final(list)@, keyed_put(k, waiting_at(bands_view(pend@), (b, j)))),
{
    let ghost bv = bands_view(pend@);
    let ghost w = waiting_at(bv, (b, j));
    let at = pend[b].1[j].at;
    assert(w.0.at == at as int);
    let ghost slot = at_slot(k, w.0.at);
    proof {
        lemma_at_slot(k, w.0.at);
    }
    let mut i: usize = 0;
    loop
        invariant
            bv == bands_view(pend@),
            names(bv, list@, k),
            0 <= i <= list@.len(),
            i <= slot,
            slot == at_slot(k, w.0.at),
            0 <= slot <= k.len(),
            forall|q: int| 0 <= q < slot ==> k[q].0.at < w.0.at,
            slot < k.len() ==> !(k[slot].0.at < w.0.at),
            at == w.0.at,
        ensures
            i == slot,
        decreases list@.len() - i,
    {
        if i == list.len() {
            break;
        }
        let (bi, ei) = list[i];
        assert(waiting_at(bv, list@[i as int]) == k[i as int]);
        if !(pend[bi].1[ei].at < at) {
            break;
        }
        i = i + 1;
    }
    if i < list.len() && pend[list[i].0].1[list[i].1].at == at {
        assert(waiting_at(bv, list@[i as int]) == k[i as int]);
        list.set(i, (b, j));
        proof {
            assert forall|q: int| 0 <= q < list@.len() implies {
                &&& (#[trigger] list@[q]).0 < bv.len()
                &&& list@[q].1 < bv[list@[q].0 as int].1.len()
                &&& waiting_at(bv, list@[q]) == keyed_put(k, w)[q]
            } by {
                if q != i {
                    assert(list@[q] == old(list)@[q]);
                }
            }
        }
    } else {
        proof {
            if i < list@.len() {
                assert(waiting_at(bv, list@[i as int]) == k[i as int]);
            }
        }
        list.insert(i, (b, j));
        proof {
            assert forall|q: int| 0 <= q < list@.len() implies {
                &&& (#[trigger] list@[q]).0 < bv.len()
                &&& list@[q].1 < bv[list@[q].0 as int].1.len()
                &&& waiting_at(bv, list@[q]) == keyed_put(k, w)[q]
            } by {
                if q < i {
                    assert(list@[q] == old(list)@[q]);
                } else if q > i {
                    assert(list@[q] == old(list)@[q - 1]);
                }
            }
        }
    }
}

/// Every pending entry of a fold's band, keyed by journal position, as
/// index pairs into the band.
pub(crate) fn keyed_band(pend: &Vec<(Day, Vec<Pending>)>) -> (r: Vec<(usize, usize)>)
    ensures
        names(bands_view(pend@), r@, keyed(flat(bands_view(pend@)))),
{
    let ghost bv = bands_view(pend@);
    let mut list: Vec<(usize, usize)> = Vec::new();
    let mut b: usize = 0;
    proof {
        assert(bv.take(0) =~= Seq::<Band>::empty());
    }
    while b < pend.len()
        invariant
            0 <= b <= pend@.len(),
            bv == bands_view(pend@),
            names(bv, list@, keyed(flat(bv.take(b as int)))),
        decreases pend@.len() - b,
    {
        let ghost fl0 = flat(bv.take(b as int));
        let mut j: usize = 0;
        proof {
            assert(fl0 + band_run(bv[b as int]).take(0) =~= fl0);
        }
        while j < pend[b].1.len()
            invariant
                0 <= b < pend@.len(),
                0 <= j <= pend@[b as int].1@.len(),
                bv == bands_view(pend@),
                bv[b as int].1.len() == pend@[b as int].1@.len(),
                fl0 == flat(bv.take(b as int)),
                names(bv, list@, keyed(fl0 + band_run(bv[b as int]).take(j as int))),
            decreases pend@[b as int].1@.len() - j,
        {
            let ghost fl = fl0 + band_run(bv[b as int]).take(j as int);
            put_keyed(&mut list, pend, b, j, Ghost(keyed(fl)));
            proof {
                let fl1 = fl0 + band_run(bv[b as int]).take(j + 1);
                assert(fl1.drop_last() =~= fl);
                assert(fl1.last() == waiting_at(bv, (b, j)));
            }
            j = j + 1;
        }
        proof {
            assert(band_run(bv[b as int]).take(j as int) =~= band_run(bv[b as int]));
            assert(bv.take(b + 1).drop_last() =~= bv.take(b as int));
            assert(bv.take(b + 1).last() == bv[b as int]);
        }
        b = b + 1;
    }
    proof {
        assert(bv.take(b as int) =~= bv);
    }
    list
}

// ------------------------------------------------------------ the walks

/// Walked entries, each with its journal position, as values.
pub open spec fn positions(v: Seq<(usize, InFlightEntry)>) -> Seq<(int, InFlightView)> {
    v.map_values(|e: (usize, InFlightEntry)| (e.0 as int, e.1@))
}

/// Whether an entry at a journal position waits in a keyed list.
fn holds_at(list: &Vec<(usize, usize)>, pend: &Vec<(Day, Vec<Pending>)>, at: usize, Ghost(k): Ghost<Seq<Waiting>>) -> (r: bool)
    requires
        names(bands_view(pend@), list@, k),
    ensures
        r == has_at(k, at as int),
{
    let ghost bv = bands_view(pend@);
    let mut i: usize = 0;
    while i < list.len()
        invariant
            0 <= i <= list@.len(),
            bv == bands_view(pend@),
            names(bv, list@, k),
            forall|q: int| 0 <= q < i ==> k[q].0.at != at as int,
        decreases list@.len() - i,
    {
        let (bi, ei) = list[i];
        assert(waiting_at(bv, list@[i as int]) == k[i as int]);
        if pend[bi].1[ei].at == at {
            assert(k[i as int].0.at == at as int);
            return true;
        }
        i = i + 1;
    }
    false
}

/// When one view recognises an entry, from the configuration it pinned.
fn recognition_for(defs: &Vec<(String, Result<Vec<ViewDef>, String>)>, view: &str, e: &crate::shadow::JournalEntry,
    trade_day: Day) -> (r: Option<Day>)
    ensures
        r == recognition(defs_table(defs@), view@, e@, trade_day),
{
    match first_defs_index(defs, e.config.as_str()) {
        Some(i) => match &defs[i].1 {
            Ok(ds) => match first_def_index(ds, view) {
                Some(j) => match ds[j].placement(e.id.as_str(), Some(trade_day)) {
                    Placement::On(d) => Some(d),
                    _ => None,
                },
                None => None,
            },
            Err(_) => None,
        },
        None => None,
    }
}

proof fn lemma_walk_err(list: Seq<Waiting>, n: int, other: Seq<Waiting>, in_here: bool, other_view: Seq<char>,
    defs: Seq<(Seq<char>, Result<Seq<ViewDef>, Seq<char>>)>, dims: Seq<i64>, base: Option<Seq<char>>,
    table: Seq<(Seq<char>, i64)>)
    requires
        0 <= n <= list.len(),
        in_flight_walk(list.take(n), other, in_here, other_view, defs, dims, base, table) is Err,
    ensures
        in_flight_walk(list, other, in_here, other_view, defs, dims, base, table)
            == in_flight_walk(list.take(n), other, in_here, other_view, defs, dims, base, table),
    decreases list.len(),
{
    if n == list.len() {
        assert(list.take(n) =~= list);
    } else {
        assert(list.drop_last().take(n) =~= list.take(n));
        lemma_walk_err(list.drop_last(), n, other, in_here, other_view, defs, dims, base, table);
    }
}

/// The entries of one keyed band the other does not hold, each with its
/// signed effect, and what the effects sum to.
pub(crate) fn walk(list: &Vec<(usize, usize)>, pend: &Vec<(Day, Vec<Pending>)>, other: &Vec<(usize, usize)>,
    opend: &Vec<(Day, Vec<Pending>)>, in_here: bool, other_view: &str, defs: &Vec<(String, Result<Vec<ViewDef>, String>)>,
    dims: &[i64], rates: &Rates, Ghost(k): Ghost<Seq<Waiting>>, Ghost(ko): Ghost<Seq<Waiting>>)
    -> (r: Result<(Vec<(usize, InFlightEntry)>, i128), String>)
    requires
        names(bands_view(pend@), list@, k),
        names(bands_view(opend@), other@, ko),
        forall|q: int| 0 <= q < k.len() ==>
            translation_fits(posting_terms((#[trigger] k[q]).0.entry.postings, dims@), rates.base_view(), rates.table()),
        k.len() <= 0x4000_0000_0000_0000,
    ensures
        match in_flight_walk(k, ko, in_here, other_view@, defs_table(defs@), dims@, rates.base_view(), rates.table()) {
            Err(w) => r matches Err(e) && e@ == w,
            Ok((es, sum)) => r matches Ok((v, s)) && positions(v@) == es && s == sum
                && -(k.len() * 0x8000_0000_0000_0000) <= sum <= k.len() * 0x8000_0000_0000_0000,
        },
{
    let ghost bv = bands_view(pend@);
    let ghost t = defs_table(defs@);
    let mut out: Vec<(usize, InFlightEntry)> = Vec::new();
    let mut sum: i128 = 0;
    let mut q: usize = 0;
    proof {
        assert(k.take(0) =~= Seq::<Waiting>::empty());
        assert(positions(out@) =~= Seq::<(int, InFlightView)>::empty());
    }
    while q < list.len()
        invariant
            0 <= q <= list@.len(),
            bv == bands_view(pend@),
            t == defs_table(defs@),
            names(bv, list@, k),
            names(bands_view(opend@), other@, ko),
            forall|x: int| 0 <= x < k.len() ==>
                translation_fits(posting_terms((#[trigger] k[x]).0.entry.postings, dims@), rates.base_view(), rates.table()),
            k.len() <= 0x4000_0000_0000_0000,
            in_flight_walk(k.take(q as int), ko, in_here, other_view@, t, dims@, rates.base_view(), rates.table())
                == Ok::<(Seq<(int, InFlightView)>, int), Seq<char>>((positions(out@), sum as int)),
            -(q * 0x8000_0000_0000_0000) <= sum <= q * 0x8000_0000_0000_0000,
        decreases list@.len() - q,
    {
        let (bi, ei) = list[q];
        assert(waiting_at(bv, list@[q as int]) == k[q as int]);
        let p = &pend[bi].1[ei];
        let day = pend[bi].0;
        proof {
            assert(k.take(q + 1).drop_last() =~= k.take(q as int));
            assert(k.take(q + 1).last() == k[q as int]);
            assert(k[q as int].0 == p@);
            assert(k[q as int].1 == day);
        }
        if !holds_at(other, opend, p.at, Ghost(ko)) {
            let effect = match effect_of(&p.entry, dims, rates) {
                Ok(x) => x,
                Err(w) => {
                    proof {
                        lemma_walk_err(k, q + 1, ko, in_here, other_view@, t, dims@, rates.base_view(), rates.table());
                    }
                    return Err(w);
                },
            };
            let rec = recognition_for(defs, other_view, &p.entry, p.trade_day);
            let signed: i64 = if in_here {
                effect
            } else if effect == i64::MIN {
                i64::MIN
            } else {
                -effect
            };
            proof {
                if !in_here && effect == i64::MIN {
                    assert((-(effect as int)) as i64 == i64::MIN) by (bit_vector)
                        requires effect == i64::MIN;
                }
            }
            let entry = InFlightEntry {
                id: p.entry.id.clone(),
                memo: p.entry.memo.clone(),
                trade_day: p.trade_day,
                recognised_here: if in_here { rec } else { Some(day) },
                recognised_there: if in_here { Some(day) } else { rec },
                effect: signed,
                in_here,
            };
            let ghost before = positions(out@);
            sum = if in_here { sum + effect as i128 } else { sum - effect as i128 };
            out.push((p.at, entry));
            proof {
                assert(positions(out@) =~= before.push((p.at as int, entry@)));
            }
        }
        q = q + 1;
    }
    proof {
        assert(k.take(q as int) =~= k);
    }
    Ok((out, sum))
}

// ------------------------------------------------------------ merging

proof fn lemma_merge_x(xs: Seq<(int, InFlightView)>, ys: Seq<(int, InFlightView)>)
    requires
        xs.len() > 0,
        ys.len() == 0 || xs[0].0 <= ys[0].0,
    ensures
        merge_by_at(xs, ys) == seq![xs[0]] + merge_by_at(xs.drop_first(), ys),
{
    if ys.len() == 0 {
        assert(merge_by_at(xs.drop_first(), ys) == xs.drop_first());
        assert(seq![xs[0]] + xs.drop_first() =~= xs);
    }
}

proof fn lemma_merge_y(xs: Seq<(int, InFlightView)>, ys: Seq<(int, InFlightView)>)
    requires
        ys.len() > 0,
        xs.len() == 0 || !(xs[0].0 <= ys[0].0),
    ensures
        merge_by_at(xs, ys) == seq![ys[0]] + merge_by_at(xs, ys.drop_first()),
{
    if xs.len() == 0 {
        assert(merge_by_at(xs, ys.drop_first()) == ys.drop_first());
        assert(seq![ys[0]] + ys.drop_first() =~= ys);
    }
}

/// An in-flight entry, copied.
fn copy_in_flight(e: &InFlightEntry) -> (r: InFlightEntry)
    ensures
        r@ == e@,
{
    InFlightEntry {
        id: e.id.clone(),
        memo: e.memo.clone(),
        trade_day: e.trade_day,
        recognised_here: e.recognised_here,
        recognised_there: e.recognised_there,
        effect: e.effect,
        in_here: e.in_here,
    }
}

/// Two walks merged into journal order, the first's entry first at a tie.
pub(crate) fn merge_walks(xs: &Vec<(usize, InFlightEntry)>, ys: &Vec<(usize, InFlightEntry)>) -> (r: Vec<InFlightEntry>)
    ensures
        r@.map_values(|e: InFlightEntry| e@) == seconds(merge_by_at(positions(xs@), positions(ys@))),
{
    let ghost px = positions(xs@);
    let ghost py = positions(ys@);
    let mut out: Vec<InFlightEntry> = Vec::new();
    let mut i: usize = 0;
    let mut j: usize = 0;
    let ghost mut done: Seq<(int, InFlightView)> = Seq::empty();
    proof {
        assert(px.skip(0) =~= px);
        assert(py.skip(0) =~= py);
        assert(done + merge_by_at(px, py) =~= merge_by_at(px, py));
    }
    while i < xs.len() || j < ys.len()
        invariant
            0 <= i <= xs@.len(),
            0 <= j <= ys@.len(),
            px == positions(xs@),
            py == positions(ys@),
            done + merge_by_at(px.skip(i as int), py.skip(j as int)) == merge_by_at(px, py),
            out@.map_values(|e: InFlightEntry| e@) == seconds(done),
        decreases xs@.len() + ys@.len() - i - j,
    {
        let ghost before = out@.map_values(|e: InFlightEntry| e@);
        if j == ys.len() || (i < xs.len() && xs[i].0 <= ys[j].0) {
            proof {
                lemma_merge_x(px.skip(i as int), py.skip(j as int));
                assert(px.skip(i as int).drop_first() =~= px.skip(i + 1));
                assert(done.push(px[i as int]) + merge_by_at(px.skip(i + 1), py.skip(j as int))
                    =~= done + (seq![px[i as int]] + merge_by_at(px.skip(i + 1), py.skip(j as int))));
            }
            out.push(copy_in_flight(&xs[i].1));
            proof {
                assert(out@.map_values(|e: InFlightEntry| e@) =~= before.push(px[i as int].1));
                assert(seconds(done.push(px[i as int])) =~= seconds(done).push(px[i as int].1));
                done = done.push(px[i as int]);
            }
            i = i + 1;
        } else {
            proof {
                lemma_merge_y(px.skip(i as int), py.skip(j as int));
                assert(py.skip(j as int).drop_first() =~= py.skip(j + 1));
                assert(done.push(py[j as int]) + merge_by_at(px.skip(i as int), py.skip(j + 1))
                    =~= done + (seq![py[j as int]] + merge_by_at(px.skip(i as int), py.skip(j + 1))));
            }
            out.push(copy_in_flight(&ys[j].1));
            proof {
                assert(out@.map_values(|e: InFlightEntry| e@) =~= before.push(py[j as int].1));
                assert(seconds(done.push(py[j as int])) =~= seconds(done).push(py[j as int].1));
                done = done.push(py[j as int]);
            }
            j = j + 1;
        }
    }
    proof {
        assert(px.skip(i as int) =~= Seq::<(int, InFlightView)>::empty());
        assert(py.skip(j as int) =~= Seq::<(int, InFlightView)>::empty());
        assert(done + Seq::<(int, InFlightView)>::empty() =~= done);
    }
    out
}

// ------------------------------------------------------------ unplaced entries

/// An unplaced entry, copied.
fn copy_unplaced(u: &Unplaced) -> (r: Unplaced)
    ensures
        r@ == u@,
{
    Unplaced { id: u.id.clone(), memo: u.memo.clone(), trade_day: u.trade_day, why: u.why.clone() }
}

/// Whether an id is among unplaced entries.
fn lists_id(us: &Vec<Unplaced>, id: &String) -> (r: bool)
    ensures
        r == unplaced_ids(unplaced_view(us@)).contains(id@),
{
    let ghost ids = unplaced_ids(unplaced_view(us@));
    let mut i: usize = 0;
    while i < us.len()
        invariant
            0 <= i <= us@.len(),
            ids == unplaced_ids(unplaced_view(us@)),
            ids.len() == us@.len(),
            forall|q: int| 0 <= q < i ==> ids[q] != id@,
        decreases us@.len() - i,
    {
        assert(ids[i as int] == us@[i as int].id@);
        if str_eq(us[i].id.as_str(), id.as_str()) {
            assert(ids[i as int] == id@);
            return true;
        }
        i = i + 1;
    }
    false
}

/// The first unplaced entry of one view the other can place, if any.
pub(crate) fn first_counted_index(mine: &Vec<Unplaced>, theirs: &Vec<Unplaced>) -> (r: Option<usize>)
    ensures
        match r {
            Some(i) => i < mine@.len() && first_counted(unplaced_view(mine@), unplaced_view(theirs@)) == Some(mine@[i as int]@),
            None => first_counted(unplaced_view(mine@), unplaced_view(theirs@)) is None,
        },
{
    let ghost m = unplaced_view(mine@);
    let ghost t = unplaced_view(theirs@);
    let mut i: usize = 0;
    proof {
        assert(m.skip(0) =~= m);
    }
    while i < mine.len()
        invariant
            0 <= i <= mine@.len(),
            m == unplaced_view(mine@),
            t == unplaced_view(theirs@),
            first_counted(m, t) == first_counted(m.skip(i as int), t),
        decreases mine@.len() - i,
    {
        assert(m.skip(i as int)[0] == mine@[i as int]@);
        assert(m.skip(i as int).drop_first() =~= m.skip(i + 1));
        if !lists_id(theirs, &mine[i].id) {
            return Some(i);
        }
        i = i + 1;
    }
    proof {
        assert(m.skip(i as int) =~= Seq::<UnplacedView>::empty());
    }
    None
}

/// Unplaced entries of one view that the other cannot place either.
pub(crate) fn neither(mine: &Vec<Unplaced>, theirs: &Vec<Unplaced>) -> (r: Vec<Unplaced>)
    ensures
        unplaced_view(r@) == placed_by_neither(unplaced_view(mine@), unplaced_view(theirs@)),
{
    let ghost m = unplaced_view(mine@);
    let ghost t = unplaced_view(theirs@);
    let mut out: Vec<Unplaced> = Vec::new();
    let mut i: usize = 0;
    proof {
        assert(m.take(0) =~= Seq::<UnplacedView>::empty());
        assert(unplaced_view(out@) =~= Seq::<UnplacedView>::empty());
    }
    while i < mine.len()
        invariant
            0 <= i <= mine@.len(),
            m == unplaced_view(mine@),
            t == unplaced_view(theirs@),
            unplaced_view(out@) == placed_by_neither(m.take(i as int), t),
        decreases mine@.len() - i,
    {
        proof {
            assert(m.take(i + 1).drop_last() =~= m.take(i as int));
            assert(m.take(i + 1).last() == mine@[i as int]@);
        }
        if lists_id(theirs, &mine[i].id) {
            let ghost before = unplaced_view(out@);
            out.push(copy_unplaced(&mine[i]));
            proof {
                assert(unplaced_view(out@) =~= before.push(mine@[i as int]@));
            }
        }
        i = i + 1;
    }
    proof {
        assert(m.take(i as int) =~= m);
    }
    out
}

/// The refusal of an entry one view cannot place and the other counts.
pub(crate) fn placed_by_one_message(name: &str, u: &Unplaced) -> (r: String)
    ensures
        r@ == placed_by_one(name@, u@),
{
    let mut s = String::from_str("view ");
    push_quoted(&mut s, name);
    s.append(" cannot place ");
    push_quoted(&mut s, u.id.as_str());
    s.append(" and the other view counts it, so the difference cannot be accounted for entry by entry: ");
    s.append(u.why.as_str());
    s
}

/// Append the decimal rendering of `d - e`, which may not fit in 128 bits.
fn push_difference(s: &mut String, d: i128, e: i128)
    requires
        -0x4000_0000_0000_0000_0000_0000_0000_0000 <= e <= 0x4000_0000_0000_0000_0000_0000_0000_0000,
    ensures
        final(s)@ == old(s)@ + decimal(d - e),
{
    if d >= 0 && e <= 0 {
        let m: u128 = d as u128 + (-e) as u128;
        assert(m == d - e);
        push_digits(s, m);
    } else if d < 0 && e > 0 {
        let m: u128 = ((-(d + 1)) as u128) + 1 + e as u128;
        assert(m == -(d - e));
        push_char(s, '-');
        push_digits(s, m);
        assert(old(s)@.push('-') + digits(m as nat) =~= old(s)@ + (seq!['-'] + digits(m as nat)));
    } else {
        push_decimal(s, d - e);
    }
}

/// The refusal of a difference the in-flight entries do not sum to.
pub(crate) fn residue_message(difference: i128, summed: i128) -> (r: String)
    requires
        -0x4000_0000_0000_0000_0000_0000_0000_0000 <= summed <= 0x4000_0000_0000_0000_0000_0000_0000_0000,
    ensures
        r@ == residue(difference as int, summed as int),
{
    let mut s = String::from_str("the NAVs differ by ");
    push_decimal(&mut s, difference);
    s.append(" and the in-flight entries sum to ");
    push_decimal(&mut s, summed);
    s.append(" — a translation residue of ");
    push_difference(&mut s, difference, summed);
    s.append(" minor units, because integer translation does not distribute over a sum. The difference cannot be accounted for entry by entry at these rates");
    s
}

impl View for Reconciliation {
    type V = ReconciliationView;

    open spec fn view(&self) -> ReconciliationView {
        ReconciliationView {
            here: self.here@,
            there: self.there@,
            entries: self.entries@.map_values(|e: InFlightEntry| e@),
            unplaceable: unplaced_view(self.unplaceable@),
            difference: self.difference,
        }
    }
}

// ------------------------------------------------------------ the difference is what is in flight

/// What entries' effects add up to.
pub open spec fn effects_sum(es: Seq<InFlightView>) -> int
    decreases es.len(),
{
    if es.len() == 0 { 0 } else { es[0].effect + effects_sum(es.drop_first()) }
}

/// Whether no entry one view holds only because the other has not yet
/// recognised it carries an effect negated past 64 bits.
pub open spec fn unwrapped(es: Seq<InFlightView>) -> bool {
    forall|i: int| 0 <= i < es.len() ==> (#[trigger] es[i]).in_here || es[i].effect != i64::MIN
}

proof fn lemma_effects_push(s: Seq<InFlightView>, v: InFlightView)
    ensures
        effects_sum(s.push(v)) == effects_sum(s) + v.effect,
    decreases s.len(),
{
    let t = s.push(v);
    assert(t.len() > 0);
    assert(effects_sum(t) == t[0].effect + effects_sum(t.drop_first()));
    if s.len() > 0 {
        lemma_effects_push(s.drop_first(), v);
        assert(t.drop_first() =~= s.drop_first().push(v));
        assert(t[0] == s[0]);
    } else {
        assert(t.drop_first() =~= Seq::<InFlightView>::empty());
        assert(effects_sum(t.drop_first()) == 0);
        assert(t[0] == v);
    }
}

proof fn lemma_walk_sum(list: Seq<Waiting>, other: Seq<Waiting>, in_here: bool, other_view: Seq<char>,
    defs: Seq<(Seq<char>, Result<Seq<ViewDef>, Seq<char>>)>, dims: Seq<i64>, base: Option<Seq<char>>,
    table: Seq<(Seq<char>, i64)>)
    requires
        in_flight_walk(list, other, in_here, other_view, defs, dims, base, table) is Ok,
        unwrapped(seconds(in_flight_walk(list, other, in_here, other_view, defs, dims, base, table)->Ok_0.0)),
    ensures
        ({
            let (es, sum) = in_flight_walk(list, other, in_here, other_view, defs, dims, base, table)->Ok_0;
            &&& sum == effects_sum(seconds(es))
            &&& forall|i: int| 0 <= i < es.len() ==> (#[trigger] es[i]).1.in_here == in_here
        }),
    decreases list.len(),
{
    if list.len() == 0 {
        assert(seconds(Seq::<(int, InFlightView)>::empty()) =~= Seq::<InFlightView>::empty());
    } else {
        let rest = in_flight_walk(list.drop_last(), other, in_here, other_view, defs, dims, base, table);
        let (es0, _) = rest->Ok_0;
        let (es, _) = in_flight_walk(list, other, in_here, other_view, defs, dims, base, table)->Ok_0;
        if !has_at(other, list.last().0.at) {
            assert(es =~= es0.push(es[es.len() - 1]));
            assert(seconds(es) =~= seconds(es0).push(es[es.len() - 1].1));
            assert forall|i: int| 0 <= i < seconds(es0).len() implies
                (#[trigger] seconds(es0)[i]).in_here || seconds(es0)[i].effect != i64::MIN by {
                assert(seconds(es0)[i] == seconds(es)[i]);
            }
            lemma_walk_sum(list.drop_last(), other, in_here, other_view, defs, dims, base, table);
            lemma_effects_push(seconds(es0), es[es.len() - 1].1);
            let x = es[es.len() - 1].1;
            let y = effect_spec(list.last().0.entry, dims, base, table)->Ok_0;
            assert(x.effect == (if in_here { y } else { (-y) as i64 }));
            if !in_here {
                assert(seconds(es)[es.len() - 1] == x);
                assert(x.effect != i64::MIN);
                if y == i64::MIN {
                    assert((-(y as int)) as i64 == i64::MIN) by (bit_vector)
                        requires y == i64::MIN;
                }
                assert(x.effect == -y);
            }
            assert forall|i: int| 0 <= i < es.len() implies (#[trigger] es[i]).1.in_here == in_here by {
                if i < es.len() - 1 {
                    assert(es[i] == es0[i]);
                }
            }
        } else {
            lemma_walk_sum(list.drop_last(), other, in_here, other_view, defs, dims, base, table);
        }
    }
}

proof fn lemma_merge_sum(xs: Seq<(int, InFlightView)>, ys: Seq<(int, InFlightView)>)
    ensures
        effects_sum(seconds(merge_by_at(xs, ys))) == effects_sum(seconds(xs)) + effects_sum(seconds(ys)),
        unwrapped(seconds(merge_by_at(xs, ys))) ==> unwrapped(seconds(xs)) && unwrapped(seconds(ys)),
    decreases xs.len() + ys.len(),
{
    if xs.len() == 0 {
    } else if ys.len() == 0 {
        assert(effects_sum(seconds(ys)) == 0);
    } else if xs[0].0 <= ys[0].0 {
        let m = merge_by_at(xs.drop_first(), ys);
        lemma_merge_sum(xs.drop_first(), ys);
        assert(seconds(seq![xs[0]] + m).drop_first() =~= seconds(m));
        assert(seconds(xs).drop_first() =~= seconds(xs.drop_first()));
        if unwrapped(seconds(merge_by_at(xs, ys))) {
            assert forall|i: int| 0 <= i < seconds(m).len() implies
                (#[trigger] seconds(m)[i]).in_here || seconds(m)[i].effect != i64::MIN by {
                assert(seconds(m)[i] == seconds(merge_by_at(xs, ys))[i + 1]);
            }
            assert forall|i: int| 0 <= i < seconds(xs).len() implies
                (#[trigger] seconds(xs)[i]).in_here || seconds(xs)[i].effect != i64::MIN by {
                if i == 0 {
                    assert(seconds(xs)[0] == seconds(merge_by_at(xs, ys))[0]);
                } else {
                    assert(seconds(xs)[i] == seconds(xs.drop_first())[i - 1]);
                }
            }
        }
    } else {
        let m = merge_by_at(xs, ys.drop_first());
        lemma_merge_sum(xs, ys.drop_first());
        assert(seconds(seq![ys[0]] + m).drop_first() =~= seconds(m));
        assert(seconds(ys).drop_first() =~= seconds(ys.drop_first()));
        if unwrapped(seconds(merge_by_at(xs, ys))) {
            assert forall|i: int| 0 <= i < seconds(m).len() implies
                (#[trigger] seconds(m)[i]).in_here || seconds(m)[i].effect != i64::MIN by {
                assert(seconds(m)[i] == seconds(merge_by_at(xs, ys))[i + 1]);
            }
            assert forall|i: int| 0 <= i < seconds(ys).len() implies
                (#[trigger] seconds(ys)[i]).in_here || seconds(ys)[i].effect != i64::MIN by {
                if i == 0 {
                    assert(seconds(ys)[0] == seconds(merge_by_at(xs, ys))[0]);
                } else {
                    assert(seconds(ys)[i] == seconds(ys.drop_first())[i - 1]);
                }
            }
        }
    }
}

/// Two views differ by exactly what is in flight: where a reconciliation is
/// given, the effects of its entries sum to its difference. The one
/// exception is an entry only the other view has recognised whose effect is
/// the least 64-bit integer, which its negation wraps back to.
pub proof fn law_the_difference_is_what_is_in_flight(a: FoldView, b: FoldView, here: Seq<char>, there: Seq<char>,
    rows_a: Seq<((i64, Option<String>), DimTotal)>, rows_b: Seq<((i64, Option<String>), DimTotal)>,
    defs: Seq<(Seq<char>, Result<Seq<ViewDef>, Seq<char>>)>, dims: Seq<i64>, base: Option<Seq<char>>,
    table: Seq<(Seq<char>, i64)>)
    requires
        reconciled(a, b, here, there, rows_a, rows_b, defs, dims, base, table) is Ok,
        unwrapped(reconciled(a, b, here, there, rows_a, rows_b, defs, dims, base, table)->Ok_0.entries),
    ensures
        ({
            let v = reconciled(a, b, here, there, rows_a, rows_b, defs, dims, base, table)->Ok_0;
            effects_sum(v.entries) == v.difference
        }),
{
    let ka = keyed(flat(a.bands));
    let kb = keyed(flat(b.bands));
    let (from_there, s1) = in_flight_walk(kb, ka, true, here, defs, dims, base, table)->Ok_0;
    let (from_here, s2) = in_flight_walk(ka, kb, false, there, defs, dims, base, table)->Ok_0;
    lemma_merge_sum(from_there, from_here);
    lemma_walk_sum(kb, ka, true, here, defs, dims, base, table);
    lemma_walk_sum(ka, kb, false, there, defs, dims, base, table);
}

} // verus!
