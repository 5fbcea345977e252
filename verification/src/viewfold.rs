//! One book of record's fold over the shared journal.
//!
//! A view recognises an entry always (journal order), on a day (its trade or
//! settlement date), or never, with the reason. An entry recognised on a day
//! inside the view's cut is applied at once; one beyond it waits in a band
//! keyed by that day. The cut is the journal's own clock, the highest trade
//! day folded: it only moves forward, and as it moves the band drains up to
//! it, by day and in journal order within a day.

use vstd::prelude::*;
use crate::chart::PostingView;
use crate::fold::{Positions, Totals};
use crate::lotbook::{BookView, LotBook, apply_lots, gain_leg_of, lots_after, lots_computable, reliefs_after, terms_view};
use crate::lots::pending_live;
use crate::project::{FoldCost, Terms, Unplaced};
use crate::relief::Day;
use crate::rules::Basis;
use crate::shadow::{EntryView, JournalEntry};
use crate::views::{Placement, PlacementView};
use crate::chart::PostingRecord;
use crate::merge::copy_text;

verus! {

/// An entry a view has read and not yet recognised.
#[derive(Debug)]
pub struct Pending {
    /// Its journal position.
    pub at: usize,
    pub entry: JournalEntry,
    /// The terms its own configuration set.
    pub terms: Result<Terms, String>,
    pub trade_day: Day,
}

/// A pending entry, as a value.
pub struct PendingEntry {
    pub at: int,
    pub entry: EntryView,
    pub terms: Result<Terms, Seq<char>>,
    pub trade_day: Day,
}

impl View for Pending {
    type V = PendingEntry;

    open spec fn view(&self) -> PendingEntry {
        PendingEntry { at: self.at as int, entry: self.entry@, terms: terms_view(self.terms), trade_day: self.trade_day }
    }
}

/// An entry a view can never recognise, as a value.
pub struct UnplacedView {
    pub id: Seq<char>,
    pub memo: Seq<char>,
    pub trade_day: Option<Day>,
    pub why: Seq<char>,
}

impl View for Unplaced {
    type V = UnplacedView;

    open spec fn view(&self) -> UnplacedView {
        UnplacedView { id: self.id@, memo: self.memo@, trade_day: self.trade_day, why: self.why@ }
    }
}

/// A band: pending entries keyed by the day they will be recognised.
pub type Band = (Day, Seq<PendingEntry>);

/// A view's fold, as a value: the postings it has applied, its lot book, how
/// it dates entries, its cut, its band and what it can never place.
pub struct FoldView {
    pub applied: Seq<PostingView>,
    pub lots: BookView,
    pub basis: Basis,
    pub through: Option<Day>,
    pub bands: Seq<Band>,
    pub unplaceable: Seq<UnplacedView>,
}

/// Pending entries, each as a value.
pub open spec fn pendings_of(s: Seq<Pending>) -> Seq<PendingEntry> {
    s.map_values(|p: Pending| p@)
}

/// Bands, each as a value.
pub open spec fn bands_view(s: Seq<(Day, Vec<Pending>)>) -> Seq<Band> {
    s.map_values(|b: (Day, Vec<Pending>)| (b.0, pendings_of(b.1@)))
}

/// Unplaced entries, each as a value.
pub open spec fn unplaced_view(s: Seq<Unplaced>) -> Seq<UnplacedView> {
    s.map_values(|u: Unplaced| u@)
}

/// Every posting of a run of pending entries.
pub open spec fn batch_postings(b: Seq<PendingEntry>) -> int
    decreases b.len(),
{
    if b.len() == 0 { 0 } else { batch_postings(b.drop_last()) + b.last().entry.postings.len() }
}

/// Every posting waiting in bands.
pub open spec fn band_postings(bands: Seq<Band>) -> int
    decreases bands.len(),
{
    if bands.len() == 0 { 0 } else { band_postings(bands.drop_last()) + batch_postings(bands.last().1) }
}

/// Whether every entry in a run can be applied to a lot book.
pub open spec fn batch_computable(b: Seq<PendingEntry>) -> bool {
    forall|i: int| 0 <= i < b.len() ==> lots_computable((#[trigger] b[i]).entry, b[i].terms)
}

/// Whether bands ascend strictly by day, and every entry in them can be
/// applied to a lot book.
pub open spec fn bands_sound(bands: Seq<Band>) -> bool {
    &&& forall|i: int, j: int| 0 <= i < j < bands.len() ==> bands[i].0 < bands[j].0
    &&& forall|i: int| 0 <= i < bands.len() ==> batch_computable((#[trigger] bands[i]).1)
}

/// One entry applied to a fold: its postings into the totals and positions,
/// and its sales and purchases into the lot book, after any break its date
/// makes.
pub open spec fn apply_spec(f: FoldView, at: int, e: EntryView, terms: Result<Terms, Seq<char>>, trade_day: Option<Day>,
    date_break: Option<Seq<char>>) -> FoldView {
    let lots0 = match date_break {
        Some(b) => BookView { breaks: f.lots.breaks.push(b), ..f.lots },
        None => f.lots,
    };
    FoldView {
        applied: f.applied + e.postings,
        lots: lots_after(lots0, e.postings, e, terms, trade_day, at, gain_leg_of(e.postings, terms)),
        ..f
    }
}

/// A run of pending entries applied in order.
pub open spec fn apply_batch(f: FoldView, b: Seq<PendingEntry>) -> FoldView
    decreases b.len(),
{
    if b.len() == 0 {
        f
    } else {
        let x = b.last();
        apply_spec(apply_batch(f, b.drop_last()), x.at, x.entry, x.terms, Some(x.trade_day), None)
    }
}

/// Bands drained up to a cut: each band on or before it applied in day
/// order, and what remains left waiting.
pub open spec fn drained(f: FoldView, bands: Seq<Band>, cut: Day) -> FoldView
    decreases bands.len(),
{
    if bands.len() > 0 && bands[0].0 <= cut {
        drained(apply_batch(f, bands[0].1), bands.drop_first(), cut)
    } else {
        FoldView { bands, ..f }
    }
}

/// How many leading bands fall before a day.
pub open spec fn band_slot(bands: Seq<Band>, d: Day) -> int
    decreases bands.len(),
{
    if bands.len() == 0 || !(bands[0].0 < d) { 0 } else { 1 + band_slot(bands.drop_first(), d) }
}

/// An entry put in the band for its day, after what is already waiting there.
pub open spec fn band_put(bands: Seq<Band>, d: Day, pe: PendingEntry) -> Seq<Band> {
    let p = band_slot(bands, d);
    if 0 <= p < bands.len() && bands[p].0 == d {
        bands.update(p, (d, bands[p].1.push(pe)))
    } else {
        bands.insert(p, (d, seq![pe]))
    }
}

/// One entry read by one view: applied where it is recognised inside the cut,
/// put in the band where it is recognised beyond it, reported where it can
/// never be; then the cut moves to its trade day, if that is later, and the
/// band drains up to it.
pub open spec fn view_step(f: FoldView, at: int, e: EntryView, terms: Result<Terms, Seq<char>>, trade_day: Option<Day>,
    date_break: Option<Seq<char>>, placement: PlacementView) -> FoldView {
    let f1 = match placement {
        PlacementView::Always => apply_spec(f, at, e, terms, trade_day, date_break),
        PlacementView::On(d) => if f.through matches Some(c) && d <= c {
            apply_spec(f, at, e, terms, trade_day, date_break)
        } else {
            FoldView { bands: band_put(f.bands, d, PendingEntry { at, entry: e, terms, trade_day: trade_day.unwrap() }), ..f }
        },
        PlacementView::Unplaceable(why) =>
            FoldView { unplaceable: f.unplaceable.push(UnplacedView { id: e.id, memo: e.memo, trade_day, why }), ..f },
    };
    match trade_day {
        Some(t) => if f1.through is None || t > f1.through.unwrap() {
            drained(FoldView { through: Some(t), ..f1 }, f1.bands, t)
        } else {
            f1
        },
        None => f1,
    }
}

/// A fold that has read nothing, dating entries on a basis.
pub open spec fn fresh_fold(basis: Basis) -> FoldView {
    FoldView {
        applied: Seq::empty(),
        lots: BookView {
            open: Seq::empty(),
            relieved: Seq::empty(),
            short_term: Seq::empty(),
            long_term: Seq::empty(),
            pending: Seq::empty(),
            breaks: Seq::empty(),
        },
        basis,
        through: None,
        bands: Seq::empty(),
        unplaceable: Seq::empty(),
    }
}

/// One view's fold over the shared journal.
pub struct ViewFold {
    pub positions: Positions,
    pub totals: Totals,
    pub lots: LotBook,
    /// How this view dates an entry, as the active configuration declares it.
    pub basis: Basis,
    /// The cut: the highest trade day the fold has seen.
    pub recognised_through: Option<Day>,
    /// Entries placed beyond the cut, by the day they will be recognised.
    pub pending: Vec<(Day, Vec<Pending>)>,
    /// Entries this view can never date, each with the reason.
    pub unplaceable: Vec<Unplaced>,
    /// Every posting applied so far, in order.
    pub applied: Ghost<Seq<PostingView>>,
}

impl View for ViewFold {
    type V = FoldView;

    open spec fn view(&self) -> FoldView {
        FoldView {
            applied: self.applied@,
            lots: self.lots@,
            basis: self.basis,
            through: self.recognised_through,
            bands: bands_view(self.pending@),
            unplaceable: unplaced_view(self.unplaceable@),
        }
    }
}

impl ViewFold {
    /// Whether the figures are the fold of what was applied, and what waits
    /// can be applied, within `seen` postings in all.
    pub open spec fn wf(&self, seen: int) -> bool {
        &&& self.totals.folds(self.applied@)
        &&& self.positions.folds(self.applied@)
        &&& pending_live(self.lots@.pending)
        &&& bands_sound(bands_view(self.pending@))
        &&& self.applied@.len() + band_postings(bands_view(self.pending@)) <= seen
        &&& seen < i64::MAX
    }

    /// An empty fold, dating entries on `basis`.
    pub fn new(basis: Basis) -> (r: ViewFold)
        ensures
            r.wf(0),
            r@ == fresh_fold(basis),
    {
        let r = ViewFold {
            positions: Positions::new(),
            totals: Totals::new(),
            lots: LotBook {
                open: Vec::new(),
                relieved: Vec::new(),
                short_term: Vec::new(),
                long_term: Vec::new(),
                pending_wash: Vec::new(),
                breaks: Vec::new(),
            },
            basis,
            recognised_through: None,
            pending: Vec::new(),
            unplaceable: Vec::new(),
            applied: Ghost(Seq::empty()),
        };
        proof {
            assert(bands_view(r.pending@) =~= Seq::<Band>::empty());
            assert(r.lots@.pending =~= Seq::<crate::lots::PendingView>::empty());
            assert(r.lots@.open =~= Seq::<crate::lotbook::HoldingView>::empty());
            assert(r.lots@.relieved =~= Seq::<crate::lotbook::CurrencyRow>::empty());
            assert(r.lots@.short_term =~= Seq::<crate::lotbook::CurrencyRow>::empty());
            assert(r.lots@.long_term =~= Seq::<crate::lotbook::CurrencyRow>::empty());
            assert(r.lots@.breaks =~= Seq::<Seq<char>>::empty());
            assert(unplaced_view(r.unplaceable@) =~= Seq::<UnplacedView>::empty());
        }
        r
    }
}

// ------------------------------------------------------------ copies

/// A posting, copied.
pub fn copy_posting(p: &PostingRecord) -> (r: PostingRecord)
    ensures
        r@ == p@,
{
    PostingRecord { dim: p.dim, amount: p.amount, currency: copy_text(&p.currency), instrument: copy_text(&p.instrument), quantity: p.quantity }
}

/// An entry, copied.
pub fn copy_entry(e: &JournalEntry) -> (r: JournalEntry)
    ensures
        r@ == e@,
{
    let mut ps: Vec<PostingRecord> = Vec::new();
    let mut i: usize = 0;
    while i < e.postings.len()
        invariant
            0 <= i <= e.postings@.len(),
            ps@.len() == i,
            forall|j: int| 0 <= j < i ==> (#[trigger] ps@[j])@ == e.postings@[j]@,
        decreases e.postings@.len() - i,
    {
        ps.push(copy_posting(&e.postings[i]));
        i = i + 1;
    }
    assert(crate::chart::postings_view(ps@) =~= crate::chart::postings_view(e.postings@));
    let announcement = match &e.announcement {
        Some(a) => Some(crate::shadow::Announcement {
            id: a.id.clone(),
            instrument: a.instrument.clone(),
            ex_date: a.ex_date.clone(),
            numerator: a.numerator,
            denominator: a.denominator,
        }),
        None => None,
    };
    let identified_lots = match &e.identified_lots {
        Some(v) => {
            let mut out: Vec<u64> = Vec::new();
            let mut j: usize = 0;
            while j < v.len()
                invariant
                    0 <= j <= v@.len(),
                    out@ == v@.take(j as int),
                decreases v@.len() - j,
            {
                out.push(v[j]);
                j = j + 1;
                assert(out@ =~= v@.take(j as int));
            }
            assert(v@.take(v@.len() as int) =~= v@);
            Some(out)
        },
        None => None,
    };
    JournalEntry {
        id: e.id.clone(),
        memo: e.memo.clone(),
        config: e.config.clone(),
        postings: ps,
        trade_date: copy_text(&e.trade_date),
        announcement,
        identified_lots,
    }
}

/// Terms, copied.
pub fn copy_terms(t: &Result<Terms, String>) -> (r: Result<Terms, String>)
    ensures
        terms_view(r) == terms_view(*t),
{
    match t {
        Ok(x) => Ok(*x),
        Err(s) => Err(s.clone()),
    }
}

// ------------------------------------------------------------ the sums

proof fn lemma_batch_postings_nonneg(b: Seq<PendingEntry>)
    ensures
        batch_postings(b) >= 0,
    decreases b.len(),
{
    if b.len() > 0 {
        lemma_batch_postings_nonneg(b.drop_last());
    }
}

pub(crate) proof fn lemma_band_postings_nonneg(bands: Seq<Band>)
    ensures
        band_postings(bands) >= 0,
    decreases bands.len(),
{
    if bands.len() > 0 {
        lemma_band_postings_nonneg(bands.drop_last());
        lemma_batch_postings_nonneg(bands.last().1);
    }
}

proof fn lemma_batch_postings_first(b: Seq<PendingEntry>)
    requires
        b.len() > 0,
    ensures
        batch_postings(b) == b[0].entry.postings.len() + batch_postings(b.drop_first()),
    decreases b.len(),
{
    if b.len() > 1 {
        lemma_batch_postings_first(b.drop_last());
        assert(b.drop_last().drop_first() =~= b.drop_first().drop_last());
        assert(b.drop_last()[0] == b[0]);
        assert(b.drop_first().last() == b.last());
    } else {
        assert(b.drop_first() =~= Seq::<PendingEntry>::empty());
        assert(b.drop_last() =~= Seq::<PendingEntry>::empty());
    }
}

proof fn lemma_band_postings_first(bands: Seq<Band>)
    requires
        bands.len() > 0,
    ensures
        band_postings(bands) == batch_postings(bands[0].1) + band_postings(bands.drop_first()),
    decreases bands.len(),
{
    if bands.len() > 1 {
        lemma_band_postings_first(bands.drop_last());
        assert(bands.drop_last().drop_first() =~= bands.drop_first().drop_last());
        assert(bands.drop_last()[0] == bands[0]);
        assert(bands.drop_first().last() == bands.last());
    } else {
        assert(bands.drop_first() =~= Seq::<Band>::empty());
        assert(bands.drop_last() =~= Seq::<Band>::empty());
    }
}

proof fn lemma_band_postings_update(bands: Seq<Band>, p: int, b: Seq<PendingEntry>)
    requires
        0 <= p < bands.len(),
    ensures
        band_postings(bands.update(p, (bands[p].0, b))) == band_postings(bands) - batch_postings(bands[p].1) + batch_postings(b),
    decreases bands.len(),
{
    let n = bands.update(p, (bands[p].0, b));
    if p < bands.len() - 1 {
        lemma_band_postings_update(bands.drop_last(), p, b);
        assert(n.drop_last() =~= bands.drop_last().update(p, (bands[p].0, b)));
    } else {
        assert(n.drop_last() =~= bands.drop_last());
    }
}

proof fn lemma_band_postings_insert(bands: Seq<Band>, p: int, x: Band)
    requires
        0 <= p <= bands.len(),
    ensures
        band_postings(bands.insert(p, x)) == band_postings(bands) + batch_postings(x.1),
    decreases bands.len(),
{
    let n = bands.insert(p, x);
    if p == bands.len() {
        assert(n.drop_last() =~= bands);
    } else {
        lemma_band_postings_insert(bands.drop_last(), p, x);
        assert(n.drop_last() =~= bands.drop_last().insert(p, x));
    }
}

proof fn lemma_band_slot_bounds(bands: Seq<Band>, d: Day)
    ensures
        0 <= band_slot(bands, d) <= bands.len(),
        forall|j: int| 0 <= j < band_slot(bands, d) ==> bands[j].0 < d,
        band_slot(bands, d) < bands.len() ==> !(bands[band_slot(bands, d)].0 < d),
    decreases bands.len(),
{
    if bands.len() > 0 && bands[0].0 < d {
        lemma_band_slot_bounds(bands.drop_first(), d);
        assert forall|j: int| 0 <= j < band_slot(bands, d) implies bands[j].0 < d by {
            if j > 0 {
                assert(bands[j] == bands.drop_first()[j - 1]);
            }
        }
        if band_slot(bands, d) < bands.len() {
            assert(bands[band_slot(bands, d)] == bands.drop_first()[band_slot(bands, d) - 1]);
        }
    }
}

proof fn lemma_drained_ignores_bands(f: FoldView, g: FoldView, bands: Seq<Band>, cut: Day)
    requires
        g == (FoldView { bands: g.bands, ..f }),
    ensures
        drained(f, bands, cut) == drained(g, bands, cut),
    decreases bands.len(),
{
    if bands.len() > 0 && bands[0].0 <= cut {
        lemma_batch_keeps_bands(f, bands[0].1);
        lemma_batch_keeps_bands(g, bands[0].1);
        lemma_batch_same(f, g, bands[0].1);
        lemma_drained_ignores_bands(apply_batch(f, bands[0].1), apply_batch(g, bands[0].1), bands.drop_first(), cut);
    }
}

proof fn lemma_batch_keeps_bands(f: FoldView, b: Seq<PendingEntry>)
    ensures
        apply_batch(f, b).bands == f.bands,
        apply_batch(f, b).basis == f.basis,
        apply_batch(f, b).through == f.through,
        apply_batch(f, b).unplaceable == f.unplaceable,
    decreases b.len(),
{
    if b.len() > 0 {
        lemma_batch_keeps_bands(f, b.drop_last());
    }
}

proof fn lemma_batch_same(f: FoldView, g: FoldView, b: Seq<PendingEntry>)
    requires
        g == (FoldView { bands: g.bands, ..f }),
    ensures
        apply_batch(g, b) == (FoldView { bands: g.bands, ..apply_batch(f, b) }),
    decreases b.len(),
{
    if b.len() > 0 {
        lemma_batch_same(f, g, b.drop_last());
        lemma_batch_keeps_bands(g, b.drop_last());
    }
}

// ------------------------------------------------------------ the fold

impl ViewFold {
    /// Apply one recognised entry: the totals, the positions and the lot
    /// book, after any break its date makes.
    pub fn apply(&mut self, cost: &mut FoldCost, at: usize, e: &JournalEntry, terms: &Result<Terms, String>,
        trade_day: Option<Day>, date_break: Option<&str>, Ghost(seen): Ghost<int>)
        requires
            old(self).wf(seen),
            old(self).applied@.len() + e@.postings.len() + band_postings(bands_view(old(self).pending@)) <= seen,
            lots_computable(e@, terms_view(*terms)),
        ensures
            final(self)@ == apply_spec(old(self)@, at as int, e@, terms_view(*terms), trade_day,
                match date_break { Some(b) => Some(b@), None => None }),
            final(self).wf(seen),
            final(cost).reliefs == reliefs_after(old(cost).reliefs, e@.postings, terms is Ok),
    {
        let ghost f0 = self@;
        match date_break {
            Some(b) => {
                let ghost bb = self.lots.breaks@;
                self.lots.breaks.push(String::from_str(b));
                proof {
                    assert(crate::lotbook::texts_view(self.lots.breaks@) =~= crate::lotbook::texts_view(bb).push(b@));
                }
            },
            None => {},
        }
        let ghost lots0 = self.lots@;
        assert(lots0 == match date_break {
            Some(b) => BookView { breaks: f0.lots.breaks.push(b@), ..f0.lots },
            None => f0.lots,
        });
        apply_lots(&mut self.lots, cost, at, e, terms, trade_day);
        let ghost lots1 = self.lots@;
        let ghost ps = e@.postings;
        let ghost a0 = self.applied@;
        let mut i: usize = 0;
        proof {
            assert(a0 + ps.take(0) =~= a0);
            lemma_band_postings_nonneg(bands_view(self.pending@));
        }
        while i < e.postings.len()
            invariant
                0 <= i <= e.postings@.len(),
                ps == e@.postings,
                ps.len() == e.postings@.len(),
                self.applied@ == a0 + ps.take(i as int),
                self.totals.folds(self.applied@),
                self.positions.folds(self.applied@),
                a0.len() + ps.len() < i64::MAX,
                self.lots@ == lots1,
                self@.bands == f0.bands,
                self@.unplaceable == f0.unplaceable,
                self@.basis == f0.basis,
                self@.through == f0.through,
            decreases e.postings@.len() - i,
        {
            let p = &e.postings[i];
            proof {
                assert(ps[i as int] == p@);
                assert(a0 + ps.take(i + 1) =~= (a0 + ps.take(i as int)).push(p@));
            }
            self.totals.add(p, Ghost(self.applied@));
            self.positions.add(p, Ghost(self.applied@));
            self.applied = Ghost(self.applied@.push(p@));
            i = i + 1;
        }
        proof {
            assert(ps.take(ps.len() as int) =~= ps);
            lemma_band_postings_nonneg(bands_view(self.pending@));
            assert(self@.applied == f0.applied + e@.postings);
            assert(self@.lots == lots_after(lots0, e@.postings, e@, terms_view(*terms), trade_day, at as int,
                gain_leg_of(e@.postings, terms_view(*terms))));
        }
    }

    /// Put an entry in the band for the day it will be recognised.
    #[verifier::rlimit(50)]
    fn put_in_band(&mut self, d: Day, pe: Pending)
        ensures
            final(self)@ == (FoldView { bands: band_put(old(self)@.bands, d, pe@), ..old(self)@ }),
            final(self).totals == old(self).totals,
            final(self).positions == old(self).positions,
            final(self).lots@ == old(self).lots@,
            band_postings(final(self)@.bands) == band_postings(old(self)@.bands) + pe@.entry.postings.len(),
            bands_sound(old(self)@.bands) && lots_computable(pe@.entry, pe@.terms) ==> bands_sound(final(self)@.bands),
    {
        let ghost bs = bands_view(self.pending@);
        let mut i: usize = 0;
        proof {
            assert(bs.skip(0) =~= bs);
            lemma_band_slot_bounds(bs, d);
        }
        while i < self.pending.len() && self.pending[i].0 < d
            invariant
                0 <= i <= self.pending@.len(),
                bs == bands_view(self.pending@),
                bs.len() == self.pending@.len(),
                band_slot(bs, d) == i + band_slot(bs.skip(i as int), d),
            decreases self.pending@.len() - i,
        {
            proof {
                assert(bs.skip(i as int)[0] == bs[i as int]);
                assert(bs.skip(i as int).drop_first() =~= bs.skip(i + 1));
            }
            i = i + 1;
        }
        proof {
            if i < self.pending@.len() {
                assert(bs.skip(i as int)[0] == bs[i as int]);
            }
            assert(band_slot(bs.skip(i as int), d) == 0);
            lemma_batch_postings_nonneg(seq![pe@]);
            assert(seq![pe@].drop_last() =~= Seq::<PendingEntry>::empty());
        }
        let ghost pev = pe@;
        if i < self.pending.len() && self.pending[i].0 == d {
            let (day, mut batch) = self.pending.remove(i);
            let ghost old_batch = pendings_of(batch@);
            batch.push(pe);
            proof {
                assert(pendings_of(batch@) =~= old_batch.push(pev));
                assert(pendings_of(batch@).drop_last() =~= old_batch);
                assert(old_batch == bs[i as int].1);
                assert(bs[i as int].1.push(pev).drop_last() =~= bs[i as int].1);
                assert(batch_postings(bs[i as int].1.push(pev)) == batch_postings(bs[i as int].1) + pev.entry.postings.len());
            }
            self.pending.insert(i, (day, batch));
            proof {
                let n = bands_view(self.pending@);
                assert forall|j: int| 0 <= j < n.len() implies #[trigger] n[j] == bs.update(i as int, (d, bs[i as int].1.push(pev)))[j] by {
                    if j < i {
                        assert(self.pending@[j] == old(self).pending@[j]);
                    } else if j > i {
                        assert(self.pending@[j] == old(self).pending@[j]);
                    }
                }
                assert(n =~= bs.update(i as int, (d, bs[i as int].1.push(pev))));
                lemma_band_postings_update(bs, i as int, bs[i as int].1.push(pev));
                if bands_sound(bs) && lots_computable(pev.entry, pev.terms) {
                    assert forall|j: int| 0 <= j < n.len() implies batch_computable((#[trigger] n[j]).1) by {
                        if j == i {
                            let b = n[j].1;
                            assert forall|x: int| 0 <= x < b.len() implies lots_computable((#[trigger] b[x]).entry, b[x].terms) by {
                                if x < b.len() - 1 {
                                    assert(b[x] == bs[i as int].1[x]);
                                }
                            }
                        }
                    }
                }
            }
        } else {
            let mut batch: Vec<Pending> = Vec::new();
            batch.push(pe);
            self.pending.insert(i, (d, batch));
            proof {
                let n = bands_view(self.pending@);
                assert(pendings_of(batch@) =~= seq![pev]);
                assert forall|j: int| 0 <= j < n.len() implies #[trigger] n[j] == bs.insert(i as int, (d, seq![pev]))[j] by {
                    if j < i {
                        assert(self.pending@[j] == old(self).pending@[j]);
                    } else if j > i {
                        assert(self.pending@[j] == old(self).pending@[j - 1]);
                    }
                }
                assert(n =~= bs.insert(i as int, (d, seq![pev])));
                lemma_band_postings_insert(bs, i as int, (d, seq![pev]));
                assert(batch_postings(seq![pev]) == batch_postings(Seq::<PendingEntry>::empty()) + pev.entry.postings.len());
                if bands_sound(bs) && lots_computable(pev.entry, pev.terms) {
                    assert forall|x: int, y: int| 0 <= x < y < n.len() implies n[x].0 < n[y].0 by {
                        if y < i {
                        } else if y == i {
                        } else if x < i {
                            if i < bs.len() {
                                assert(!(bs[i as int].0 < d));
                            }
                        } else if x == i {
                            if i < bs.len() {
                                assert(!(bs[i as int].0 < d));
                                assert(bs[i as int].0 != d);
                            }
                        }
                    }
                    assert forall|j: int| 0 <= j < n.len() implies batch_computable((#[trigger] n[j]).1) by {
                        if j == i {
                            assert(n[j].1 == seq![pev]);
                        } else if j > i {
                            assert(n[j] == bs[j - 1]);
                        }
                    }
                }
            }
        }
    }
}

impl ViewFold {
    /// Drain the band up to a cut: each band on or before it applied, by day
    /// and in journal order within a day.
    pub fn drain(&mut self, cost: &mut FoldCost, cut: Day, Ghost(seen): Ghost<int>)
        requires
            old(self).wf(seen),
        ensures
            final(self)@ == drained(old(self)@, old(self)@.bands, cut),
            final(self).wf(seen),
    {
        let ghost f0 = self@;
        let ghost b0 = f0.bands;
        while self.pending.len() > 0 && self.pending[0].0 <= cut
            invariant
                self.wf(seen),
                drained(f0, b0, cut) == drained(self@, self@.bands, cut),
            decreases self.pending@.len(),
        {
            let ghost before = self@;
            let ghost bs = before.bands;
            let (d, batch) = self.pending.remove(0);
            let ghost bv = pendings_of(batch@);
            let ghost rest = bs.drop_first();
            proof {
                assert(bs[0] == (d, bv));
                assert(bands_view(self.pending@) =~= rest);
                assert(self@ == (FoldView { bands: rest, ..before }));
                lemma_band_postings_first(bs);
                assert(batch_computable(bs[0].1));
                assert(bv.skip(0) =~= bv);
                assert(bv.take(0) =~= Seq::<PendingEntry>::empty());
                lemma_band_postings_nonneg(rest);
                lemma_batch_postings_nonneg(bv);
            }
            let mut j: usize = 0;
            while j < batch.len()
                invariant
                    0 <= j <= batch@.len(),
                    bv == pendings_of(batch@),
                    bv.len() == batch@.len(),
                    batch_computable(bv),
                    self@ == (FoldView { bands: rest, ..apply_batch(before, bv.take(j as int)) }),
                    self.totals.folds(self.applied@),
                    self.positions.folds(self.applied@),
                    pending_live(self.lots@.pending),
                    bands_sound(rest),
                    bands_view(self.pending@) == rest,
                    self.applied@.len() + batch_postings(bv.skip(j as int)) + band_postings(rest) <= seen,
                    seen < i64::MAX,
                decreases batch@.len() - j,
            {
                let pe = &batch[j];
                proof {
                    assert(bv[j as int] == pe@);
                    lemma_batch_postings_first(bv.skip(j as int));
                    assert(bv.skip(j as int)[0] == bv[j as int]);
                    assert(bv.skip(j as int).drop_first() =~= bv.skip(j + 1));
                    lemma_batch_postings_nonneg(bv.skip(j + 1));
                    assert(lots_computable(bv[j as int].entry, bv[j as int].terms));
                    assert(bv.take(j + 1).drop_last() =~= bv.take(j as int));
                    assert(bv.take(j + 1).last() == bv[j as int]);
                }
                self.apply(cost, pe.at, &pe.entry, &pe.terms, Some(pe.trade_day), None, Ghost(seen));
                proof {
                    lemma_batch_keeps_bands(before, bv.take(j as int));
                }
                j = j + 1;
            }
            proof {
                assert(bv.take(bv.len() as int) =~= bv);
                lemma_batch_keeps_bands(before, bv);
                assert(apply_batch(FoldView { bands: rest, ..before }, bv) == self@) by {
                    lemma_batch_same(before, FoldView { bands: rest, ..before }, bv);
                }
                lemma_drained_ignores_bands(apply_batch(before, bv), self@, rest, cut);
                assert forall|x: int, y: int| 0 <= x < y < rest.len() implies rest[x].0 < rest[y].0 by {
                    assert(rest[x] == bs[x + 1] && rest[y] == bs[y + 1]);
                }
            }
        }
    }

    /// Read one entry: apply it where it is recognised inside the cut, band
    /// it where beyond, report it where it can never be placed; then move the
    /// cut to its trade day, if later, and drain the band up to it.
    pub fn read_entry(&mut self, cost: &mut FoldCost, at: usize, e: &JournalEntry, terms: &Result<Terms, String>,
        trade_day: Option<Day>, date_break: Option<&str>, placement: &Placement, Ghost(seen): Ghost<int>)
        requires
            old(self).wf(seen - e@.postings.len()),
            seen < i64::MAX,
            lots_computable(e@, terms_view(*terms)),
            placement@ is On ==> trade_day is Some,
        ensures
            final(self)@ == view_step(old(self)@, at as int, e@, terms_view(*terms), trade_day,
                match date_break { Some(b) => Some(b@), None => None }, placement@),
            final(self).wf(seen),
    {
        let ghost f0 = self@;
        proof {
            lemma_band_postings_nonneg(f0.bands);
        }
        match placement {
            Placement::Always => {
                self.apply(cost, at, e, terms, trade_day, date_break, Ghost(seen));
            },
            Placement::On(d) => {
                let inside = match self.recognised_through {
                    Some(c) => *d <= c,
                    None => false,
                };
                if inside {
                    self.apply(cost, at, e, terms, trade_day, date_break, Ghost(seen));
                } else {
                    let pe = Pending { at, entry: copy_entry(e), terms: copy_terms(terms), trade_day: trade_day.unwrap() };
                    self.put_in_band(*d, pe);
                }
            },
            Placement::Unplaceable(why) => {
                let u = Unplaced { id: e.id.clone(), memo: e.memo.clone(), trade_day, why: why.clone() };
                let ghost us = self.unplaceable@;
                self.unplaceable.push(u);
                proof {
                    assert(unplaced_view(self.unplaceable@) =~= unplaced_view(us).push(u@));
                }
            },
        }
        match trade_day {
            Some(t) => {
                let later = match self.recognised_through {
                    Some(c) => t > c,
                    None => true,
                };
                if later {
                    self.recognised_through = Some(t);
                    self.drain(cost, t, Ghost(seen));
                }
            },
            None => {},
        }
    }
}

} // verus!

verus! {

// ------------------------------------------------------------ copies of a fold

/// A text or none, copied.
pub(crate) fn copy_opt(o: &Option<String>) -> (r: Option<String>)
    ensures
        r == *o,
{
    match o {
        Some(s) => Some(s.clone()),
        None => None,
    }
}

fn copy_by_dim(v: &Vec<((i64, Option<String>), crate::project::DimTotal)>) -> (r: Vec<((i64, Option<String>), crate::project::DimTotal)>)
    ensures
        r@ == v@,
{
    let mut out: Vec<((i64, Option<String>), crate::project::DimTotal)> = Vec::new();
    let mut i: usize = 0;
    while i < v.len()
        invariant
            0 <= i <= v@.len(),
            out@ == v@.take(i as int),
        decreases v@.len() - i,
    {
        let e = &v[i];
        out.push(((e.0.0, copy_opt(&e.0.1)), e.1));
        i = i + 1;
        assert(out@ =~= v@.take(i as int));
    }
    assert(v@.take(v@.len() as int) =~= v@);
    out
}

fn copy_held(v: &Vec<((i64, String), (i64, i64))>) -> (r: Vec<((i64, String), (i64, i64))>)
    ensures
        r@ == v@,
{
    let mut out: Vec<((i64, String), (i64, i64))> = Vec::new();
    let mut i: usize = 0;
    while i < v.len()
        invariant
            0 <= i <= v@.len(),
            out@ == v@.take(i as int),
        decreases v@.len() - i,
    {
        let e = &v[i];
        out.push(((e.0.0, e.0.1.clone()), e.1));
        i = i + 1;
        assert(out@ =~= v@.take(i as int));
    }
    assert(v@.take(v@.len() as int) =~= v@);
    out
}

fn copy_pairs(v: &Vec<(i64, i64)>) -> (r: Vec<(i64, i64)>)
    ensures
        r@ == v@,
{
    let mut out: Vec<(i64, i64)> = Vec::new();
    let mut i: usize = 0;
    while i < v.len()
        invariant
            0 <= i <= v@.len(),
            out@ == v@.take(i as int),
        decreases v@.len() - i,
    {
        out.push(v[i]);
        i = i + 1;
        assert(out@ =~= v@.take(i as int));
    }
    assert(v@.take(v@.len() as int) =~= v@);
    out
}

fn copy_rows(v: &Vec<(Option<String>, i128)>) -> (r: Vec<(Option<String>, i128)>)
    ensures
        r@ == v@,
{
    let mut out: Vec<(Option<String>, i128)> = Vec::new();
    let mut i: usize = 0;
    while i < v.len()
        invariant
            0 <= i <= v@.len(),
            out@ == v@.take(i as int),
        decreases v@.len() - i,
    {
        out.push((copy_opt(&v[i].0), v[i].1));
        i = i + 1;
        assert(out@ =~= v@.take(i as int));
    }
    assert(v@.take(v@.len() as int) =~= v@);
    out
}

/// Texts, copied.
pub(crate) fn copy_texts(v: &Vec<String>) -> (r: Vec<String>)
    ensures
        r@ == v@,
{
    let mut out: Vec<String> = Vec::new();
    let mut i: usize = 0;
    while i < v.len()
        invariant
            0 <= i <= v@.len(),
            out@ == v@.take(i as int),
        decreases v@.len() - i,
    {
        out.push(v[i].clone());
        i = i + 1;
        assert(out@ =~= v@.take(i as int));
    }
    assert(v@.take(v@.len() as int) =~= v@);
    out
}

fn copy_washes(v: &Vec<crate::lots::PendingWash>) -> (r: Vec<crate::lots::PendingWash>)
    ensures
        r@ == v@,
{
    let mut out: Vec<crate::lots::PendingWash> = Vec::new();
    let mut i: usize = 0;
    while i < v.len()
        invariant
            0 <= i <= v@.len(),
            out@ == v@.take(i as int),
        decreases v@.len() - i,
    {
        let w = &v[i];
        out.push(crate::lots::PendingWash {
            dim: w.dim,
            instrument: w.instrument.clone(),
            window: w.window,
            sold_on: w.sold_on,
            remaining_units: w.remaining_units,
            remaining_loss: w.remaining_loss,
            original_acquired: w.original_acquired,
        });
        i = i + 1;
        assert(out@ =~= v@.take(i as int));
    }
    assert(v@.take(v@.len() as int) =~= v@);
    out
}

fn copy_open(v: &Vec<((i64, String), crate::holding::Holding)>) -> (r: Vec<((i64, String), crate::holding::Holding)>)
    ensures
        crate::lotbook::holdings_view(r@) == crate::lotbook::holdings_view(v@),
{
    let mut out: Vec<((i64, String), crate::holding::Holding)> = Vec::new();
    let mut i: usize = 0;
    while i < v.len()
        invariant
            0 <= i <= v@.len(),
            out@.len() == i,
            forall|k: int| 0 <= k < i ==> (#[trigger] out@[k]).0 == v@[k].0 && out@[k].1.order() == v@[k].1.order()
                && out@[k].1.queue() == v@[k].1.queue(),
        decreases v@.len() - i,
    {
        let e = &v[i];
        out.push(((e.0.0, e.0.1.clone()), e.1.clone()));
        i = i + 1;
    }
    assert(crate::lotbook::holdings_view(out@) =~= crate::lotbook::holdings_view(v@));
    out
}

fn copy_batch(v: &Vec<Pending>) -> (r: Vec<Pending>)
    ensures
        pendings_of(r@) == pendings_of(v@),
{
    let mut out: Vec<Pending> = Vec::new();
    let mut i: usize = 0;
    while i < v.len()
        invariant
            0 <= i <= v@.len(),
            out@.len() == i,
            forall|k: int| 0 <= k < i ==> (#[trigger] out@[k])@ == v@[k]@,
        decreases v@.len() - i,
    {
        let p = &v[i];
        out.push(Pending { at: p.at, entry: copy_entry(&p.entry), terms: copy_terms(&p.terms), trade_day: p.trade_day });
        i = i + 1;
    }
    assert(pendings_of(out@) =~= pendings_of(v@));
    out
}

fn copy_bands(v: &Vec<(Day, Vec<Pending>)>) -> (r: Vec<(Day, Vec<Pending>)>)
    ensures
        bands_view(r@) == bands_view(v@),
{
    let mut out: Vec<(Day, Vec<Pending>)> = Vec::new();
    let mut i: usize = 0;
    while i < v.len()
        invariant
            0 <= i <= v@.len(),
            out@.len() == i,
            forall|k: int| 0 <= k < i ==> (#[trigger] out@[k]).0 == v@[k].0 && pendings_of(out@[k].1@) == pendings_of(v@[k].1@),
        decreases v@.len() - i,
    {
        out.push((v[i].0, copy_batch(&v[i].1)));
        i = i + 1;
    }
    assert(bands_view(out@) =~= bands_view(v@));
    out
}

fn copy_unplaced_list(v: &Vec<Unplaced>) -> (r: Vec<Unplaced>)
    ensures
        r@ == v@,
{
    let mut out: Vec<Unplaced> = Vec::new();
    let mut i: usize = 0;
    while i < v.len()
        invariant
            0 <= i <= v@.len(),
            out@ == v@.take(i as int),
        decreases v@.len() - i,
    {
        let u = &v[i];
        out.push(Unplaced { id: u.id.clone(), memo: u.memo.clone(), trade_day: u.trade_day, why: u.why.clone() });
        i = i + 1;
        assert(out@ =~= v@.take(i as int));
    }
    assert(v@.take(v@.len() as int) =~= v@);
    out
}

impl ViewFold {
    /// This fold, copied: the same figures, lots, band and unplaced entries.
    pub(crate) fn copy(&self) -> (r: ViewFold)
        ensures
            r@ == self@,
            forall|seen: int| self.wf(seen) ==> r.wf(seen),
    {
        let r = ViewFold {
            positions: Positions { held: copy_held(&self.positions.held), rest: copy_pairs(&self.positions.rest) },
            totals: Totals { by_dim: copy_by_dim(&self.totals.by_dim), debits: self.totals.debits, credits: self.totals.credits },
            lots: LotBook {
                open: copy_open(&self.lots.open),
                relieved: copy_rows(&self.lots.relieved),
                short_term: copy_rows(&self.lots.short_term),
                long_term: copy_rows(&self.lots.long_term),
                pending_wash: copy_washes(&self.lots.pending_wash),
                breaks: copy_texts(&self.lots.breaks),
            },
            basis: self.basis,
            recognised_through: self.recognised_through,
            pending: copy_bands(&self.pending),
            unplaceable: copy_unplaced_list(&self.unplaceable),
            applied: Ghost(self.applied@),
        };
        assert(r@ =~= self@);
        r
    }
}

} // verus!
