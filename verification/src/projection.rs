//! The read model: the journal folded once and advanced incrementally.
//!
//! One pass feeds every book of record the active configuration declares. An
//! entry is recognised by each view under the configuration that entry pinned,
//! never the one in force now; a view that configuration does not declare, or
//! a configuration that could not be read, leaves the entry unplaceable in
//! that view rather than folded in journal order. Every figure read out
//! carries the journal prefix, the view and the cut it was read at.

use vstd::prelude::*;
use crate::chart::PostingView;
use crate::dates::{days_from_iso_date, iso_day};
use crate::lotbook::{lots_computable, terms_view};
use crate::merge::text_lt;
use crate::project::{FoldCost, Terms, Unplaced};
use crate::relief::{Day, Method};
use crate::rules::{Basis, UNDECLARED_VIEW};
use crate::shadow::{EntryView, JournalEntry};
use crate::text::{chars_of, push_quoted, quoted, str_eq, string_of};
use crate::viewfold::{FoldView, ViewFold, view_step, fresh_fold, PendingEntry, Pending, band_postings, bands_view, unplaced_view, UnplacedView, Band};
use crate::project::{AsOf, DimTotal, Rates, Realized, OpenWashWindow, InFlightEntry, Reconciliation};
use crate::rules::ChartRoles;
use crate::translation::{translation, translation_fits, row_terms, posting_terms, currency_terms, no_rate_words,
    translate_rows, translate_postings, translate_currencies};
use crate::fold::{debits_of, credits_of};
use crate::lotbook::currency_view;
use crate::lots::PendingView;
use crate::fold::{Positions, lists_totals};
use crate::relief::Lot;
use crate::lotbook::{holding_of, CurrencyRow};
use crate::order::{Order, arranged};
use crate::views::{Placement, PlacementView, ViewDef, placement_of};
use crate::inflight::{first_counted_index, placed_by_one_message, keyed_band, flat, keyed, waiting_at, lemma_flat_len,
    lemma_keyed_len, walk, residue_message, merge_walks, neither, reconciled};
use crate::translation::fits128;

verus! {

/// Corporate actions announced, and those already applied by rewriting lots.
pub struct Actions {
    /// Per announcement, in journal order: instrument, ex-date, id, numerator,
    /// denominator.
    pub announced: Vec<(String, String, String, i64, i64)>,
    /// Ids whose rewrite entry is in the prefix, each once.
    pub rewritten: Vec<String>,
}

/// The read model.
pub struct Projection {
    /// The books of record folded, by view id in ascending order.
    views: Vec<(String, ViewFold)>,
    actions: Actions,
    /// How far into the journal's file this has read.
    read_to: u64,
    /// Entries folded so far.
    at: usize,
    /// Where the fold's effort went.
    cost: FoldCost,
    /// The terms each configuration sets, by digest, resolved once.
    terms: Vec<(String, Result<Terms, String>)>,
    /// The views each configuration declares, by digest, resolved once.
    view_defs: Vec<(String, Result<Vec<ViewDef>, String>)>,
    /// Postings handed to the fold, in all.
    seen: u64,
}

/// A projection, as a value.
pub struct ProjectionView {
    pub views: Seq<(Seq<char>, FoldView)>,
    pub announced: Seq<(Seq<char>, Seq<char>, Seq<char>, i64, i64)>,
    pub rewritten: Seq<Seq<char>>,
    pub at: int,
    pub read_to: u64,
    pub terms: Seq<(Seq<char>, Result<Terms, Seq<char>>)>,
    pub defs: Seq<(Seq<char>, Result<Seq<ViewDef>, Seq<char>>)>,
}

/// Folds by view id, as values.
pub open spec fn folds_view(v: Seq<(String, ViewFold)>) -> Seq<(Seq<char>, FoldView)> {
    v.map_values(|e: (String, ViewFold)| (e.0@, e.1@))
}

/// Announcements, as values.
pub open spec fn announced_view(v: Seq<(String, String, String, i64, i64)>) -> Seq<(Seq<char>, Seq<char>, Seq<char>, i64, i64)> {
    v.map_values(|a: (String, String, String, i64, i64)| (a.0@, a.1@, a.2@, a.3, a.4))
}

/// Resolved terms by digest, as values.
pub open spec fn terms_table(v: Seq<(String, Result<Terms, String>)>) -> Seq<(Seq<char>, Result<Terms, Seq<char>>)> {
    v.map_values(|e: (String, Result<Terms, String>)| (e.0@, terms_view(e.1)))
}

/// Resolved views by digest, as values.
pub open spec fn defs_table(v: Seq<(String, Result<Vec<ViewDef>, String>)>) -> Seq<(Seq<char>, Result<Seq<ViewDef>, Seq<char>>)> {
    v.map_values(|e: (String, Result<Vec<ViewDef>, String>)| (e.0@, match e.1 { Ok(d) => Ok(d@), Err(s) => Err(s@) }))
}

/// The first entry of a table under a key.
pub open spec fn first_under<V>(t: Seq<(Seq<char>, V)>, k: Seq<char>) -> Option<V>
    decreases t.len(),
{
    if t.len() == 0 {
        None
    } else if t[0].0 == k {
        Some(t[0].1)
    } else {
        first_under(t.drop_first(), k)
    }
}

/// The first view definition with an id.
pub open spec fn first_def(ds: Seq<ViewDef>, vid: Seq<char>) -> Option<ViewDef>
    decreases ds.len(),
{
    if ds.len() == 0 {
        None
    } else if ds[0].id@ == vid {
        Some(ds[0])
    } else {
        first_def(ds.drop_first(), vid)
    }
}

/// An entry whose pinned configuration does not declare a view.
pub open spec fn no_such_view(id: Seq<char>, config: Seq<char>, vid: Seq<char>) -> Seq<char> {
    id + ": the configuration this entry pinned ("@ + config + ") declares no view "@ + quoted(vid)
        + ", so this view cannot say when it is recognised"@
}

/// An entry whose pinned configuration could not be read.
pub open spec fn unreadable_configuration(id: Seq<char>, config: Seq<char>, why: Seq<char>) -> Seq<char> {
    id + ": the configuration this entry pinned ("@ + config + ") could not be read — "@ + why
}

/// An entry folded from a slice, which carries no configurations.
pub open spec fn folded_from_a_slice(id: Seq<char>, vid: Seq<char>) -> Seq<char> {
    id + ": this fold was advanced from a slice, which carries no configurations to say when view "@ + quoted(vid)
        + " recognises it"@
}

/// Where one view puts one entry, resolved from the configuration that entry
/// pinned: journal order needs no configuration; any other view needs the
/// pinned one to declare it.
pub open spec fn entry_placement(defs: Seq<(Seq<char>, Result<Seq<ViewDef>, Seq<char>>)>, vid: Seq<char>, e: EntryView,
    trade_day: Option<Day>) -> PlacementView {
    match first_under(defs, e.config) {
        Some(Ok(ds)) => match first_def(ds, vid) {
            Some(d) => placement_of(d, e.id, trade_day),
            None => PlacementView::Unplaceable(no_such_view(e.id, e.config, vid)),
        },
        Some(Err(why)) => if vid == UNDECLARED_VIEW@ {
            PlacementView::Always
        } else {
            PlacementView::Unplaceable(unreadable_configuration(e.id, e.config, why))
        },
        None => if vid == UNDECLARED_VIEW@ {
            PlacementView::Always
        } else {
            PlacementView::Unplaceable(folded_from_a_slice(e.id, vid))
        },
    }
}

/// A trade date that is not a date.
pub open spec fn not_a_date(id: Seq<char>, d: Seq<char>) -> Seq<char> {
    id + ": trade date "@ + quoted(d) + " is not a date. Lots it opens carry no acquisition date, and the holding-period methods refuse them"@
}

/// An entry's trade day, and the break a trade date that is not a date makes.
pub open spec fn date_of(e: EntryView) -> (Option<Day>, Option<Seq<char>>) {
    match e.trade_date {
        None => (None, None),
        Some(d) => match iso_day(d) {
            Some(n) => (Some(n as Day), None),
            None => (None, Some(not_a_date(e.id, d))),
        },
    }
}

/// The id of the action an entry rewrites, if it is a rewrite.
pub open spec fn action_id(id: Seq<char>) -> Option<Seq<char>> {
    if id.len() >= 7 && id.take(7) == "action-"@ { Some(id.skip(7)) } else { None }
}

/// One entry folded: its announcement and rewrite noted once, and read by
/// every view.
pub open spec fn fold_step(p: ProjectionView, at: int, e: EntryView, terms: Result<Terms, Seq<char>>) -> ProjectionView {
    let (trade_day, date_break) = date_of(e);
    ProjectionView {
        announced: match e.announcement {
            Some(a) => p.announced.push((a.instrument, a.ex_date, a.id, a.numerator, a.denominator)),
            None => p.announced,
        },
        rewritten: match action_id(e.id) {
            Some(x) => if p.rewritten.contains(x) { p.rewritten } else { p.rewritten.push(x) },
            None => p.rewritten,
        },
        views: Seq::new(p.views.len(), |i: int| (p.views[i].0,
            view_step(p.views[i].1, at, e, terms, trade_day, date_break, entry_placement(p.defs, p.views[i].0, e, trade_day)))),
        ..p
    }
}

/// Entries `lo` up to `hi` of a journal folded in order, each at its position.
pub open spec fn fold_range(p: ProjectionView, es: Seq<EntryView>, lo: int, hi: int, terms: Result<Terms, Seq<char>>) -> ProjectionView
    decreases hi - lo,
{
    if hi <= lo {
        p
    } else {
        fold_step(fold_range(p, es, lo, hi - 1, terms), hi - 1, es[hi - 1], terms)
    }
}

/// A projection that has read nothing, as a value: the one view every book
/// has, empty, and nothing announced or resolved.
pub open spec fn empty_view() -> ProjectionView {
    ProjectionView {
        views: seq![(UNDECLARED_VIEW@, fresh_fold(Basis::Recorded))],
        announced: Seq::empty(),
        rewritten: Seq::empty(),
        at: 0,
        read_to: 0,
        terms: Seq::empty(),
        defs: Seq::empty(),
    }
}

proof fn lemma_fold_range_at(p: ProjectionView, es: Seq<EntryView>, lo: int, hi: int, terms: Result<Terms, Seq<char>>, a: int)
    ensures
        fold_range((ProjectionView { at: a, ..p }), es, lo, hi, terms) == (ProjectionView { at: a, ..fold_range(p, es, lo, hi, terms) }),
    decreases hi - lo,
{
    if hi > lo {
        lemma_fold_range_at(p, es, lo, hi - 1, terms, a);
    }
}

proof fn lemma_fold_range_split(p: ProjectionView, es: Seq<EntryView>, lo: int, k: int, hi: int, terms: Result<Terms, Seq<char>>)
    requires
        lo <= k <= hi,
    ensures
        fold_range(fold_range(p, es, lo, k, terms), es, k, hi, terms) == fold_range(p, es, lo, hi, terms),
    decreases hi - k,
{
    if hi > k {
        lemma_fold_range_split(p, es, lo, k, hi - 1, terms);
    }
}

pub(crate) proof fn lemma_fold_range_agree(p: ProjectionView, es1: Seq<EntryView>, es2: Seq<EntryView>, lo: int, hi: int,
    terms: Result<Terms, Seq<char>>)
    requires
        forall|i: int| lo <= i < hi ==> es1[i] == es2[i],
    ensures
        fold_range(p, es1, lo, hi, terms) == fold_range(p, es2, lo, hi, terms),
    decreases hi - lo,
{
    if hi > lo {
        lemma_fold_range_agree(p, es1, es2, lo, hi - 1, terms);
    }
}

/// Rebuilding from the first entries of a journal and then advancing over
/// all of it folds exactly what rebuilding from all of it does: each entry
/// once, at its own position, in order.
pub proof fn law_advancing_incrementally_is_rebuilding(short: Seq<EntryView>, long: Seq<EntryView>,
    terms: Result<Terms, Seq<char>>)
    requires
        short.len() <= long.len(),
        forall|i: int| 0 <= i < short.len() ==> short[i] == long[i],
    ensures
        (ProjectionView {
            at: long.len() as int,
            ..fold_range(ProjectionView { at: short.len() as int, ..fold_range(empty_view(), short, 0, short.len() as int, terms) },
                long, short.len() as int, long.len() as int, terms)
        }) == (ProjectionView { at: long.len() as int, ..fold_range(empty_view(), long, 0, long.len() as int, terms) }),
{
    let k = short.len() as int;
    let n = long.len() as int;
    lemma_fold_range_agree(empty_view(), short, long, 0, k, terms);
    let q = fold_range(empty_view(), long, 0, k, terms);
    lemma_fold_range_at(q, long, k, n, terms, k);
    lemma_fold_range_split(empty_view(), long, 0, k, n, terms);
}

/// Advancing over a journal no longer than what a projection has folded
/// changes nothing: no entry is folded twice.
pub proof fn law_advancing_twice_folds_each_entry_once(p: ProjectionView, es: Seq<EntryView>, n: int,
    terms: Result<Terms, Seq<char>>)
    requires
        n <= p.at,
    ensures
        (ProjectionView { at: p.at, ..fold_range(p, es, p.at, n, terms) }) == p,
{
}

/// How many postings entries `lo` up to `hi` carry.
pub open spec fn postings_in(es: Seq<EntryView>, lo: int, hi: int) -> int
    decreases hi - lo,
{
    if hi <= lo { 0 } else { postings_in(es, lo, hi - 1) + es[hi - 1].postings.len() }
}

/// Entries, each as a value.
pub open spec fn journal_view(s: Seq<JournalEntry>) -> Seq<EntryView> {
    s.map_values(|e: JournalEntry| e@)
}

impl View for Projection {
    type V = ProjectionView;

    closed spec fn view(&self) -> ProjectionView {
        ProjectionView {
            views: folds_view(self.views@),
            announced: announced_view(self.actions.announced@),
            rewritten: self.actions.rewritten@.map_values(|s: String| s@),
            at: self.at as int,
            read_to: self.read_to,
            terms: terms_table(self.terms@),
            defs: defs_table(self.view_defs@),
        }
    }
}

impl Projection {
    /// Whether every view's figures are its fold, within the postings seen,
    /// and the views are kept one per id in id order.
    pub closed spec fn wf(&self) -> bool {
        &&& forall|i: int| 0 <= i < self.views@.len() ==> (#[trigger] self.views@[i]).1.wf(self.seen as int)
        &&& forall|i: int, j: int| 0 <= i < j < self.views@.len() ==> text_lt(self.views@[i].0@, self.views@[j].0@)
        &&& self.seen < i64::MAX
    }

    /// Postings handed to the fold so far.
    pub closed spec fn postings_seen(&self) -> int {
        self.seen as int
    }

    /// An empty projection at position zero, holding the one view every book
    /// has.
    pub fn new() -> (r: Projection)
        ensures
            r.wf(),
            r.postings_seen() == 0,
            r@ == empty_view(),
    {
        let mut views: Vec<(String, ViewFold)> = Vec::new();
        views.push((String::from_str(UNDECLARED_VIEW), ViewFold::new(Basis::Recorded)));
        let r = Projection {
            views,
            actions: Actions { announced: Vec::new(), rewritten: Vec::new() },
            read_to: 0,
            at: 0,
            cost: FoldCost { reliefs: 0 },
            terms: Vec::new(),
            view_defs: Vec::new(),
            seen: 0,
        };
        proof {
            assert(r@.rewritten =~= Seq::<Seq<char>>::empty());
            assert(r@.announced =~= Seq::<(Seq<char>, Seq<char>, Seq<char>, i64, i64)>::empty());
            assert(r@.terms =~= Seq::<(Seq<char>, Result<Terms, Seq<char>>)>::empty());
            assert(r@.defs =~= Seq::<(Seq<char>, Result<Seq<ViewDef>, Seq<char>>)>::empty());
            assert(r@.views =~= seq![(UNDECLARED_VIEW@, fresh_fold(Basis::Recorded))]);
        }
        r
    }

    /// How many entries this has folded.
    pub fn prefix(&self) -> (r: usize)
        ensures
            r == self@.at,
    {
        self.at
    }

    /// Whether this has caught up with a journal of the given length.
    pub fn is_current_with(&self, journal_len: usize) -> (r: bool)
        ensures
            r == (self@.at == journal_len),
    {
        self.at == journal_len
    }
}

// ------------------------------------------------------------ placing

pub(crate) fn first_defs_index(defs: &Vec<(String, Result<Vec<ViewDef>, String>)>, digest: &str) -> (r: Option<usize>)
    ensures
        match r {
            Some(i) => i < defs@.len() && first_under(defs_table(defs@), digest@) == Some(defs_table(defs@)[i as int].1),
            None => first_under(defs_table(defs@), digest@) is None,
        },
{
    let ghost t = defs_table(defs@);
    let mut i: usize = 0;
    proof { assert(t.skip(0) =~= t); }
    while i < defs.len()
        invariant
            0 <= i <= defs@.len(),
            t == defs_table(defs@),
            t.len() == defs@.len(),
            first_under(t, digest@) == first_under(t.skip(i as int), digest@),
        decreases defs@.len() - i,
    {
        proof {
            assert(t.skip(i as int)[0] == t[i as int]);
            assert(t.skip(i as int).drop_first() =~= t.skip(i + 1));
        }
        if str_eq(defs[i].0.as_str(), digest) {
            return Some(i);
        }
        i = i + 1;
    }
    None
}

pub(crate) fn first_def_index(ds: &Vec<ViewDef>, vid: &str) -> (r: Option<usize>)
    ensures
        match r {
            Some(i) => i < ds@.len() && first_def(ds@, vid@) == Some(ds@[i as int]),
            None => first_def(ds@, vid@) is None,
        },
{
    let mut i: usize = 0;
    proof { assert(ds@.skip(0) =~= ds@); }
    while i < ds.len()
        invariant
            0 <= i <= ds@.len(),
            first_def(ds@, vid@) == first_def(ds@.skip(i as int), vid@),
        decreases ds@.len() - i,
    {
        proof {
            assert(ds@.skip(i as int)[0] == ds@[i as int]);
            assert(ds@.skip(i as int).drop_first() =~= ds@.skip(i + 1));
        }
        if str_eq(ds[i].id.as_str(), vid) {
            return Some(i);
        }
        i = i + 1;
    }
    None
}

/// Where one view puts one entry, from the configuration the entry pinned.
fn placement_for(defs: &Vec<(String, Result<Vec<ViewDef>, String>)>, vid: &str, e: &JournalEntry, trade_day: Option<Day>) -> (r: Placement)
    ensures
        r@ == entry_placement(defs_table(defs@), vid@, e@, trade_day),
{
    match first_defs_index(defs, e.config.as_str()) {
        Some(i) => match &defs[i].1 {
            Ok(ds) => match first_def_index(ds, vid) {
                Some(j) => ds[j].placement(e.id.as_str(), trade_day),
                None => {
                    let mut s = String::from_str(e.id.as_str());
                    s.append(": the configuration this entry pinned (");
                    s.append(e.config.as_str());
                    s.append(") declares no view ");
                    push_quoted(&mut s, vid);
                    s.append(", so this view cannot say when it is recognised");
                    Placement::Unplaceable(s)
                },
            },
            Err(why) => {
                if str_eq(vid, UNDECLARED_VIEW) {
                    Placement::Always
                } else {
                    let mut s = String::from_str(e.id.as_str());
                    s.append(": the configuration this entry pinned (");
                    s.append(e.config.as_str());
                    s.append(") could not be read — ");
                    s.append(why.as_str());
                    Placement::Unplaceable(s)
                }
            },
        },
        None => {
            if str_eq(vid, UNDECLARED_VIEW) {
                Placement::Always
            } else {
                let mut s = String::from_str(e.id.as_str());
                s.append(": this fold was advanced from a slice, which carries no configurations to say when view ");
                push_quoted(&mut s, vid);
                s.append(" recognises it");
                Placement::Unplaceable(s)
            }
        },
    }
}

/// An entry's trade day, and the break a trade date that is not a date makes.
fn date_for(e: &JournalEntry) -> (r: (Option<Day>, Option<String>))
    ensures
        (r.0, match r.1 { Some(s) => Some(s@), None => None }) == date_of(e@),
{
    match &e.trade_date {
        None => (None, None),
        Some(d) => match days_from_iso_date(d.as_str()) {
            Some(n) => (Some(n as Day), None),
            None => {
                let mut s = String::from_str(e.id.as_str());
                s.append(": trade date ");
                push_quoted(&mut s, d.as_str());
                s.append(" is not a date. Lots it opens carry no acquisition date, and the holding-period methods refuse them");
                (None, Some(s))
            },
        },
    }
}

/// The id of the action an entry rewrites, if it is a rewrite.
fn rewrite_of(id: &str) -> (r: Option<String>)
    ensures
        match r { Some(s) => Some(s@), None => None::<Seq<char>> } == action_id(id@),
{
    let cs = chars_of(id);
    let prefix = chars_of("action-");
    proof { reveal_strlit("action-"); }
    if cs.len() < 7 {
        return None;
    }
    let mut i: usize = 0;
    while i < 7
        invariant
            0 <= i <= 7,
            cs@ == id@,
            cs@.len() >= 7,
            prefix@ == "action-"@,
            prefix@.len() == 7,
            forall|j: int| 0 <= j < i ==> cs@[j] == prefix@[j],
        decreases 7 - i,
    {
        if cs[i] != prefix[i] {
            proof {
                assert(id@.take(7)[i as int] != "action-"@[i as int]);
            }
            return None;
        }
        i = i + 1;
    }
    assert(id@.take(7) =~= "action-"@);
    let mut rest: Vec<char> = Vec::new();
    let mut k: usize = 7;
    while k < cs.len()
        invariant
            7 <= k <= cs@.len(),
            cs@ == id@,
            rest@ == cs@.subrange(7, k as int),
        decreases cs@.len() - k,
    {
        rest.push(cs[k]);
        k = k + 1;
        assert(rest@ =~= cs@.subrange(7, k as int));
    }
    assert(cs@.subrange(7, cs@.len() as int) =~= id@.skip(7));
    Some(string_of(&rest))
}

/// The terms a slice is folded under: one method, and otherwise what a
/// configuration that says nothing sets.
pub open spec fn terms_under(method: Method) -> Terms {
    Terms {
        method,
        roles: None,
        long_term_days: 365,
        wash_window_days: None,
        min_tax_short_weight: None,
        average_cost: None,
        wash_keep_holding_period: None,
    }
}

proof fn lemma_postings_in_mono(es: Seq<EntryView>, lo: int, k: int, hi: int)
    requires
        lo <= k <= hi,
    ensures
        0 <= postings_in(es, lo, k) <= postings_in(es, lo, hi),
    decreases hi - k,
{
    if k < hi {
        lemma_postings_in_mono(es, lo, k, hi - 1);
    } else {
        lemma_postings_in_nonneg(es, lo, k);
    }
}

proof fn lemma_postings_in_nonneg(es: Seq<EntryView>, lo: int, hi: int)
    ensures
        postings_in(es, lo, hi) >= 0,
    decreases hi - lo,
{
    if hi > lo {
        lemma_postings_in_nonneg(es, lo, hi - 1);
    }
}

fn has_text(v: &Vec<String>, t: &String) -> (r: bool)
    ensures
        r == v@.map_values(|s: String| s@).contains(t@),
{
    let ghost m = v@.map_values(|s: String| s@);
    let mut i: usize = 0;
    while i < v.len()
        invariant
            0 <= i <= v@.len(),
            m == v@.map_values(|s: String| s@),
            m.len() == v@.len(),
            forall|j: int| 0 <= j < i ==> m[j] != t@,
        decreases v@.len() - i,
    {
        if str_eq(v[i].as_str(), t.as_str()) {
            assert(m[i as int] == t@);
            return true;
        }
        i = i + 1;
    }
    false
}

impl Projection {
    /// Fold one entry, at its journal position, into every view.
    fn fold(&mut self, at: usize, e: &JournalEntry, terms: &Result<Terms, String>)
        requires
            old(self).wf(),
            old(self).postings_seen() + e@.postings.len() < i64::MAX,
            lots_computable(e@, terms_view(*terms)),
        ensures
            final(self).wf(),
            final(self)@ == fold_step(old(self)@, at as int, e@, terms_view(*terms)),
            final(self).postings_seen() == old(self).postings_seen() + e@.postings.len(),
    {
        let ghost p0 = self@;
        let ghost tv = terms_view(*terms);
        match &e.announcement {
            Some(a) => {
                let ghost before = self.actions.announced@;
                self.actions.announced.push((a.instrument.clone(), a.ex_date.clone(), a.id.clone(), a.numerator, a.denominator));
                proof {
                    assert(announced_view(self.actions.announced@) =~= announced_view(before).push((a.instrument@, a.ex_date@, a.id@, a.numerator, a.denominator)));
                }
            },
            None => {},
        }
        match rewrite_of(e.id.as_str()) {
            Some(x) => {
                if !has_text(&self.actions.rewritten, &x) {
                    let ghost before = self.actions.rewritten@;
                    self.actions.rewritten.push(x);
                    proof {
                        assert(self.actions.rewritten@.map_values(|s: String| s@) =~= before.map_values(|s: String| s@).push(x@));
                    }
                }
            },
            None => {},
        }
        let (trade_day, date_break) = date_for(e);
        let db: Option<&str> = match &date_break {
            Some(b) => Some(b.as_str()),
            None => None,
        };
        let ghost dbv: Option<Seq<char>> = match db { Some(b) => Some(b@), None => None };
        assert(dbv == date_of(e@).1);
        let ghost seen0 = self.seen as int;
        self.seen = self.seen + e.postings.len() as u64;
        let ghost mid = self@;
        let ghost v0 = p0.views;
        let ghost defs = p0.defs;
        let mut i: usize = 0;
        while i < self.views.len()
            invariant
                0 <= i <= self.views@.len(),
                self.views@.len() == v0.len(),
                v0 == p0.views,
                defs == p0.defs,
                defs_table(self.view_defs@) == defs,
                seen0 + e@.postings.len() == self.seen,
                self.seen < i64::MAX,
                lots_computable(e@, tv),
                tv == terms_view(*terms),
                (trade_day, dbv) == date_of(e@),
                dbv == match db { Some(b) => Some(b@), None => None::<Seq<char>> },
                forall|j: int| 0 <= j < self.views@.len() ==> (#[trigger] self.views@[j]).0@ == v0[j].0,
                forall|j: int| 0 <= j < i ==> (#[trigger] self.views@[j]).1@ == view_step(v0[j].1, at as int, e@, tv, trade_day,
                    dbv, entry_placement(defs, v0[j].0, e@, trade_day)),
                forall|j: int| i <= j < self.views@.len() ==> (#[trigger] self.views@[j]).1@ == v0[j].1,
                forall|j: int| 0 <= j < i ==> (#[trigger] self.views@[j]).1.wf(self.seen as int),
                forall|j: int| i <= j < self.views@.len() ==> (#[trigger] self.views@[j]).1.wf(seen0),
                forall|x: int, y: int| 0 <= x < y < self.views@.len() ==> text_lt(self.views@[x].0@, self.views@[y].0@),
                self@.announced == mid.announced,
                self@.rewritten == mid.rewritten,
                self@.at == mid.at,
                self@.read_to == mid.read_to,
                self@.terms == mid.terms,
            decreases self.views@.len() - i,
        {
            let ghost before = self.views@;
            let (vid, mut vf) = self.views.remove(i);
            let placement = placement_for(&self.view_defs, vid.as_str(), e, trade_day);
            proof {
                assert(before[i as int].0@ == v0[i as int].0);
                assert(vf@ == v0[i as int].1);
            }
            vf.read_entry(&mut self.cost, at, e, terms, trade_day, db, &placement, Ghost(self.seen as int));
            self.views.insert(i, (vid, vf));
            proof {
                assert forall|j: int| 0 <= j < self.views@.len() && j != i implies #[trigger] self.views@[j] == before[j] by {
                    if j < i {
                        assert(self.views@[j] == before[j]);
                    } else {
                        assert(self.views@[j] == before[j]);
                    }
                }
            }
            i = i + 1;
        }
        proof {
            let n = folds_view(self.views@);
            let want = fold_step(p0, at as int, e@, tv).views;
            assert(n.len() == want.len());
            assert forall|j: int| 0 <= j < n.len() implies #[trigger] n[j] == want[j] by {
                assert(self.views@[j].0@ == v0[j].0);
            }
            assert(n =~= want);
            let fs = fold_step(p0, at as int, e@, tv);
            assert(self@.views == fs.views);
            assert(self@.announced == fs.announced);
            assert(self@.rewritten == fs.rewritten);
            assert(self@.at == fs.at);
            assert(self@.read_to == fs.read_to);
            assert(self@.terms == fs.terms);
            assert(self@.defs == fs.defs);
        }
    }

    /// Fold the entries of a journal this has not seen, each at its position,
    /// all under one relief method: a slice carries no configurations to say
    /// which. The position only moves forward, so a shorter journal folds
    /// nothing and rewinds nothing. Returns how many entries it folded.
    pub fn advance(&mut self, journal: &[JournalEntry], method: Method) -> (r: usize)
        requires
            old(self).wf(),
            forall|i: int| old(self)@.at <= i < journal@.len() ==> lots_computable((#[trigger] journal@[i])@, Ok::<Terms, Seq<char>>(terms_under(method))),
            old(self).postings_seen() + postings_in(journal_view(journal@), old(self)@.at, journal@.len() as int) < i64::MAX,
        ensures
            final(self).wf(),
            r == (if journal@.len() > old(self)@.at { journal@.len() - old(self)@.at } else { 0 }),
            final(self)@ == (ProjectionView {
                at: if journal@.len() > old(self)@.at { journal@.len() as int } else { old(self)@.at },
                ..fold_range(old(self)@, journal_view(journal@), old(self)@.at, journal@.len() as int, Ok::<Terms, Seq<char>>(terms_under(method)))
            }),
            final(self).postings_seen() == old(self).postings_seen() + postings_in(journal_view(journal@), old(self)@.at, journal@.len() as int),
    {
        let ghost p0 = self@;
        let ghost es = journal_view(journal@);
        let ghost s0 = self.seen as int;
        let ghost tv = Ok::<Terms, Seq<char>>(terms_under(method));
        let terms: Result<Terms, String> = Ok(Terms::under(method));
        let start = self.at;
        let mut i: usize = start;
        proof {
            lemma_postings_in_nonneg(es, start as int, journal@.len() as int);
        }
        while i < journal.len()
            invariant
                start <= i,
                start == p0.at,
                i <= journal@.len() || journal@.len() < start,
                journal@.len() < start ==> i == start,
                es == journal_view(journal@),
                terms_view(terms) == tv,
                tv == Ok::<Terms, Seq<char>>(terms_under(method)),
                self.wf(),
                self@.at == start,
                self@ == fold_range(p0, es, start as int, i as int, tv),
                self.seen == s0 + postings_in(es, start as int, i as int),
                s0 + postings_in(es, start as int, journal@.len() as int) < i64::MAX,
                forall|k: int| start <= k < journal@.len() ==> lots_computable((#[trigger] journal@[k])@, tv),
            decreases journal@.len() - i,
        {
            proof {
                lemma_postings_in_mono(es, start as int, i + 1, journal@.len() as int);
                assert(es[i as int] == journal@[i as int]@);
            }
            self.fold(i, &journal[i], &terms);
            i = i + 1;
        }
        let ghost pre = self@;
        let folded = if journal.len() > start { journal.len() - start } else { 0 };
        if journal.len() > self.at {
            self.at = journal.len();
        }
        proof {
            if journal@.len() < start {
                assert(fold_range(p0, es, start as int, journal@.len() as int, tv) == p0);
                assert(postings_in(es, start as int, journal@.len() as int) == 0);
            } else {
                assert(i == journal@.len());
            }
            let fr = fold_range(p0, es, start as int, journal@.len() as int, tv);
            assert(pre == fr);
        }
        folded
    }

    /// A projection built from scratch over a journal, under one method.
    pub fn rebuild(journal: &[JournalEntry], method: Method) -> (r: Projection)
        requires
            forall|i: int| 0 <= i < journal@.len() ==> lots_computable((#[trigger] journal@[i])@, Ok::<Terms, Seq<char>>(terms_under(method))),
            postings_in(journal_view(journal@), 0, journal@.len() as int) < i64::MAX,
        ensures
            r.wf(),
            r@ == (ProjectionView {
                at: journal@.len() as int,
                ..fold_range(empty_view(), journal_view(journal@), 0, journal@.len() as int, Ok::<Terms, Seq<char>>(terms_under(method)))
            }),
            r.postings_seen() == postings_in(journal_view(journal@), 0, journal@.len() as int),
    {
        let mut p = Projection::new();
        p.advance(journal, method);
        p
    }
}

// ------------------------------------------------------------ reading

/// The first view with an id, from `k` on.
pub open spec fn view_from(vs: Seq<(Seq<char>, FoldView)>, v: Seq<char>, k: int) -> Option<int>
    decreases vs.len() - k,
{
    if k < 0 || k >= vs.len() {
        None
    } else if vs[k].0 == v {
        Some(k)
    } else {
        view_from(vs, v, k + 1)
    }
}

/// The position of the view with an id.
pub open spec fn view_index(vs: Seq<(Seq<char>, FoldView)>, v: Seq<char>) -> Option<int> {
    view_from(vs, v, 0)
}

/// Ids joined by commas.
pub open spec fn joined(ids: Seq<Seq<char>>) -> Seq<char>
    decreases ids.len(),
{
    if ids.len() == 0 {
        Seq::empty()
    } else if ids.len() == 1 {
        ids[0]
    } else {
        joined(ids.drop_last()) + ", "@ + ids.last()
    }
}

/// The ids of views.
pub open spec fn ids_of(vs: Seq<(Seq<char>, FoldView)>) -> Seq<Seq<char>> {
    vs.map_values(|e: (Seq<char>, FoldView)| e.0)
}

/// A view this book does not keep, refused with the views it does keep.
pub open spec fn no_view(v: Seq<char>, vs: Seq<(Seq<char>, FoldView)>) -> Seq<char> {
    "no view "@ + quoted(v) + " on this book. It keeps: "@ + joined(ids_of(vs))
}

/// The cut a figure read from a view carries: none on a view that consults
/// no date.
pub open spec fn through_of(f: FoldView) -> Option<Day> {
    match f.basis {
        Basis::Recorded => None,
        _ => f.through,
    }
}

/// Entries waiting in bands.
pub open spec fn band_count(bands: Seq<Band>) -> int
    decreases bands.len(),
{
    if bands.len() == 0 { 0 } else { band_count(bands.drop_last()) + bands.last().1.len() }
}

/// Whether a figure read from a view carries this projection's prefix, the
/// view's id and its cut.
pub open spec fn read_at<T>(a: AsOf<T>, p: ProjectionView, i: int) -> bool {
    &&& a.prefix == p.at
    &&& a.view@ == p.views[i].0
    &&& a.through == through_of(p.views[i].1)
}

impl Projection {
    /// The view with an id, or a refusal naming the views this book keeps.
    fn fold_index(&self, view: &str) -> (r: Result<usize, String>)
        ensures
            match r {
                Ok(i) => i < self.views@.len() && i < self@.views.len() && view_index(self@.views, view@) == Some(i as int),
                Err(e) => view_index(self@.views, view@) is None && e@ == no_view(view@, self@.views),
            },
    {
        let ghost vs = self@.views;
        let mut i: usize = 0;
        while i < self.views.len()
            invariant
                0 <= i <= self.views@.len(),
                vs == self@.views,
                vs.len() == self.views@.len(),
                view_index(vs, view@) == view_from(vs, view@, i as int),
            decreases self.views@.len() - i,
        {
            assert(vs[i as int].0 == self.views@[i as int].0@);
            if str_eq(self.views[i].0.as_str(), view) {
                return Ok(i);
            }
            i = i + 1;
        }
        assert(view_from(vs, view@, i as int) is None);
        let mut s = String::from_str("no view ");
        push_quoted(&mut s, view);
        s.append(" on this book. It keeps: ");
        let ghost ids = ids_of(vs);
        let mut j: usize = 0;
        let ghost head = s@;
        proof {
            assert(ids.take(0) =~= Seq::<Seq<char>>::empty());
        }
        while j < self.views.len()
            invariant
                0 <= j <= self.views@.len(),
                vs == self@.views,
                ids == ids_of(vs),
                ids.len() == self.views@.len(),
                s@ == head + joined(ids.take(j as int)),
            decreases self.views@.len() - j,
        {
            proof {
                assert(ids.take(j + 1).drop_last() =~= ids.take(j as int));
                assert(ids[j as int] == self.views@[j as int].0@);
                if j == 0 {
                    assert(ids.take(1) =~= seq![ids[0]]);
                }
            }
            if j > 0 {
                s.append(", ");
            }
            s.append(self.views[j].0.as_str());
            j = j + 1;
        }
        proof {
            assert(ids.take(ids.len() as int) =~= ids);
        }
        Err(s)
    }

    fn through(&self, i: usize) -> (r: Option<Day>)
        requires
            i < self.views@.len(),
        ensures
            r == through_of(self@.views[i as int].1),
    {
        match self.views[i].1.basis {
            Basis::Recorded => None,
            _ => self.views[i].1.recognised_through,
        }
    }

    /// The views this projection folds, in id order.
    pub fn views(&self) -> (r: Vec<String>)
        ensures
            r@.map_values(|s: String| s@) == ids_of(self@.views),
    {
        let mut out: Vec<String> = Vec::new();
        let mut i: usize = 0;
        while i < self.views.len()
            invariant
                0 <= i <= self.views@.len(),
                out@.len() == i,
                forall|j: int| 0 <= j < i ==> (#[trigger] out@[j])@ == self.views@[j].0@,
            decreases self.views@.len() - i,
        {
            out.push(self.views[i].0.clone());
            i = i + 1;
        }
        proof {
            assert(out@.map_values(|s: String| s@) =~= ids_of(self@.views));
        }
        out
    }

    /// Entries a view has read and not yet recognised; counted up to the
    /// largest count a machine word holds.
    pub fn in_flight(&self, view: &str) -> (r: Result<usize, String>)
        ensures
            match view_index(self@.views, view@) {
                Some(i) => r == Ok::<usize, String>(
                    (if band_count(self@.views[i].1.bands) > usize::MAX { usize::MAX as int } else { band_count(self@.views[i].1.bands) }) as usize),
                None => r matches Err(e) && e@ == no_view(view@, self@.views),
            },
    {
        let i = match self.fold_index(view) {
            Ok(i) => i,
            Err(e) => return Err(e),
        };
        let bands = &self.views[i].1.pending;
        let ghost bv = bands_view(bands@);
        let mut n: usize = 0;
        let mut k: usize = 0;
        proof { assert(bv.take(0) =~= Seq::<Band>::empty()); }
        while k < bands.len()
            invariant
                0 <= k <= bands@.len(),
                bv == bands_view(bands@),
                bv.len() == bands@.len(),
                n == (if band_count(bv.take(k as int)) > usize::MAX { usize::MAX as int } else { band_count(bv.take(k as int)) }),
            decreases bands@.len() - k,
        {
            proof {
                assert(bv.take(k + 1).drop_last() =~= bv.take(k as int));
                assert(bv[k as int].1.len() == bands@[k as int].1@.len());
                lemma_band_count_nonneg(bv.take(k as int));
            }
            n = n.saturating_add(bands[k].1.len());
            k = k + 1;
        }
        proof { assert(bv.take(bands@.len() as int) =~= bv); }
        Ok(n)
    }

    /// Entries a view can never date, each with the reason.
    pub fn unplaceable(&self, view: &str) -> (r: Result<&[Unplaced], String>)
        ensures
            match view_index(self@.views, view@) {
                Some(i) => r matches Ok(u) && unplaced_view(u@) == self@.views[i].1.unplaceable,
                None => r matches Err(e) && e@ == no_view(view@, self@.views),
            },
    {
        let i = match self.fold_index(view) {
            Ok(i) => i,
            Err(e) => return Err(e),
        };
        Ok(self.views[i].1.unplaceable.as_slice())
    }

    /// The positions, as of the prefix folded, under one book of record:
    /// what that view's applied postings build.
    pub fn positions(&self, view: &str) -> (r: Result<AsOf<&Positions>, String>)
        requires
            self.wf(),
        ensures
            match view_index(self@.views, view@) {
                Some(i) => r matches Ok(a) && read_at(a, self@, i) && a.value.folds(self@.views[i].1.applied),
                None => r matches Err(e) && e@ == no_view(view@, self@.views),
            },
    {
        let i = match self.fold_index(view) {
            Ok(i) => i,
            Err(e) => return Err(e),
        };
        proof { assert(self.views@[i as int].1.wf(self.seen as int)); }
        Ok(AsOf { value: &self.views[i].1.positions, prefix: self.at, view: self.views[i].0.clone(), through: self.through(i) })
    }

    /// One view's trial-balance rows: per dimension and currency, both sides
    /// and the count of the postings that view has applied.
    pub fn balances(&self, view: &str) -> (r: Result<AsOf<&Vec<((i64, Option<String>), DimTotal)>>, String>)
        requires
            self.wf(),
        ensures
            match view_index(self@.views, view@) {
                Some(i) => r matches Ok(a) && read_at(a, self@, i) && lists_totals(a.value@, self@.views[i].1.applied),
                None => r matches Err(e) && e@ == no_view(view@, self@.views),
            },
    {
        let i = match self.fold_index(view) {
            Ok(i) => i,
            Err(e) => return Err(e),
        };
        proof { assert(self.views@[i as int].1.wf(self.seen as int)); }
        Ok(AsOf { value: &self.views[i].1.totals.by_dim, prefix: self.at, view: self.views[i].0.clone(), through: self.through(i) })
    }

    /// Sales that could not be relieved, and why.
    pub fn lot_breaks(&self, view: &str) -> (r: Result<&[String], String>)
        ensures
            match view_index(self@.views, view@) {
                Some(i) => r matches Ok(b) && b@.map_values(|s: String| s@) == self@.views[i].1.lots.breaks,
                None => r matches Err(e) && e@ == no_view(view@, self@.views),
            },
    {
        let i = match self.fold_index(view) {
            Ok(i) => i,
            Err(e) => return Err(e),
        };
        Ok(self.views[i].1.lots.breaks.as_slice())
    }

    /// The open lots of one position, oldest first.
    pub fn lots_of(&self, view: &str, dim: i64, instrument: &str) -> (r: Result<AsOf<Vec<Lot>>, String>)
        ensures
            match view_index(self@.views, view@) {
                Some(i) => r matches Ok(a) && read_at(a, self@, i)
                    && a.value@ == arranged(Order::By(Method::Fifo), holding_of(self@.views[i].1.lots.open, (dim, instrument@)).1),
                None => r matches Err(e) && e@ == no_view(view@, self@.views),
            },
    {
        let i = match self.fold_index(view) {
            Ok(i) => i,
            Err(e) => return Err(e),
        };
        let inst = String::from_str(instrument);
        let open = &self.views[i].1.lots.open;
        let (slot, found) = find_holding(open, dim, &inst);
        let lots = if found {
            open[slot].1.lots()
        } else {
            proof {
                assert(arranged(Order::By(Method::Fifo), Seq::<Lot>::empty()) =~= Seq::<Lot>::empty());
            }
            Vec::new()
        };
        Ok(AsOf { value: lots, prefix: self.at, view: self.views[i].0.clone(), through: self.through(i) })
    }

    /// How many open lots a view holds, across every position; counted up to
    /// the largest 64-bit count.
    pub fn open_lots(&self, view: &str) -> (r: Result<i64, String>)
        ensures
            match view_index(self@.views, view@) {
                Some(i) => r == Ok::<i64, String>(capped(lot_count(self@.views[i].1.lots.open))),
                None => r matches Err(e) && e@ == no_view(view@, self@.views),
            },
    {
        let i = match self.fold_index(view) {
            Ok(i) => i,
            Err(e) => return Err(e),
        };
        let open = &self.views[i].1.lots.open;
        let ghost hv = crate::lotbook::holdings_view(open@);
        let mut n: i64 = 0;
        let mut k: usize = 0;
        proof { assert(hv.take(0) =~= Seq::<crate::lotbook::HoldingView>::empty()); }
        while k < open.len()
            invariant
                0 <= k <= open@.len(),
                hv == crate::lotbook::holdings_view(open@),
                hv.len() == open@.len(),
                n == capped(lot_count(hv.take(k as int))),
            decreases open@.len() - k,
        {
            proof {
                assert(hv.take(k + 1).drop_last() =~= hv.take(k as int));
                assert(hv[k as int].2 == open@[k as int].1.queue());
                lemma_lot_count_nonneg(hv.take(k as int));
            }
            let len: u64 = open[k].1.len() as u64;
            let add: i64 = if len > 0x7fff_ffff_ffff_ffff { i64::MAX } else { len as i64 };
            proof {
                lemma_capped_add(lot_count(hv.take(k as int)), len as int);
            }
            n = add_capped(n, add);
            k = k + 1;
        }
        proof { assert(hv.take(open@.len() as int) =~= hv); }
        Ok(n)
    }

    /// Rows the maintained net asset value walks: one per dimension and
    /// currency; counted up to the largest 64-bit count.
    pub fn total_rows(&self, view: &str) -> (r: Result<i64, String>)
        ensures
            match view_index(self@.views, view@) {
                Some(i) => r == Ok::<i64, String>(capped(self.rows_of(i).len() as int)),
                None => r matches Err(e) && e@ == no_view(view@, self@.views),
            },
    {
        let i = match self.fold_index(view) {
            Ok(i) => i,
            Err(e) => return Err(e),
        };
        let n: u64 = self.views[i].1.totals.by_dim.len() as u64;
        Ok(if n > 0x7fff_ffff_ffff_ffff { i64::MAX } else { n as i64 })
    }

    /// The rows of a view's totals.
    pub closed spec fn rows_of(&self, i: int) -> Seq<((i64, Option<String>), DimTotal)> {
        self.views@[i].1.totals.by_dim@
    }

    /// Distinct currencies a view's totals are keyed by, the untyped balance
    /// counting as one.
    pub fn currency_count(&self, view: &str) -> (r: Result<i64, String>)
        ensures
            match view_index(self@.views, view@) {
                Some(i) => r == Ok::<i64, String>(capped(distinct_currencies(self.rows_of(i)))),
                None => r matches Err(e) && e@ == no_view(view@, self@.views),
            },
    {
        let i = match self.fold_index(view) {
            Ok(i) => i,
            Err(e) => return Err(e),
        };
        let rows = &self.views[i].1.totals.by_dim;
        let mut n: i64 = 0;
        let mut k: usize = 0;
        proof { assert(rows@.take(0) =~= Seq::<((i64, Option<String>), DimTotal)>::empty()); }
        while k < rows.len()
            invariant
                0 <= k <= rows@.len(),
                n == capped(distinct_currencies(rows@.take(k as int))),
            decreases rows@.len() - k,
        {
            let mut seen_before = false;
            let mut j: usize = 0;
            while j < k
                invariant
                    0 <= j <= k < rows@.len(),
                    seen_before == exists|x: int| 0 <= x < j && crate::chart::text_of(rows@[x].0.1) == crate::chart::text_of(rows@[k as int].0.1),
                decreases k - j,
            {
                if crate::merge::opt_same(&rows[j].0.1, &rows[k].0.1) {
                    seen_before = true;
                }
                j = j + 1;
            }
            proof {
                let t = rows@.take(k + 1);
                assert(t.drop_last() =~= rows@.take(k as int));
                assert(t.last() == rows@[k as int]);
                assert forall|x: int| 0 <= x < k implies #[trigger] t[x] == rows@[x] by {}
                lemma_distinct_nonneg(rows@.take(k as int));
                lemma_capped_add(distinct_currencies(rows@.take(k as int)), 1);
                if seen_before {
                    let x = choose|x: int| 0 <= x < k && crate::chart::text_of(rows@[x].0.1) == crate::chart::text_of(rows@[k as int].0.1);
                    assert(crate::chart::text_of(t[x].0.1) == crate::chart::text_of(t.last().0.1));
                } else {
                    assert(!exists|x: int| 0 <= x < t.len() - 1 && crate::chart::text_of(t[x].0.1) == crate::chart::text_of(t.last().0.1));
                }
            }
            if !seen_before {
                n = add_capped(n, 1);
            }
            k = k + 1;
        }
        proof { assert(rows@.take(rows@.len() as int) =~= rows@); }
        Ok(n)
    }

    /// Corporate actions announced inside this prefix and not yet rewritten;
    /// counted up to the largest 64-bit count.
    pub fn open_action_count(&self) -> (r: i64)
        ensures
            r == capped(open_actions(self@.announced, self@.rewritten)),
    {
        let ghost av = self@.announced;
        let ghost rw = self@.rewritten;
        let mut n: i64 = 0;
        let mut k: usize = 0;
        proof { assert(av.take(0) =~= Seq::<(Seq<char>, Seq<char>, Seq<char>, i64, i64)>::empty()); }
        while k < self.actions.announced.len()
            invariant
                0 <= k <= self.actions.announced@.len(),
                av == self@.announced,
                rw == self@.rewritten,
                av.len() == self.actions.announced@.len(),
                n == capped(open_actions(av.take(k as int), rw)),
            decreases self.actions.announced@.len() - k,
        {
            proof {
                assert(av.take(k + 1).drop_last() =~= av.take(k as int));
                assert(av[k as int].2 == self.actions.announced@[k as int].2@);
                lemma_open_actions_nonneg(av.take(k as int), rw);
            }
            if !has_text(&self.actions.rewritten, &self.actions.announced[k].2) {
                n = add_capped(n, 1);
            }
            k = k + 1;
        }
        proof { assert(av.take(av.len() as int) =~= av); }
        n
    }

    /// What the fold's effort went on, as a value.
    pub closed spec fn effort(&self) -> FoldCost {
        self.cost
    }

    /// Where the fold's effort went.
    pub fn cost(&self) -> (r: FoldCost)
        ensures
            r == self.effort(),
    {
        self.cost
    }
}

/// A count, capped at the largest 64-bit count.
pub open spec fn capped(n: int) -> i64 {
    if n > i64::MAX { i64::MAX } else { n as i64 }
}

/// Open lots across holdings.
pub open spec fn lot_count(hs: Seq<crate::lotbook::HoldingView>) -> int
    decreases hs.len(),
{
    if hs.len() == 0 { 0 } else { lot_count(hs.drop_last()) + hs.last().2.len() }
}

/// How many distinct currencies rows of totals are keyed by.
pub open spec fn distinct_currencies(rows: Seq<((i64, Option<String>), DimTotal)>) -> int
    decreases rows.len(),
{
    if rows.len() == 0 {
        0
    } else {
        let c = crate::chart::text_of(rows.last().0.1);
        distinct_currencies(rows.drop_last())
            + if exists|x: int| 0 <= x < rows.len() - 1 && crate::chart::text_of(rows[x].0.1) == c { 0int } else { 1int }
    }
}

/// Announcements whose rewrite is not in the prefix.
pub open spec fn open_actions(av: Seq<(Seq<char>, Seq<char>, Seq<char>, i64, i64)>, rw: Seq<Seq<char>>) -> int
    decreases av.len(),
{
    if av.len() == 0 { 0 } else { open_actions(av.drop_last(), rw) + if rw.contains(av.last().2) { 0int } else { 1int } }
}

proof fn lemma_band_count_nonneg(b: Seq<Band>)
    ensures
        band_count(b) >= 0,
    decreases b.len(),
{
    if b.len() > 0 {
        lemma_band_count_nonneg(b.drop_last());
    }
}

proof fn lemma_lot_count_nonneg(h: Seq<crate::lotbook::HoldingView>)
    ensures
        lot_count(h) >= 0,
    decreases h.len(),
{
    if h.len() > 0 {
        lemma_lot_count_nonneg(h.drop_last());
    }
}

proof fn lemma_distinct_nonneg(rows: Seq<((i64, Option<String>), DimTotal)>)
    ensures
        distinct_currencies(rows) >= 0,
    decreases rows.len(),
{
    if rows.len() > 0 {
        lemma_distinct_nonneg(rows.drop_last());
    }
}

proof fn lemma_open_actions_nonneg(av: Seq<(Seq<char>, Seq<char>, Seq<char>, i64, i64)>, rw: Seq<Seq<char>>)
    ensures
        open_actions(av, rw) >= 0,
    decreases av.len(),
{
    if av.len() > 0 {
        lemma_open_actions_nonneg(av.drop_last(), rw);
    }
}

/// Where a position's holding is, if it is there.
fn find_holding(open: &Vec<((i64, String), crate::holding::Holding)>, dim: i64, inst: &String) -> (r: (usize, bool))
    ensures
        r.1 ==> r.0 < open@.len() && (open@[r.0 as int].1.order(), open@[r.0 as int].1.queue())
            == holding_of(crate::lotbook::holdings_view(open@), (dim, inst@)),
        !r.1 ==> holding_of(crate::lotbook::holdings_view(open@), (dim, inst@)) == (Method::Fifo, Seq::<Lot>::empty()),
{
    let ghost v = crate::lotbook::holdings_view(open@);
    let ghost k: crate::fold::HeldKey = (dim, inst@);
    let mut i: usize = 0;
    proof { assert(v.skip(0) =~= v); }
    while i < open.len() && (open[i].0.0 < dim || (open[i].0.0 == dim && crate::merge::text_before(open[i].0.1.as_str(), inst.as_str())))
        invariant
            0 <= i <= open@.len(),
            v == crate::lotbook::holdings_view(open@),
            v.len() == open@.len(),
            k == (dim, inst@),
            crate::lotbook::holding_slot(v, k) == i + crate::lotbook::holding_slot(v.skip(i as int), k),
        decreases open@.len() - i,
    {
        proof {
            assert(v.skip(i as int)[0] == v[i as int]);
            assert(v.skip(i as int).drop_first() =~= v.skip(i + 1));
        }
        i = i + 1;
    }
    proof {
        if i < open@.len() {
            assert(v.skip(i as int)[0] == v[i as int]);
        }
        assert(crate::lotbook::holding_slot(v.skip(i as int), k) == 0);
    }
    let found = i < open.len() && open[i].0.0 == dim && str_eq(open[i].0.1.as_str(), inst.as_str());
    (i, found)
}

/// Add two counts, capped at the largest 64-bit count.
fn add_capped(n: i64, k: i64) -> (r: i64)
    requires
        n >= 0,
        k >= 0,
    ensures
        r == capped(n + k),
{
    if n > i64::MAX - k { i64::MAX } else { n + k }
}

proof fn lemma_capped_add(t: int, k: int)
    requires
        t >= 0,
        k >= 0,
    ensures
        capped(capped(t) + capped(k)) == capped(t + k),
{
}

// ------------------------------------------------------------ figures

/// What a net asset value refusing a currency says before and after it.
pub open spec fn nav_no_rate(c: Option<Seq<char>>) -> Seq<char> {
    no_rate_words("this fund holds "@, c, "an untyped balance"@, " and no rate for it was supplied — a figure mixing denominations is not a figure"@)
}

/// What a realized figure refusing a currency says.
pub open spec fn realized_no_rate(c: Option<Seq<char>>) -> Seq<char> {
    no_rate_words("this fund realized gains in "@, c, "an untyped currency"@, " and no rate for it was supplied"@)
}

/// What an entry's effect refusing a currency says.
pub open spec fn effect_no_rate(c: Option<Seq<char>>) -> Seq<char> {
    no_rate_words("this entry posts "@, c, "an untyped balance"@, " and no rate for it was supplied — a difference mixing denominations is not a figure"@)
}

/// A figure, refused where a currency has no rate or it does not fit in 64
/// bits.
pub open spec fn figure64(t: Result<int, Option<Seq<char>>>, what: Seq<char>, untyped: Seq<char>, tail: Seq<char>, too_big: Seq<char>) -> Result<i64, Seq<char>> {
    match t {
        Err(c) => Err(no_rate_words(what, c, untyped, tail)),
        Ok(v) => if crate::checked::fits(v) { Ok(v as i64) } else { Err(too_big) },
    }
}

/// What recognising one entry moves a net asset value by, in minor units of
/// the base, over the dimensions asked for.
pub open spec fn effect_spec(e: EntryView, dims: Seq<i64>, base: Option<Seq<char>>, table: Seq<(Seq<char>, i64)>) -> Result<i64, Seq<char>> {
    figure64(translation(posting_terms(e.postings, dims), base, table), "this entry posts "@, "an untyped balance"@,
        " and no rate for it was supplied — a difference mixing denominations is not a figure"@,
        "this entry's effect does not fit in 64 bits"@)
}

/// The figure of an entry's postings on the dimensions asked for, translated.
pub(crate) fn effect_of(e: &JournalEntry, dims: &[i64], rates: &Rates) -> (r: Result<i64, String>)
    requires
        translation_fits(posting_terms(e@.postings, dims@), rates.base_view(), rates.table()),
    ensures
        match effect_spec(e@, dims@, rates.base_view(), rates.table()) {
            Ok(v) => r == Ok::<i64, String>(v),
            Err(why) => r matches Err(w) && w@ == why,
        },
{
    assert(e@.postings == crate::chart::postings_view(e.postings@));
    let total = match translate_postings(&e.postings, dims, rates, "this entry posts ", "an untyped balance",
        " and no rate for it was supplied — a difference mixing denominations is not a figure") {
        Ok(t) => t,
        Err(w) => return Err(w),
    };
    if total < i64::MIN as i128 || total > i64::MAX as i128 {
        return Err(String::from_str("this entry's effect does not fit in 64 bits"));
    }
    Ok(total as i64)
}

/// Wrapping sum of amounts per currency.
pub open spec fn currency_total(v: Seq<CurrencyRow>) -> i128
    decreases v.len(),
{
    if v.len() == 0 { 0 } else { currency_total(v.drop_last()).wrapping_add(v.last().1) }
}

/// Sales whose wash window is still open on a day, or the first whose window
/// closes past 64 bits.
pub open spec fn open_windows(ws: Seq<PendingView>, as_of: Day) -> Result<Seq<OpenWashWindow>, Seq<char>>
    decreases ws.len(),
{
    if ws.len() == 0 {
        Ok(Seq::empty())
    } else {
        match open_windows(ws.drop_last(), as_of) {
            Err(e) => Err(e),
            Ok(out) => {
                let w = ws.last();
                if !crate::checked::fits(w.sold_on + w.window) {
                    Err(crate::checked::overflow_message("the day the wash window closes"@))
                } else if as_of <= w.sold_on + w.window {
                    Ok(out.push(OpenWashWindow { sold_on: w.sold_on, window: w.window, remaining_units: w.remaining_units, remaining_loss: w.remaining_loss }))
                } else {
                    Ok(out)
                }
            },
        }
    }
}

/// A split of one instrument: `num` new units for every `den` held.
#[derive(Clone, Copy, Debug, PartialEq, Eq)]
pub struct Step {
    pub num: i64,
    pub den: i64,
}

/// The splits an instrument's units are read through on a day: announced on
/// or before it, and not already rewritten, in journal order.
pub open spec fn steps_spec(av: Seq<(Seq<char>, Seq<char>, Seq<char>, i64, i64)>, rw: Seq<Seq<char>>, inst: Seq<char>, day: Seq<char>) -> Seq<Step>
    decreases av.len(),
{
    if av.len() == 0 {
        Seq::empty()
    } else {
        let a = av.last();
        let before = steps_spec(av.drop_last(), rw, inst, day);
        if a.0 == inst && !text_lt(day, a.1) && !rw.contains(a.2) { before.push(Step { num: a.3, den: a.4 }) } else { before }
    }
}

impl Projection {
    /// The totals a view keeps.
    pub closed spec fn totals_at(&self, i: int) -> crate::fold::Totals {
        self.views@[i].1.totals
    }

    /// A view's cost given up, per currency.
    pub closed spec fn relieved_rows(&self, i: int) -> Seq<(Option<String>, i128)> {
        self.views@[i].1.lots.relieved@
    }

    /// A view's short-term part of the gain, per currency.
    pub closed spec fn short_rows(&self, i: int) -> Seq<(Option<String>, i128)> {
        self.views@[i].1.lots.short_term@
    }

    /// A view's long-term part of the gain, per currency.
    pub closed spec fn long_rows(&self, i: int) -> Seq<(Option<String>, i128)> {
        self.views@[i].1.lots.long_term@
    }

    /// Net asset value and the trial-balance difference, off the maintained
    /// totals: the rows on the dimensions asked for, each translated at its
    /// currency's rate, and every debit less every credit. Refused where a
    /// currency has no rate, or a figure does not fit in 64 bits.
    pub fn nav(&self, view: &str, dims: &[i64], rates: &Rates) -> (r: Result<AsOf<(i64, i64)>, String>)
        requires
            self.wf(),
            forall|i: int| view_index(self@.views, view@) == Some(i) ==>
                translation_fits(row_terms(self.rows_of(i), dims@), rates.base_view(), rates.table()),
        ensures
            match view_index(self@.views, view@) {
                None => r matches Err(e) && e@ == no_view(view@, self@.views),
                Some(i) => {
                    let ps = self@.views[i].1.applied;
                    match figure64(translation(row_terms(self.rows_of(i), dims@), rates.base_view(), rates.table()),
                        "this fund holds "@, "an untyped balance"@,
                        " and no rate for it was supplied — a figure mixing denominations is not a figure"@,
                        "this fund's net asset value does not fit in 64 bits"@) {
                        Err(why) => r matches Err(e) && e@ == why,
                        Ok(v) => if crate::checked::fits(debits_of(ps) - credits_of(ps)) {
                            r matches Ok(a) && read_at(a, self@, i) && a.value == (v, (debits_of(ps) - credits_of(ps)) as i64)
                        } else {
                            r matches Err(e) && e@ == "this fund's trial-balance difference does not fit in 64 bits"@
                        },
                    }
                },
            },
    {
        let i = match self.fold_index(view) {
            Ok(i) => i,
            Err(e) => return Err(e),
        };
        let f = &self.views[i].1;
        proof {
            assert(self.views@[i as int].1.wf(self.seen as int));
            crate::viewfold::lemma_band_postings_nonneg(bands_view(f.pending@));
            crate::fold::lemma_totals_fit(f.totals, f.applied@);
            assert(self@.views[i as int].1 == self.views@[i as int].1@);
            assert(f.totals.debits == debits_of(self@.views[i as int].1.applied));
            assert(f.totals.credits == credits_of(self@.views[i as int].1.applied));
        }
        let nav = match translate_rows(&f.totals.by_dim, dims, rates, "this fund holds ", "an untyped balance",
            " and no rate for it was supplied — a figure mixing denominations is not a figure") {
            Ok(v) => v,
            Err(w) => return Err(w),
        };
        if nav < i64::MIN as i128 || nav > i64::MAX as i128 {
            return Err(String::from_str("this fund's net asset value does not fit in 64 bits"));
        }
        let diff: i128 = f.totals.debits - f.totals.credits;
        if diff < i64::MIN as i128 || diff > i64::MAX as i128 {
            return Err(String::from_str("this fund's trial-balance difference does not fit in 64 bits"));
        }
        Ok(AsOf { value: (nav as i64, diff as i64), prefix: self.at, view: self.views[i].0.clone(), through: self.through(i) })
    }

    /// What a fund has realized: the gain is the realized-gain dimension's
    /// balance, translated, and the cost given up and the short- and long-term
    /// parts are the lot book's, each translated the same way. Nothing without
    /// a chart that says where a gain lands.
    pub fn realized(&self, view: &str, roles: Option<ChartRoles>, rates: &Rates) -> (r: Result<AsOf<Option<Realized>>, String>)
        requires
            self.wf(),
            forall|i: int| view_index(self@.views, view@) == Some(i) && roles is Some ==> {
                &&& translation_fits(row_terms(self.rows_of(i), seq![roles->Some_0.realized_gain]), rates.base_view(), rates.table())
                &&& translation_fits(currency_terms(self.relieved_rows(i)), rates.base_view(), rates.table())
                &&& translation_fits(currency_terms(self.short_rows(i)), rates.base_view(), rates.table())
                &&& translation_fits(currency_terms(self.long_rows(i)), rates.base_view(), rates.table())
            },
        ensures
            match view_index(self@.views, view@) {
                None => r matches Err(e) && e@ == no_view(view@, self@.views),
                Some(i) => match roles {
                    None => r matches Ok(a) && read_at(a, self@, i) && a.value is None,
                    Some(rr) => {
                        let g = translation(row_terms(self.rows_of(i), seq![rr.realized_gain]), rates.base_view(), rates.table());
                        let b = translation(currency_terms(self.relieved_rows(i)), rates.base_view(), rates.table());
                        let st = translation(currency_terms(self.short_rows(i)), rates.base_view(), rates.table());
                        let lt = translation(currency_terms(self.long_rows(i)), rates.base_view(), rates.table());
                        match (g, b, st, lt) {
                            (Err(c), _, _, _) => r matches Err(e) && e@ == nav_no_rate(c),
                            (Ok(_), Err(c), _, _) => r matches Err(e) && e@ == realized_no_rate(c),
                            (Ok(_), Ok(_), Err(c), _) => r matches Err(e) && e@ == realized_no_rate(c),
                            (Ok(_), Ok(_), Ok(_), Err(c)) => r matches Err(e) && e@ == realized_no_rate(c),
                            (Ok(gv), Ok(bv), Ok(sv), Ok(lv)) => r matches Ok(a) && (read_at(a, self@, i)
                                && a.value == Some(Realized { gain: gv as i128, basis: bv as i128, short_term: sv as i128, long_term: lv as i128 })),
                        }
                    },
                },
            },
    {
        let i = match self.fold_index(view) {
            Ok(i) => i,
            Err(e) => return Err(e),
        };
        let f = &self.views[i].1;
        let value = match roles {
            None => None,
            Some(rr) => {
                proof {
                    assert(self.views@[i as int].1.wf(self.seen as int));
                    crate::viewfold::lemma_band_postings_nonneg(bands_view(f.pending@));
                    crate::fold::lemma_totals_fit(f.totals, f.applied@);
                }
                let dims: Vec<i64> = vec![rr.realized_gain];
                assert(dims@ =~= seq![rr.realized_gain]);
                let gain = match translate_rows(&f.totals.by_dim, dims.as_slice(), rates, "this fund holds ", "an untyped balance",
                    " and no rate for it was supplied — a figure mixing denominations is not a figure") {
                    Ok(v) => v,
                    Err(w) => return Err(w),
                };
                let basis = match translate_currencies(&f.lots.relieved, rates, "this fund realized gains in ", "an untyped currency",
                    " and no rate for it was supplied") {
                    Ok(v) => v,
                    Err(w) => return Err(w),
                };
                let short_term = match translate_currencies(&f.lots.short_term, rates, "this fund realized gains in ", "an untyped currency",
                    " and no rate for it was supplied") {
                    Ok(v) => v,
                    Err(w) => return Err(w),
                };
                let long_term = match translate_currencies(&f.lots.long_term, rates, "this fund realized gains in ", "an untyped currency",
                    " and no rate for it was supplied") {
                    Ok(v) => v,
                    Err(w) => return Err(w),
                };
                Some(Realized { gain, basis, short_term, long_term })
            },
        };
        Ok(AsOf { value, prefix: self.at, view: self.views[i].0.clone(), through: self.through(i) })
    }

    /// Sales whose wash window is still open on a day.
    pub fn open_wash_windows(&self, view: &str, as_of: Day) -> (r: Result<AsOf<Vec<OpenWashWindow>>, String>)
        ensures
            match view_index(self@.views, view@) {
                None => r matches Err(e) && e@ == no_view(view@, self@.views),
                Some(i) => match open_windows(self@.views[i].1.lots.pending, as_of) {
                    Err(why) => r matches Err(e) && e@ == why,
                    Ok(ws) => r matches Ok(a) && read_at(a, self@, i) && a.value@ == ws,
                },
            },
    {
        let i = match self.fold_index(view) {
            Ok(i) => i,
            Err(e) => return Err(e),
        };
        let ws = &self.views[i].1.lots.pending_wash;
        let ghost wv = crate::lots::pendings_view(ws@);
        assert(self@.views[i as int].1 == self.views@[i as int].1@);
        let mut out: Vec<OpenWashWindow> = Vec::new();
        let mut k: usize = 0;
        proof { assert(wv.take(0) =~= Seq::<PendingView>::empty()); }
        while k < ws.len()
            invariant
                0 <= k <= ws@.len(),
                wv == crate::lots::pendings_view(ws@),
                wv.len() == ws@.len(),
                i < self@.views.len(),
                view_index(self@.views, view@) == Some(i as int),
                wv == self@.views[i as int].1.lots.pending,
                open_windows(wv.take(k as int), as_of) == Ok::<Seq<OpenWashWindow>, Seq<char>>(out@),
            decreases ws@.len() - k,
        {
            let w = &ws[k];
            proof {
                assert(wv.take(k + 1).drop_last() =~= wv.take(k as int));
                assert(wv.take(k + 1).last() == w@);
            }
            match crate::wash::window_still_open(w.window, w.sold_on, as_of) {
                Err(o) => {
                    proof {
                        assert(open_windows(wv.take(k + 1), as_of) == Err::<Seq<OpenWashWindow>, Seq<char>>(crate::checked::overflow_message("the day the wash window closes"@)));
                        lemma_open_windows_stop(wv, k as int + 1, as_of);
                    }
                    return Err(o.message());
                },
                Ok(open) => {
                    if open {
                        out.push(OpenWashWindow { sold_on: w.sold_on, window: w.window, remaining_units: w.remaining_units, remaining_loss: w.remaining_loss });
                    }
                },
            }
            k = k + 1;
        }
        proof { assert(wv.take(ws@.len() as int) =~= wv); }
        Ok(AsOf { value: out, prefix: self.at, view: self.views[i].0.clone(), through: self.through(i) })
    }

    /// Cost given up by sales, every currency added up.
    pub fn relieved_cost(&self, view: &str) -> (r: Result<i128, String>)
        ensures
            match view_index(self@.views, view@) {
                None => r matches Err(e) && e@ == no_view(view@, self@.views),
                Some(i) => r == Ok::<i128, String>(currency_total(self@.views[i].1.lots.relieved)),
            },
    {
        let i = match self.fold_index(view) {
            Ok(i) => i,
            Err(e) => return Err(e),
        };
        let rows = &self.views[i].1.lots.relieved;
        let ghost cv = currency_view(rows@);
        let mut t: i128 = 0;
        let mut k: usize = 0;
        proof { assert(cv.take(0) =~= Seq::<CurrencyRow>::empty()); }
        while k < rows.len()
            invariant
                0 <= k <= rows@.len(),
                cv == currency_view(rows@),
                cv.len() == rows@.len(),
                t == currency_total(cv.take(k as int)),
            decreases rows@.len() - k,
        {
            proof {
                assert(cv.take(k + 1).drop_last() =~= cv.take(k as int));
                assert(cv.take(k + 1).last().1 == rows@[k as int].1);
            }
            t = t.wrapping_add(rows[k].1);
            k = k + 1;
        }
        proof { assert(cv.take(rows@.len() as int) =~= cv); }
        Ok(t)
    }

    /// The splits an instrument's units must be read through on a day:
    /// announced inside this prefix on or before it, and not already
    /// rewritten, in journal order.
    pub fn steps_for(&self, instrument: &str, day: &str) -> (r: Vec<Step>)
        ensures
            r@ == steps_spec(self@.announced, self@.rewritten, instrument@, day@),
    {
        let ghost av = self@.announced;
        let ghost rw = self@.rewritten;
        let mut out: Vec<Step> = Vec::new();
        let mut k: usize = 0;
        proof { assert(av.take(0) =~= Seq::<(Seq<char>, Seq<char>, Seq<char>, i64, i64)>::empty()); }
        while k < self.actions.announced.len()
            invariant
                0 <= k <= self.actions.announced@.len(),
                av == self@.announced,
                rw == self@.rewritten,
                av.len() == self.actions.announced@.len(),
                out@ == steps_spec(av.take(k as int), rw, instrument@, day@),
            decreases self.actions.announced@.len() - k,
        {
            let a = &self.actions.announced[k];
            proof {
                assert(av.take(k + 1).drop_last() =~= av.take(k as int));
                assert(av.take(k + 1).last() == av[k as int]);
                assert(av[k as int] == (a.0@, a.1@, a.2@, a.3, a.4));
            }
            if str_eq(a.0.as_str(), instrument) && !crate::merge::text_before(day, a.1.as_str())
                && !has_text(&self.actions.rewritten, &a.2) {
                out.push(Step { num: a.3, den: a.4 });
            }
            k = k + 1;
        }
        proof { assert(av.take(av.len() as int) =~= av); }
        out
    }

    /// Whether one view's figures hold an entry, at the fold's own cut.
    pub fn recognised(&self, view: &str, entry: &JournalEntry) -> (r: Result<bool, String>)
        ensures
            match view_index(self@.views, view@) {
                None => r matches Err(e) && e@ == no_view(view@, self@.views),
                Some(i) => r == Ok::<bool, String>(match entry_placement(self@.defs, view@, entry@, date_of(entry@).0) {
                    PlacementView::Always => true,
                    PlacementView::On(d) => self@.views[i].1.through matches Some(c) && d <= c,
                    PlacementView::Unplaceable(_) => false,
                }),
            },
    {
        let i = match self.fold_index(view) {
            Ok(i) => i,
            Err(e) => return Err(e),
        };
        let (trade_day, _) = date_for(entry);
        let placement = placement_for(&self.view_defs, view, entry, trade_day);
        Ok(match placement {
            Placement::Always => true,
            Placement::On(d) => match self.views[i].1.recognised_through {
                Some(c) => d <= c,
                None => false,
            },
            Placement::Unplaceable(_) => false,
        })
    }
}

proof fn lemma_open_windows_stop(ws: Seq<PendingView>, k: int, as_of: Day)
    requires
        0 <= k <= ws.len(),
        open_windows(ws.take(k), as_of) is Err,
    ensures
        open_windows(ws, as_of) == open_windows(ws.take(k), as_of),
    decreases ws.len() - k,
{
    if k == ws.len() {
        assert(ws.take(k) =~= ws);
    } else {
        assert(ws.take(k + 1).drop_last() =~= ws.take(k));
        lemma_open_windows_stop(ws, k + 1, as_of);
    }
}

// ------------------------------------------------------------ seeding

/// Whether view definitions are those a configuration declares, or the one
/// every book has where it declares none.
pub open spec fn defs_declared(ds: Seq<ViewDef>, set: crate::rules::RuleSet) -> bool {
    &&& ds.len() == (if set.views@.len() == 0 { 1 } else { set.views@.len() })
    &&& set.views@.len() > 0 ==> forall|i: int| 0 <= i < ds.len() ==> crate::views::def_matches(#[trigger] ds[i], set, set.views@[i])
    &&& set.views@.len() == 0 ==> ds[0].id@ == UNDECLARED_VIEW@ && ds[0].display_name@ == "Journal order"@
        && ds[0].basis == Basis::Recorded && ds[0].settles_in == 0 && ds[0].holidays@.len() == 0
        && ds[0].weekend@.len() == 0 && !ds[0].declared
}

/// Why a view declared after a fold began cannot be answered until rebuilt.
pub open spec fn declared_late(id: Seq<char>, folded: int) -> Seq<char> {
    "view "@ + quoted(id) + " was declared after this projection had folded "@ + crate::text::decimal(folded)
        + " entries, and a maintained fold cannot recognise what it has already read past — rebuild to fold this view from the start"@
}

/// A view declared after a fold began: present, and refusing.
pub open spec fn late_fold(basis: Basis, id: Seq<char>, folded: int) -> FoldView {
    FoldView {
        unplaceable: seq![UnplacedView { id: Seq::empty(), memo: Seq::empty(), trade_day: None, why: declared_late(id, folded) }],
        ..fresh_fold(basis)
    }
}

/// How many leading views have ids below `id`.
pub open spec fn view_slot(vs: Seq<(Seq<char>, FoldView)>, id: Seq<char>) -> int
    decreases vs.len(),
{
    if vs.len() == 0 || !text_lt(vs[0].0, id) { 0 } else { 1 + view_slot(vs.drop_first(), id) }
}

/// Views with one put in its place: replacing one already there when asked
/// to, keeping it otherwise.
pub open spec fn with_view(vs: Seq<(Seq<char>, FoldView)>, id: Seq<char>, f: FoldView, replace: bool) -> Seq<(Seq<char>, FoldView)> {
    let p = view_slot(vs, id);
    if 0 <= p < vs.len() && vs[p].0 == id {
        if replace { vs.update(p, (id, f)) } else { vs }
    } else {
        vs.insert(p, (id, f))
    }
}

/// The views a configuration declares, folded in: on a projection that has
/// read nothing, exactly those; on one that has, the new ones added, each
/// refusing until a rebuild.
pub open spec fn seeded(vs: Seq<(Seq<char>, FoldView)>, ds: Seq<ViewDef>, at: int) -> Seq<(Seq<char>, FoldView)>
    decreases ds.len(),
{
    if ds.len() == 0 {
        if at == 0 { Seq::empty() } else { vs }
    } else {
        let d = ds.last();
        let before = seeded(vs, ds.drop_last(), at);
        if at == 0 {
            with_view(before, d.id@, fresh_fold(d.basis), true)
        } else {
            with_view(before, d.id@, late_fold(d.basis, d.id@, at), false)
        }
    }
}

fn put_view(vs: &mut Vec<(String, ViewFold)>, id: String, f: ViewFold, replace: bool, Ghost(seen): Ghost<int>)
    requires
        forall|i: int, j: int| 0 <= i < j < old(vs)@.len() ==> text_lt(old(vs)@[i].0@, old(vs)@[j].0@),
        forall|i: int| 0 <= i < old(vs)@.len() ==> (#[trigger] old(vs)@[i]).1.wf(seen),
        f.wf(seen),
    ensures
        folds_view(final(vs)@) == with_view(folds_view(old(vs)@), id@, f@, replace),
        forall|i: int, j: int| 0 <= i < j < final(vs)@.len() ==> text_lt(final(vs)@[i].0@, final(vs)@[j].0@),
        forall|i: int| 0 <= i < final(vs)@.len() ==> (#[trigger] final(vs)@[i]).1.wf(seen),
{
    let ghost v = folds_view(vs@);
    let ghost ks = vs@.map_values(|e: (String, ViewFold)| (0i64, Some(e.0@), None::<Seq<char>>));
    let ghost k = (0i64, Some(id@), None::<Seq<char>>);
    let mut i: usize = 0;
    proof {
        assert(v.skip(0) =~= v);
        assert forall|x: int, y: int| 0 <= x < y < ks.len() implies crate::merge::key_lt(ks[x], ks[y]) by {}
    }
    while i < vs.len() && crate::merge::text_before(vs[i].0.as_str(), id.as_str())
        invariant
            0 <= i <= vs@.len(),
            v == folds_view(vs@),
            v.len() == vs@.len(),
            ks == vs@.map_values(|e: (String, ViewFold)| (0i64, Some(e.0@), None::<Seq<char>>)),
            k == (0i64, Some(id@), None::<Seq<char>>),
            view_slot(v, id@) == i + view_slot(v.skip(i as int), id@),
            forall|j: int| 0 <= j < i ==> crate::merge::key_lt(ks[j], k),
        decreases vs@.len() - i,
    {
        proof {
            assert(v.skip(i as int)[0] == v[i as int]);
            assert(v.skip(i as int).drop_first() =~= v.skip(i + 1));
        }
        i = i + 1;
    }
    proof {
        if i < vs@.len() {
            assert(v.skip(i as int)[0] == v[i as int]);
        }
        assert(view_slot(v.skip(i as int), id@) == 0);
        crate::table::lemma_slot(ks, k, i as int);
    }
    let ghost before = vs@;
    if i < vs.len() && str_eq(vs[i].0.as_str(), id.as_str()) {
        if replace {
            vs.set(i, (id, f));
            proof {
                assert(folds_view(vs@) =~= v.update(i as int, (id@, f@)));
            }
        }
    } else {
        vs.insert(i, (id, f));
        proof {
            let n = folds_view(vs@);
            assert forall|j: int| 0 <= j < n.len() implies #[trigger] n[j] == v.insert(i as int, (id@, f@))[j] by {
                if j > i {
                    assert(vs@[j] == before[j - 1]);
                } else if j < i {
                    assert(vs@[j] == before[j]);
                }
            }
            assert(n =~= v.insert(i as int, (id@, f@)));
            let nk = ks.insert(i as int, k);
            assert forall|x: int, y: int| 0 <= x < y < vs@.len() implies text_lt(vs@[x].0@, vs@[y].0@) by {
                assert(crate::merge::key_lt(nk[x], nk[y]));
                if x < i { assert(nk[x] == ks[x]); } else if x > i { assert(nk[x] == ks[x - 1]); }
                if y < i { assert(nk[y] == ks[y]); } else if y > i { assert(nk[y] == ks[y - 1]); }
            }
            assert forall|j: int| 0 <= j < vs@.len() implies (#[trigger] vs@[j]).1.wf(seen) by {
                if j > i {
                    assert(vs@[j] == before[j - 1]);
                } else if j < i {
                    assert(vs@[j] == before[j]);
                }
            }
        }
    }
}

impl Projection {
    /// Answer for exactly the views the active configuration declares. On a
    /// projection that has read nothing, those views replace what it had; on
    /// one that has, a view declared since is added refusing, until a rebuild
    /// folds it from the start, and a view no longer declared keeps its fold.
    pub fn seed_views(&mut self, active: &crate::rules::RuleSet)
        requires
            old(self).wf(),
        ensures
            final(self).wf(),
            exists|ds: Seq<ViewDef>| defs_declared(ds, *active)
                && final(self)@ == (ProjectionView { views: seeded(old(self)@.views, ds, old(self)@.at), ..old(self)@ }),
    {
        let declared = ViewDef::of(active);
        let ghost ds = declared@;
        let fresh = self.at == 0;
        let mut vs: Vec<(String, ViewFold)> = Vec::new();
        if !fresh {
            std::mem::swap(&mut vs, &mut self.views);
        }
        let ghost v0 = folds_view(vs@);
        let mut k: usize = 0;
        proof {
            assert(ds.take(0) =~= Seq::<ViewDef>::empty());
            if fresh {
                assert(folds_view(vs@) =~= Seq::<(Seq<char>, FoldView)>::empty());
            }
        }
        while k < declared.len()
            invariant
                0 <= k <= declared@.len(),
                ds == declared@,
                fresh == (self.at == 0),
                folds_view(vs@) == seeded(old(self)@.views, ds.take(k as int), self.at as int),
                forall|i: int, j: int| 0 <= i < j < vs@.len() ==> text_lt(vs@[i].0@, vs@[j].0@),
                forall|i: int| 0 <= i < vs@.len() ==> (#[trigger] vs@[i]).1.wf(self.seen as int),
                self.seen < i64::MAX,
                self.at == old(self).at,
                self.seen == old(self).seen,
            decreases declared@.len() - k,
        {
            let d = &declared[k];
            proof {
                assert(ds.take(k + 1).drop_last() =~= ds.take(k as int));
                assert(ds.take(k + 1).last() == *d);
            }
            if fresh {
                let f = ViewFold::new(d.basis);
                put_view(&mut vs, d.id.clone(), f, true, Ghost(self.seen as int));
            } else {
                let mut f = ViewFold::new(d.basis);
                let mut why = String::from_str("view ");
                push_quoted(&mut why, d.id.as_str());
                why.append(" was declared after this projection had folded ");
                crate::text::push_decimal(&mut why, self.at as i128);
                why.append(" entries, and a maintained fold cannot recognise what it has already read past — rebuild to fold this view from the start");
                let u = Unplaced { id: String::new(), memo: String::new(), trade_day: None, why };
                f.unplaceable.push(u);
                proof {
                    assert(unplaced_view(f.unplaceable@) =~= seq![UnplacedView { id: Seq::empty(), memo: Seq::empty(), trade_day: None, why: declared_late(d.id@, self.at as int) }]);
                    assert(f@ == late_fold(d.basis, d.id@, self.at as int));
                }
                put_view(&mut vs, d.id.clone(), f, false, Ghost(self.seen as int));
            }
            k = k + 1;
        }
        proof {
            assert(ds.take(ds.len() as int) =~= ds);
        }
        self.views = vs;
        proof {
            assert(defs_declared(ds, *active));
        }
    }
}

// ------------------------------------------------------------ configurations

/// The refusal an entry carries when its configuration was never resolved.
pub open spec fn unresolved() -> Seq<char> {
    "the configuration was not resolved before folding"@
}

/// The terms an entry's configuration set, as resolved.
pub open spec fn terms_for(t: Seq<(Seq<char>, Result<Terms, Seq<char>>)>, digest: Seq<char>) -> Result<Terms, Seq<char>> {
    match first_under(t, digest) {
        Some(x) => x,
        None => Err(unresolved()),
    }
}

/// A wrapping sum of the cost held in one instrument, across dimensions.
pub open spec fn held_cost(rows: Seq<((i64, String), (i64, i64))>, inst: Seq<char>) -> i64
    decreases rows.len(),
{
    if rows.len() == 0 {
        0
    } else {
        let before = held_cost(rows.drop_last(), inst);
        if rows.last().0.1@ == inst { before.wrapping_add(rows.last().1.0) } else { before }
    }
}

fn first_terms_index(t: &Vec<(String, Result<Terms, String>)>, digest: &str) -> (r: Option<usize>)
    ensures
        match r {
            Some(i) => i < t@.len() && first_under(terms_table(t@), digest@) == Some(terms_table(t@)[i as int].1),
            None => first_under(terms_table(t@), digest@) is None,
        },
{
    let ghost v = terms_table(t@);
    let mut i: usize = 0;
    proof { assert(v.skip(0) =~= v); }
    while i < t.len()
        invariant
            0 <= i <= t@.len(),
            v == terms_table(t@),
            v.len() == t@.len(),
            first_under(v, digest@) == first_under(v.skip(i as int), digest@),
        decreases t@.len() - i,
    {
        proof {
            assert(v.skip(i as int)[0] == v[i as int]);
            assert(v.skip(i as int).drop_first() =~= v.skip(i + 1));
        }
        if str_eq(t[i].0.as_str(), digest) {
            return Some(i);
        }
        i = i + 1;
    }
    None
}

impl Projection {
    /// The cost held in one instrument, across every dimension; a sum that
    /// wraps at 64 bits, as the positions it adds do.
    pub fn cost_of(&self, view: &str, instrument: &str) -> (r: Result<AsOf<i64>, String>)
        ensures
            match view_index(self@.views, view@) {
                None => r matches Err(e) && e@ == no_view(view@, self@.views),
                Some(i) => r matches Ok(a) && read_at(a, self@, i) && a.value == held_cost(self.held_rows(i), instrument@),
            },
    {
        let i = match self.fold_index(view) {
            Ok(i) => i,
            Err(e) => return Err(e),
        };
        let rows = &self.views[i].1.positions.held;
        let mut total: i64 = 0;
        let mut k: usize = 0;
        proof { assert(rows@.take(0) =~= Seq::<((i64, String), (i64, i64))>::empty()); }
        while k < rows.len()
            invariant
                0 <= k <= rows@.len(),
                total == held_cost(rows@.take(k as int), instrument@),
            decreases rows@.len() - k,
        {
            proof {
                assert(rows@.take(k + 1).drop_last() =~= rows@.take(k as int));
                assert(rows@.take(k + 1).last() == rows@[k as int]);
            }
            if str_eq(rows[k].0.1.as_str(), instrument) {
                total = total.wrapping_add(rows[k].1.0);
            }
            k = k + 1;
        }
        proof { assert(rows@.take(rows@.len() as int) =~= rows@); }
        Ok(AsOf { value: total, prefix: self.at, view: self.views[i].0.clone(), through: self.through(i) })
    }

    /// A view's positions by dimension and instrument.
    pub closed spec fn held_rows(&self, i: int) -> Seq<((i64, String), (i64, i64))> {
        self.views@[i].1.positions.held@
    }

    /// Whether the terms a configuration sets have been resolved.
    pub fn knows_terms(&self, digest: &str) -> (r: bool)
        ensures
            r == first_under(self@.terms, digest@) is Some,
    {
        first_terms_index(&self.terms, digest).is_some()
    }

    /// Whether the views a configuration declares have been resolved.
    pub fn knows_views(&self, digest: &str) -> (r: bool)
        ensures
            r == first_under(self@.defs, digest@) is Some,
    {
        first_defs_index(&self.view_defs, digest).is_some()
    }

    /// Remember the terms a configuration sets, or why it could not be read;
    /// resolved once, so a configuration already known keeps its terms.
    pub fn resolve_terms(&mut self, digest: &str, terms: Result<Terms, String>)
        requires
            old(self).wf(),
        ensures
            final(self).wf(),
            first_under(old(self)@.terms, digest@) is Some ==> final(self)@ == old(self)@,
            first_under(old(self)@.terms, digest@) is None ==>
                final(self)@ == (ProjectionView { terms: old(self)@.terms.push((digest@, terms_view(terms))), ..old(self)@ }),
    {
        if first_terms_index(&self.terms, digest).is_some() {
            return;
        }
        let ghost before = self.terms@;
        let ghost tv = terms_view(terms);
        self.terms.push((String::from_str(digest), terms));
        proof {
            assert(terms_table(self.terms@) =~= terms_table(before).push((digest@, tv)));
        }
    }

    /// Remember the views a configuration declares, or why it could not be
    /// read; resolved once.
    pub fn resolve_views(&mut self, digest: &str, defs: Result<Vec<ViewDef>, String>)
        requires
            old(self).wf(),
        ensures
            final(self).wf(),
            first_under(old(self)@.defs, digest@) is Some ==> final(self)@ == old(self)@,
            first_under(old(self)@.defs, digest@) is None ==>
                final(self)@ == (ProjectionView { defs: old(self)@.defs.push((digest@, match defs { Ok(d) => Ok(d@), Err(s) => Err(s@) })), ..old(self)@ }),
    {
        if first_defs_index(&self.view_defs, digest).is_some() {
            return;
        }
        let ghost before = self.view_defs@;
        let ghost dv: Result<Seq<ViewDef>, Seq<char>> = match &defs { Ok(d) => Ok(d@), Err(s) => Err(s@) };
        self.view_defs.push((String::from_str(digest), defs));
        proof {
            assert(defs_table(self.view_defs@) =~= defs_table(before).push((digest@, dv)));
        }
    }

    fn terms_of_entry(&self, e: &JournalEntry) -> (r: Result<Terms, String>)
        ensures
            terms_view(r) == terms_for(self@.terms, e@.config),
    {
        match first_terms_index(&self.terms, e.config.as_str()) {
            Some(i) => crate::viewfold::copy_terms(&self.terms[i].1),
            None => Err(String::from_str("the configuration was not resolved before folding")),
        }
    }

    /// Whether the next entry can be folded: its postings keep the count of
    /// postings within 64 bits, and its figures can be applied to the lots.
    pub fn can_fold(&self, e: &JournalEntry) -> (r: bool)
        ensures
            r == (self.postings_seen() + e@.postings.len() < i64::MAX && lots_computable(e@, terms_for(self@.terms, e@.config))),
    {
        let terms = self.terms_of_entry(e);
        let room = (e.postings.len() as u64) < 0x7fff_ffff_ffff_ffff && self.seen < 0x7fff_ffff_ffff_ffff - (e.postings.len() as u64);
        room && crate::lotbook::entry_computable(e, &terms)
    }

    /// Fold the next entry of a journal being followed, under the terms its
    /// configuration set as resolved.
    pub fn fold_next(&mut self, e: &JournalEntry)
        requires
            old(self).wf(),
            old(self)@.at < usize::MAX,
            old(self).postings_seen() + e@.postings.len() < i64::MAX,
            lots_computable(e@, terms_for(old(self)@.terms, e@.config)),
        ensures
            final(self).wf(),
            final(self)@ == (ProjectionView { at: old(self)@.at + 1, ..fold_step(old(self)@, old(self)@.at, e@, terms_for(old(self)@.terms, e@.config)) }),
            final(self).postings_seen() == old(self).postings_seen() + e@.postings.len(),
    {
        let terms = self.terms_of_entry(e);
        let at = self.at;
        self.fold(at, e, &terms);
        self.at = at + 1;
    }

    /// How far into the journal's file this has read.
    pub fn read_to(&self) -> (r: u64)
        ensures
            r == self@.read_to,
    {
        self.read_to
    }

    /// Record how far into the journal's file this has read.
    pub fn set_read_to(&mut self, offset: u64)
        requires
            old(self).wf(),
        ensures
            final(self).wf(),
            final(self)@ == (ProjectionView { read_to: offset, ..old(self)@ }),
    {
        self.read_to = offset;
    }
}

impl Projection {
    /// What accounts for two views' net asset values differing, entry by
    /// entry, read over the two bands and never the history: `reconciled`,
    /// after a refusal naming the views kept where either view is not.
    pub fn reconcile(&self, here: &str, there: &str, dims: &[i64], rates: &Rates) -> (r: Result<AsOf<Reconciliation>, String>)
        requires
            self.wf(),
            forall|i: int| view_index(self@.views, here@) == Some(i) || view_index(self@.views, there@) == Some(i) ==> {
                &&& translation_fits(row_terms(self.rows_of(i), dims@), rates.base_view(), rates.table())
                &&& forall|x: int, y: int| 0 <= x < self@.views[i].1.bands.len() && 0 <= y < self@.views[i].1.bands[x].1.len()
                    ==> translation_fits(posting_terms((#[trigger] self@.views[i].1.bands[x].1[y]).entry.postings, dims@),
                        rates.base_view(), rates.table())
            },
            forall|i: int, j: int| view_index(self@.views, here@) == Some(i) && view_index(self@.views, there@) == Some(j) ==> {
                &&& band_count(self@.views[i].1.bands) + band_count(self@.views[j].1.bands) <= 0x4000_0000_0000_0000
                &&& (translation(row_terms(self.rows_of(i), dims@), rates.base_view(), rates.table()) matches Ok(x)
                    ==> (translation(row_terms(self.rows_of(j), dims@), rates.base_view(), rates.table()) matches Ok(y)
                    ==> fits128(x - y)))
            },
        ensures
            match view_index(self@.views, here@) {
                None => r matches Err(e) && e@ == no_view(here@, self@.views),
                Some(i) => match view_index(self@.views, there@) {
                    None => r matches Err(e) && e@ == no_view(there@, self@.views),
                    Some(j) => match reconciled(self@.views[i].1, self@.views[j].1, here@, there@, self.rows_of(i),
                        self.rows_of(j), self@.defs, dims@, rates.base_view(), rates.table()) {
                        Err(why) => r matches Err(e) && e@ == why,
                        Ok(v) => r matches Ok(a) && read_at(a, self@, i) && a.value@ == v,
                    },
                },
            },
    {
        let i = match self.fold_index(here) {
            Ok(i) => i,
            Err(e) => return Err(e),
        };
        let j = match self.fold_index(there) {
            Ok(j) => j,
            Err(e) => return Err(e),
        };
        let a = &self.views[i].1;
        let b = &self.views[j].1;
        proof {
            assert(self@.views[i as int].1 == a@);
            assert(self@.views[j as int].1 == b@);
            assert(self.views@[i as int].1.wf(self.seen as int));
            assert(self.views@[j as int].1.wf(self.seen as int));
        }
        match first_counted_index(&a.unplaceable, &b.unplaceable) {
            Some(k) => return Err(placed_by_one_message(here, &a.unplaceable[k])),
            None => {},
        }
        match first_counted_index(&b.unplaceable, &a.unplaceable) {
            Some(k) => return Err(placed_by_one_message(there, &b.unplaceable[k])),
            None => {},
        }
        let ka = keyed_band(&a.pending);
        let kb = keyed_band(&b.pending);
        let ghost ba = bands_view(a.pending@);
        let ghost bb = bands_view(b.pending@);
        let ghost ga = keyed(flat(ba));
        let ghost gb = keyed(flat(bb));
        proof {
            lemma_flat_len(ba);
            lemma_flat_len(bb);
            lemma_keyed_len(flat(ba));
            lemma_keyed_len(flat(bb));
            assert forall|q: int| 0 <= q < ga.len() implies
                translation_fits(posting_terms((#[trigger] ga[q]).0.entry.postings, dims@), rates.base_view(), rates.table()) by {
                let ix = ka@[q];
                assert(waiting_at(ba, ix) == ga[q]);
                assert(ba[ix.0 as int].1[ix.1 as int] == self@.views[i as int].1.bands[ix.0 as int].1[ix.1 as int]);
            }
            assert forall|q: int| 0 <= q < gb.len() implies
                translation_fits(posting_terms((#[trigger] gb[q]).0.entry.postings, dims@), rates.base_view(), rates.table()) by {
                let ix = kb@[q];
                assert(waiting_at(bb, ix) == gb[q]);
                assert(bb[ix.0 as int].1[ix.1 as int] == self@.views[j as int].1.bands[ix.0 as int].1[ix.1 as int]);
            }
        }
        let (from_there, s1) = match walk(&kb, &b.pending, &ka, &a.pending, true, here, &self.view_defs, dims, rates,
            Ghost(gb), Ghost(ga)) {
            Ok(v) => v,
            Err(w) => return Err(w),
        };
        let (from_here, s2) = match walk(&ka, &a.pending, &kb, &b.pending, false, there, &self.view_defs, dims, rates,
            Ghost(ga), Ghost(gb)) {
            Ok(v) => v,
            Err(w) => return Err(w),
        };
        proof {
            crate::viewfold::lemma_band_postings_nonneg(ba);
            crate::viewfold::lemma_band_postings_nonneg(bb);
            crate::fold::lemma_totals_fit(a.totals, a.applied@);
            crate::fold::lemma_totals_fit(b.totals, b.applied@);
        }
        let nav_a = match translate_rows(&a.totals.by_dim, dims, rates, "this fund holds ", "an untyped balance",
            " and no rate for it was supplied — a figure mixing denominations is not a figure") {
            Ok(v) => v,
            Err(w) => return Err(w),
        };
        let nav_b = match translate_rows(&b.totals.by_dim, dims, rates, "this fund holds ", "an untyped balance",
            " and no rate for it was supplied — a figure mixing denominations is not a figure") {
            Ok(v) => v,
            Err(w) => return Err(w),
        };
        let difference: i128 = nav_a - nav_b;
        let summed: i128 = s1 + s2;
        if difference != summed {
            return Err(residue_message(difference, summed));
        }
        if difference < i64::MIN as i128 || difference > i64::MAX as i128 {
            return Err(String::from_str("the difference between these views does not fit in 64 bits"));
        }
        let entries = merge_walks(&from_there, &from_here);
        let unplaceable = neither(&a.unplaceable, &b.unplaceable);
        Ok(AsOf {
            value: Reconciliation {
                here: String::from_str(here),
                there: String::from_str(there),
                entries,
                unplaceable,
                difference: difference as i64,
            },
            prefix: self.at,
            view: self.views[i].0.clone(),
            through: self.through(i),
        })
    }
}

// ------------------------------------------------------------ copies and checkpoints

/// Whether two lists of view definitions say the same, definition by
/// definition.
pub open spec fn defs_agree(x: Seq<ViewDef>, y: Seq<ViewDef>) -> bool {
    x.len() == y.len() && forall|i: int| 0 <= i < x.len() ==> crate::views::def_agree(#[trigger] x[i], y[i])
}

/// Whether two tables of resolved views say the same, entry by entry.
pub open spec fn tables_agree(a: Seq<(Seq<char>, Result<Seq<ViewDef>, Seq<char>>)>,
    b: Seq<(Seq<char>, Result<Seq<ViewDef>, Seq<char>>)>) -> bool {
    &&& a.len() == b.len()
    &&& forall|i: int| 0 <= i < a.len() ==> {
        &&& (#[trigger] a[i]).0 == b[i].0
        &&& match (a[i].1, b[i].1) {
            (Ok(x), Ok(y)) => defs_agree(x, y),
            (Err(x), Err(y)) => x == y,
            _ => false,
        }
    }
}

/// Whether two projections are the same: the same views and figures, the
/// same position, the same resolved terms, and configurations that declare
/// the same views field for field.
pub open spec fn agrees(a: ProjectionView, b: ProjectionView) -> bool {
    &&& a == (ProjectionView { defs: a.defs, ..b })
    &&& tables_agree(a.defs, b.defs)
}

proof fn lemma_first_def_agree(x: Seq<ViewDef>, y: Seq<ViewDef>, vid: Seq<char>)
    requires
        defs_agree(x, y),
    ensures
        match (first_def(x, vid), first_def(y, vid)) {
            (None, None) => true,
            (Some(a), Some(b)) => crate::views::def_agree(a, b),
            _ => false,
        },
    decreases x.len(),
{
    if x.len() > 0 {
        assert(crate::views::def_agree(x[0], y[0]));
        assert forall|i: int| 0 <= i < x.drop_first().len() implies
            crate::views::def_agree(#[trigger] x.drop_first()[i], y.drop_first()[i]) by {
            assert(crate::views::def_agree(x[i + 1], y[i + 1]));
        }
        lemma_first_def_agree(x.drop_first(), y.drop_first(), vid);
    }
}

proof fn lemma_first_under_agree(a: Seq<(Seq<char>, Result<Seq<ViewDef>, Seq<char>>)>,
    b: Seq<(Seq<char>, Result<Seq<ViewDef>, Seq<char>>)>, k: Seq<char>)
    requires
        tables_agree(a, b),
    ensures
        match (first_under(a, k), first_under(b, k)) {
            (None, None) => true,
            (Some(Ok(x)), Some(Ok(y))) => defs_agree(x, y),
            (Some(Err(x)), Some(Err(y))) => x == y,
            _ => false,
        },
    decreases a.len(),
{
    if a.len() > 0 {
        assert(a[0].0 == b[0].0);
        assert forall|i: int| 0 <= i < a.drop_first().len() implies {
            &&& (#[trigger] a.drop_first()[i]).0 == b.drop_first()[i].0
            &&& match (a.drop_first()[i].1, b.drop_first()[i].1) {
                (Ok(x), Ok(y)) => defs_agree(x, y),
                (Err(x), Err(y)) => x == y,
                _ => false,
            }
        } by {
            assert(a.drop_first()[i] == a[i + 1]);
            assert(b.drop_first()[i] == b[i + 1]);
        }
        lemma_first_under_agree(a.drop_first(), b.drop_first(), k);
    }
}

proof fn lemma_entry_placement_agree(a: Seq<(Seq<char>, Result<Seq<ViewDef>, Seq<char>>)>,
    b: Seq<(Seq<char>, Result<Seq<ViewDef>, Seq<char>>)>, vid: Seq<char>, e: EntryView, trade_day: Option<Day>)
    requires
        tables_agree(a, b),
    ensures
        entry_placement(a, vid, e, trade_day) == entry_placement(b, vid, e, trade_day),
{
    lemma_first_under_agree(a, b, e.config);
    match (first_under(a, e.config), first_under(b, e.config)) {
        (Some(Ok(x)), Some(Ok(y))) => {
            lemma_first_def_agree(x, y, vid);
            match (first_def(x, vid), first_def(y, vid)) {
                (Some(d1), Some(d2)) => crate::views::lemma_placement_agree(d1, d2, e.id, trade_day),
                _ => {},
            }
        },
        _ => {},
    }
}

proof fn lemma_fold_step_agree(p: ProjectionView, q: ProjectionView, at: int, e: EntryView, terms: Result<Terms, Seq<char>>)
    requires
        agrees(q, p),
    ensures
        agrees(fold_step(q, at, e, terms), fold_step(p, at, e, terms)),
{
    let (trade_day, _) = date_of(e);
    assert forall|i: int| 0 <= i < p.views.len() implies
        entry_placement(q.defs, p.views[i].0, e, trade_day) == entry_placement(p.defs, p.views[i].0, e, trade_day) by {
        lemma_entry_placement_agree(q.defs, p.defs, p.views[i].0, e, trade_day);
    }
    assert(fold_step(q, at, e, terms).views =~= fold_step(p, at, e, terms).views);
}

proof fn lemma_fold_range_agrees(p: ProjectionView, q: ProjectionView, es: Seq<EntryView>, lo: int, hi: int,
    terms: Result<Terms, Seq<char>>)
    requires
        agrees(q, p),
    ensures
        agrees(fold_range(q, es, lo, hi, terms), fold_range(p, es, lo, hi, terms)),
    decreases hi - lo,
{
    if hi > lo {
        lemma_fold_range_agrees(p, q, es, lo, hi - 1, terms);
        lemma_fold_step_agree(fold_range(p, es, lo, hi - 1, terms), fold_range(q, es, lo, hi - 1, terms), hi - 1,
            es[hi - 1], terms);
    }
}

/// Restoring what was captured gives back the projection captured: where a
/// capture agrees with a projection and a restore with the capture, the
/// restore agrees with the projection.
pub proof fn law_restoring_a_capture_gives_the_projection_back(p: ProjectionView, captured: ProjectionView,
    restored: ProjectionView)
    requires
        agrees(captured, p),
        agrees(restored, captured),
    ensures
        agrees(restored, p),
{
    assert forall|i: int| 0 <= i < restored.defs.len() implies {
        &&& (#[trigger] restored.defs[i]).0 == p.defs[i].0
        &&& match (restored.defs[i].1, p.defs[i].1) {
            (Ok(x), Ok(y)) => defs_agree(x, y),
            (Err(x), Err(y)) => x == y,
            _ => false,
        }
    } by {
        assert(captured.defs[i].0 == p.defs[i].0);
    }
}

/// Restoring a checkpoint captured after the first entries of a journal and
/// advancing over the rest folds what rebuilding from the whole journal does.
pub proof fn law_resuming_from_a_checkpoint_is_rebuilding(short: Seq<EntryView>, long: Seq<EntryView>,
    terms: Result<Terms, Seq<char>>, restored: ProjectionView)
    requires
        short.len() <= long.len(),
        forall|i: int| 0 <= i < short.len() ==> short[i] == long[i],
        agrees(restored, ProjectionView { at: short.len() as int, ..fold_range(empty_view(), short, 0, short.len() as int, terms) }),
    ensures
        agrees(
            ProjectionView { at: long.len() as int, ..fold_range(restored, long, short.len() as int, long.len() as int, terms) },
            ProjectionView { at: long.len() as int, ..fold_range(empty_view(), long, 0, long.len() as int, terms) },
        ),
{
    let k = short.len() as int;
    let n = long.len() as int;
    let s = ProjectionView { at: k, ..fold_range(empty_view(), short, 0, k, terms) };
    lemma_fold_range_agrees(s, restored, long, k, n, terms);
    law_advancing_incrementally_is_rebuilding(short, long, terms);
}

fn copy_folds(v: &Vec<(String, ViewFold)>) -> (r: Vec<(String, ViewFold)>)
    ensures
        folds_view(r@) == folds_view(v@),
        r@.len() == v@.len(),
        forall|i: int| 0 <= i < v@.len() ==> (#[trigger] r@[i]).0 == v@[i].0,
        forall|i: int, seen: int| 0 <= i < v@.len() && v@[i].1.wf(seen) ==> #[trigger] r@[i].1.wf(seen),
{
    let mut out: Vec<(String, ViewFold)> = Vec::new();
    let mut i: usize = 0;
    while i < v.len()
        invariant
            0 <= i <= v@.len(),
            out@.len() == i,
            forall|k: int| 0 <= k < i ==> (#[trigger] out@[k]).0 == v@[k].0 && out@[k].1@ == v@[k].1@,
            forall|k: int, seen: int| 0 <= k < i && v@[k].1.wf(seen) ==> #[trigger] out@[k].1.wf(seen),
        decreases v@.len() - i,
    {
        out.push((v[i].0.clone(), v[i].1.copy()));
        i = i + 1;
    }
    assert(folds_view(out@) =~= folds_view(v@));
    out
}

fn copy_terms_table(v: &Vec<(String, Result<Terms, String>)>) -> (r: Vec<(String, Result<Terms, String>)>)
    ensures
        terms_table(r@) == terms_table(v@),
{
    let mut out: Vec<(String, Result<Terms, String>)> = Vec::new();
    let mut i: usize = 0;
    while i < v.len()
        invariant
            0 <= i <= v@.len(),
            out@.len() == i,
            forall|k: int| 0 <= k < i ==> (#[trigger] out@[k]).0 == v@[k].0 && terms_view(out@[k].1) == terms_view(v@[k].1),
        decreases v@.len() - i,
    {
        out.push((v[i].0.clone(), crate::viewfold::copy_terms(&v[i].1)));
        i = i + 1;
    }
    assert(terms_table(out@) =~= terms_table(v@));
    out
}

fn copy_def_list(ds: &Vec<ViewDef>) -> (r: Vec<ViewDef>)
    ensures
        defs_agree(r@, ds@),
{
    let mut out: Vec<ViewDef> = Vec::new();
    let mut i: usize = 0;
    while i < ds.len()
        invariant
            0 <= i <= ds@.len(),
            out@.len() == i,
            forall|k: int| 0 <= k < i ==> crate::views::def_agree(#[trigger] out@[k], ds@[k]),
        decreases ds@.len() - i,
    {
        out.push(crate::views::copy_def(&ds[i]));
        i = i + 1;
    }
    out
}

fn copy_defs_table(v: &Vec<(String, Result<Vec<ViewDef>, String>)>) -> (r: Vec<(String, Result<Vec<ViewDef>, String>)>)
    ensures
        tables_agree(defs_table(r@), defs_table(v@)),
{
    let mut out: Vec<(String, Result<Vec<ViewDef>, String>)> = Vec::new();
    let mut i: usize = 0;
    while i < v.len()
        invariant
            0 <= i <= v@.len(),
            out@.len() == i,
            forall|k: int| 0 <= k < i ==> {
                &&& (#[trigger] out@[k]).0@ == v@[k].0@
                &&& match (out@[k].1, v@[k].1) {
                    (Ok(x), Ok(y)) => defs_agree(x@, y@),
                    (Err(x), Err(y)) => x@ == y@,
                    _ => false,
                }
            },
        decreases v@.len() - i,
    {
        let body = match &v[i].1 {
            Ok(ds) => Ok(copy_def_list(ds)),
            Err(w) => Err(w.clone()),
        };
        out.push((v[i].0.clone(), body));
        i = i + 1;
    }
    let ghost a = defs_table(out@);
    let ghost b = defs_table(v@);
    assert forall|k: int| 0 <= k < a.len() implies {
        &&& (#[trigger] a[k]).0 == b[k].0
        &&& match (a[k].1, b[k].1) {
            (Ok(x), Ok(y)) => defs_agree(x, y),
            (Err(x), Err(y)) => x == y,
            _ => false,
        }
    } by {
        assert(out@[k].0@ == v@[k].0@);
    }
    out
}

fn copy_announced(v: &Vec<(String, String, String, i64, i64)>) -> (r: Vec<(String, String, String, i64, i64)>)
    ensures
        r@ == v@,
{
    let mut out: Vec<(String, String, String, i64, i64)> = Vec::new();
    let mut i: usize = 0;
    while i < v.len()
        invariant
            0 <= i <= v@.len(),
            out@ == v@.take(i as int),
        decreases v@.len() - i,
    {
        let a = &v[i];
        out.push((a.0.clone(), a.1.clone(), a.2.clone(), a.3, a.4));
        i = i + 1;
        assert(out@ =~= v@.take(i as int));
    }
    assert(v@.take(v@.len() as int) =~= v@);
    out
}

impl Projection {
    /// This projection, copied: it agrees with this one and has handed the
    /// fold as many postings.
    pub(crate) fn copy(&self) -> (r: Projection)
        requires
            self.wf(),
        ensures
            r.wf(),
            agrees(r@, self@),
            r.postings_seen() == self.postings_seen(),
    {
        let r = Projection {
            views: copy_folds(&self.views),
            actions: Actions {
                announced: copy_announced(&self.actions.announced),
                rewritten: crate::viewfold::copy_texts(&self.actions.rewritten),
            },
            read_to: self.read_to,
            at: self.at,
            cost: self.cost,
            terms: copy_terms_table(&self.terms),
            view_defs: copy_defs_table(&self.view_defs),
            seen: self.seen,
        };
        assert(r@.views == self@.views);
        assert(r@ == (ProjectionView { defs: r@.defs, ..self@ }));
        r
    }
}

/// The postings of entries `lo` up to `hi` are those up to `k` and those from
/// `k` on.
pub(crate) proof fn lemma_postings_in_split(es: Seq<EntryView>, lo: int, k: int, hi: int)
    requires
        lo <= k <= hi,
    ensures
        postings_in(es, lo, hi) == postings_in(es, lo, k) + postings_in(es, k, hi),
    decreases hi - k,
{
    if hi > k {
        lemma_postings_in_split(es, lo, k, hi - 1);
    }
}

/// Every projection agrees with itself.
pub(crate) proof fn lemma_agrees_itself(a: ProjectionView)
    ensures
        agrees(a, a),
{
    assert forall|i: int| 0 <= i < a.defs.len() implies {
        &&& (#[trigger] a.defs[i]).0 == a.defs[i].0
        &&& match (a.defs[i].1, a.defs[i].1) {
            (Ok(x), Ok(y)) => defs_agree(x, y),
            (Err(x), Err(y)) => x == y,
            _ => false,
        }
    } by {
        if let Ok(x) = a.defs[i].1 {
            assert(defs_agree(x, x));
        }
    }
}

/// Whether announcement `i` is of instrument `inst`, dated on or before
/// `day`, not rewritten, and has the ratio of step `s`.
pub open spec fn announces(av: Seq<(Seq<char>, Seq<char>, Seq<char>, i64, i64)>, rw: Seq<Seq<char>>, inst: Seq<char>,
    day: Seq<char>, i: int, s: Step) -> bool {
    &&& 0 <= i < av.len()
    &&& av[i].0 == inst
    &&& !text_lt(day, av[i].1)
    &&& !rw.contains(av[i].2)
    &&& s == Step { num: av[i].3, den: av[i].4 }
}

/// A split is read through only onto the instrument it was announced for:
/// every step read for an instrument on a day comes from an announcement
/// of that instrument, dated on or before the day and not rewritten, with
/// that announcement's ratio; the announcement is returned.
pub proof fn law_a_split_scales_only_its_own_instrument(av: Seq<(Seq<char>, Seq<char>, Seq<char>, i64, i64)>,
    rw: Seq<Seq<char>>, inst: Seq<char>, day: Seq<char>, k: int) -> (i: int)
    requires
        0 <= k < steps_spec(av, rw, inst, day).len(),
    ensures
        announces(av, rw, inst, day, i, steps_spec(av, rw, inst, day)[k]),
    decreases av.len(),
{
    let init = av.drop_last();
    let before = steps_spec(init, rw, inst, day);
    let out = steps_spec(av, rw, inst, day);
    if k < before.len() {
        assert(out[k] == before[k]);
        let i = law_a_split_scales_only_its_own_instrument(init, rw, inst, day, k);
        assert(av[i] == init[i]);
        i
    } else {
        let a = av.last();
        assert(out == before.push(Step { num: a.3, den: a.4 }));
        av.len() - 1
    }
}

/// An announcement for another instrument changes nothing read for this
/// one.
pub proof fn law_another_instruments_split_is_not_read_through(av: Seq<(Seq<char>, Seq<char>, Seq<char>, i64, i64)>,
    rw: Seq<Seq<char>>, inst: Seq<char>, day: Seq<char>, a: (Seq<char>, Seq<char>, Seq<char>, i64, i64))
    requires
        a.0 != inst,
    ensures
        steps_spec(av.push(a), rw, inst, day) == steps_spec(av, rw, inst, day),
{
    assert(av.push(a).drop_last() =~= av);
}

} // verus!
