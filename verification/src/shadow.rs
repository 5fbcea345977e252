//! Replaying a covered period and comparing it with what was reported.
//!
//! Covered events compile into journal entries under one configuration; the
//! entries fold into a net balance per dimension; the balances are compared
//! with the reported positions, and every difference becomes a break, largest
//! first. A zero balance the report omits is not a break: no position and a
//! position of zero are the same statement.

use vstd::prelude::*;
use crate::chart::{PostingRecord, PostingView, postings_view, posted_net};
use crate::checked::fits;
use crate::chart::{Account, account_at, find_account};
use crate::recon::{Break, BreakReport, Cause, ExceptionView, Scope, TypeHandling, Txn, cover, cover_result, exceptions_view, magnitudes_fit};
use crate::text::{decimal, digits, push_decimal, push_digits};
use crate::compile::{compile, compile_result, compile_computable, units_negatable};
use crate::config::{Reason, Rejection, Rejected};
use crate::rules::{Event, EventView, Rule, RuleSet, first_rule};
use crate::recon::events_view;

verus! {

/// A corporate action announced by an entry: a split of one instrument from
/// its ex-date, `numerator` new units for every `denominator` held.
#[derive(Clone, Debug, PartialEq, Eq)]
pub struct Announcement {
    pub id: String,
    pub instrument: String,
    pub ex_date: String,
    pub numerator: i64,
    pub denominator: i64,
}

/// An announcement as a value.
pub struct AnnouncementView {
    pub id: Seq<char>,
    pub instrument: Seq<char>,
    pub ex_date: Seq<char>,
    pub numerator: i64,
    pub denominator: i64,
}

impl vstd::view::View for Announcement {
    type V = AnnouncementView;

    open spec fn view(&self) -> AnnouncementView {
        AnnouncementView {
            id: self.id@,
            instrument: self.instrument@,
            ex_date: self.ex_date@,
            numerator: self.numerator,
            denominator: self.denominator,
        }
    }
}

/// One journal entry: what one event compiled to, under one configuration.
#[derive(Clone, Debug, PartialEq, Eq)]
pub struct JournalEntry {
    pub id: String,
    pub memo: String,
    /// The digest of the configuration the postings came from.
    pub config: String,
    pub postings: Vec<PostingRecord>,
    /// The day the trade was struck, as `YYYY-MM-DD`, where the record has one.
    pub trade_date: Option<String>,
    /// A corporate action this entry announces.
    pub announcement: Option<Announcement>,
    /// The lots a sale names for specific identification, by sequence.
    pub identified_lots: Option<Vec<u64>>,
}

/// An entry as a value.
pub struct EntryView {
    pub id: Seq<char>,
    pub memo: Seq<char>,
    pub config: Seq<char>,
    pub postings: Seq<PostingView>,
    pub trade_date: Option<Seq<char>>,
    pub announcement: Option<AnnouncementView>,
    pub identified_lots: Option<Seq<u64>>,
}

impl vstd::view::View for JournalEntry {
    type V = EntryView;

    open spec fn view(&self) -> EntryView {
        EntryView {
            id: self.id@,
            memo: self.memo@,
            config: self.config@,
            postings: postings_view(self.postings@),
            trade_date: match self.trade_date { Some(d) => Some(d@), None => None },
            announcement: match self.announcement { Some(a) => Some(a@), None => None },
            identified_lots: match self.identified_lots { Some(v) => Some(v@), None => None },
        }
    }
}

/// Entries, each taken as a value.
pub open spec fn entries_view(s: Seq<JournalEntry>) -> Seq<EntryView> {
    s.map_values(|e: JournalEntry| e@)
}

/// The rule a configuration applies under a name: the first with that id.
pub open spec fn rule_named(set: RuleSet, name: Seq<char>) -> Option<Rule> {
    match first_rule(set.rules@, name) {
        Some(i) => Some(set.rules@[i]),
        None => None,
    }
}

/// Whether every event's rule, where the configuration has it, can be applied
/// to the event in 64 bits.
pub open spec fn replayable(events: Seq<EventView>, set: RuleSet) -> bool {
    forall|i: int| 0 <= i < events.len() ==> match rule_named(set, (#[trigger] events[i]).rule) {
        Some(r) => compile_computable(r, events[i]) && units_negatable(r, events[i]),
        None => true,
    }
}

/// The entry one event becomes, or why not: its rule missing, or its
/// compilation refused.
pub open spec fn entry_of(e: EventView, set: RuleSet, config: Seq<char>) -> Result<EntryView, Rejected> {
    match rule_named(set, e.rule) {
        None => Err((Reason::RuleMissing,
            "no rule `"@ + e.rule + "` — coverage should have refused this event before it was replayed"@)),
        Some(r) => match compile_result(r, e) {
            Err(x) => Err((x.0, "compiling "@ + e.id + ": "@ + x.1)),
            Ok(ps) => Ok(EntryView { id: e.id, memo: e.memo, config, postings: ps,
                trade_date: None, announcement: None, identified_lots: None }),
        },
    }
}

/// Events replayed in order: every entry, or the first refusal.
pub open spec fn replay_result(events: Seq<EventView>, set: RuleSet, config: Seq<char>) -> Result<Seq<EntryView>, Rejected>
    decreases events.len(),
{
    if events.len() == 0 {
        Ok(Seq::empty())
    } else {
        match replay_result(events.drop_last(), set, config) {
            Err(x) => Err(x),
            Ok(prev) => match entry_of(events.last(), set, config) {
                Err(x) => Err(x),
                Ok(en) => Ok(prev.push(en)),
            },
        }
    }
}

/// Turn covered events into journal entries under one configuration.
pub fn replay(events: &[Event], set: &RuleSet, config: &str) -> (r: Result<Vec<JournalEntry>, Rejection>)
    requires
        replayable(events_view(events@), *set),
    ensures
        match r {
            Ok(es) => replay_result(events_view(events@), *set, config@) == Ok::<Seq<EntryView>, Rejected>(entries_view(es@)),
            Err(e) => replay_result(events_view(events@), *set, config@) == Err::<Seq<EntryView>, Rejected>((e.reason, e.text@)),
        },
{
    let ghost evs = events_view(events@);
    proof { lemma_events_view_index(events@); }
    let mut out: Vec<JournalEntry> = Vec::new();
    let mut i: usize = 0;
    proof {
        assert(evs.take(0) =~= Seq::<EventView>::empty());
        assert(entries_view(out@) =~= Seq::<EntryView>::empty());
    }
    while i < events.len()
        invariant
            0 <= i <= events@.len(),
            evs == events_view(events@),
            evs.len() == events@.len(),
            forall|k: int| 0 <= k < events@.len() ==> #[trigger] evs[k] == events@[k]@,
            replayable(evs, *set),
            replay_result(evs.take(i as int), *set, config@) == Ok::<Seq<EntryView>, Rejected>(entries_view(out@)),
        decreases events@.len() - i,
    {
        let e = &events[i];
        proof {
            assert(evs.take(i + 1).drop_last() =~= evs.take(i as int));
            assert(evs.take(i + 1).last() == evs[i as int]);
            assert(evs[i as int] == e@);
        }
        let rule = match set.rule(e.rule.as_str()) {
            Some(r) => r,
            None => {
                let mut s = String::from_str("no rule `");
                s.append(e.rule.as_str());
                s.append("` — coverage should have refused this event before it was replayed");
                proof {
                    assert(s@ =~= "no rule `"@ + e.rule@ + "` — coverage should have refused this event before it was replayed"@);
                    lemma_replay_stops(evs, *set, config@, i as int);
                }
                return Err(Rejection { reason: Reason::RuleMissing, text: s });
            },
        };
        assert(rule_named(*set, e.rule@) == Some(*rule));
        let ps = match compile(rule, e) {
            Ok(ps) => ps,
            Err(x) => {
                let mut s = String::from_str("compiling ");
                s.append(e.id.as_str());
                s.append(": ");
                s.append(x.text.as_str());
                proof {
                    assert(s@ =~= "compiling "@ + e.id@ + ": "@ + x.text@);
                    lemma_replay_stops(evs, *set, config@, i as int);
                }
                return Err(Rejection { reason: x.reason, text: s });
            },
        };
        let entry = JournalEntry {
            id: e.id.clone(),
            memo: e.memo.clone(),
            config: String::from_str(config),
            postings: ps,
            trade_date: None,
            announcement: None,
            identified_lots: None,
        };
        let ghost before = out@;
        out.push(entry);
        proof {
            assert(entries_view(out@) =~= entries_view(before).push(entry@));
        }
        i = i + 1;
    }
    proof {
        assert(evs.take(evs.len() as int) =~= evs);
    }
    Ok(out)
}

/// The value of a run of events is each event's value.
proof fn lemma_events_view_index(s: Seq<Event>)
    ensures
        events_view(s).len() == s.len(),
        forall|k: int| 0 <= k < s.len() ==> #[trigger] events_view(s)[k] == s[k]@,
    decreases s.len(),
{
    if s.len() > 0 {
        lemma_events_view_index(s.drop_last());
        assert forall|k: int| 0 <= k < s.len() implies #[trigger] events_view(s)[k] == s[k]@ by {
            if k < s.len() - 1 {
                assert(s.drop_last()[k] == s[k]);
            }
        }
    }
}

/// Once an event is refused, so is every longer run of events.
proof fn lemma_replay_stops(events: Seq<EventView>, set: RuleSet, config: Seq<char>, i: int)
    requires
        0 <= i < events.len(),
        replay_result(events.take(i), set, config) is Ok,
        entry_of(events[i], set, config) is Err,
    ensures
        replay_result(events, set, config) == Err::<Seq<EntryView>, Rejected>(entry_of(events[i], set, config)->Err_0),
    decreases events.len() - i,
{
    assert(events.take(i + 1).drop_last() =~= events.take(i));
    assert(events.take(i + 1).last() == events[i]);
    lemma_replay_refused_from(events, set, config, i + 1, entry_of(events[i], set, config)->Err_0);
}

/// A refusal in a prefix is the refusal of the whole run.
proof fn lemma_replay_refused_from(events: Seq<EventView>, set: RuleSet, config: Seq<char>, k: int, x: Rejected)
    requires
        0 <= k <= events.len(),
        replay_result(events.take(k), set, config) == Err::<Seq<EntryView>, Rejected>(x),
    ensures
        replay_result(events, set, config) == Err::<Seq<EntryView>, Rejected>(x),
    decreases events.len() - k,
{
    if k == events.len() {
        assert(events.take(k) =~= events);
    } else {
        assert(events.take(k + 1).drop_last() =~= events.take(k));
        lemma_replay_refused_from(events, set, config, k + 1, x);
    }
}

// ------------------------------------------------------------------ balances

/// Every posting of a run of entries, in order.
pub open spec fn all_postings(es: Seq<EntryView>) -> Seq<PostingView>
    decreases es.len(),
{
    if es.len() == 0 {
        Seq::empty()
    } else {
        all_postings(es.drop_last()) + es.last().postings
    }
}

/// The net of the postings on one dimension.
pub open spec fn dim_net(ps: Seq<PostingView>, d: i64) -> int
    decreases ps.len(),
{
    if ps.len() == 0 {
        0
    } else {
        dim_net(ps.drop_last(), d) + (if ps.last().dim == d { ps.last().amount as int } else { 0 })
    }
}

/// Whether any posting is on a dimension.
pub open spec fn posts_to(ps: Seq<PostingView>, d: i64) -> bool {
    exists|i: int| 0 <= i < ps.len() && ps[i].dim == d
}

/// Whether every running net of every dimension fits in 64 bits.
pub open spec fn nets_fit(ps: Seq<PostingView>) -> bool {
    forall|k: int, d: i64| 0 <= k <= ps.len() ==> fits(#[trigger] dim_net(ps.take(k), d))
}

/// Rows whose keys strictly ascend.
pub open spec fn keyed(s: Seq<(i64, i64)>) -> bool {
    forall|i: int, j: int| 0 <= i < j < s.len() ==> s[i].0 < s[j].0
}

/// The net balance per dimension of a run of postings: one row for each
/// dimension posted to, in dimension order, holding that dimension's net.
pub open spec fn is_balances_of(b: Seq<(i64, i64)>, ps: Seq<PostingView>) -> bool {
    &&& keyed(b)
    &&& forall|i: int| 0 <= i < b.len() ==> posts_to(ps, (#[trigger] b[i]).0) && b[i].1 == dim_net(ps, b[i].0)
    &&& forall|d: i64| #[trigger] posts_to(ps, d) ==> exists|i: int| 0 <= i < b.len() && (#[trigger] b[i]).0 == d
}

/// A dimension nothing posts to nets to nothing.
proof fn lemma_unposted_nets_zero(ps: Seq<PostingView>, d: i64)
    requires
        !posts_to(ps, d),
    ensures
        dim_net(ps, d) == 0,
    decreases ps.len(),
{
    if ps.len() > 0 {
        let q = ps.drop_last();
        assert forall|i: int| 0 <= i < q.len() implies q[i].dim != d by {
            assert(q[i] == ps[i]);
        }
        lemma_unposted_nets_zero(q, d);
        assert(ps.last() == ps[ps.len() - 1]);
    }
}

/// One more posting moves its own dimension's net by its amount, and no other.
proof fn lemma_push_posting(ps: Seq<PostingView>, p: PostingView)
    ensures
        forall|d: i64| #[trigger] dim_net(ps.push(p), d) == dim_net(ps, d) + (if p.dim == d { p.amount as int } else { 0 }),
        forall|d: i64| #[trigger] posts_to(ps.push(p), d) <==> (posts_to(ps, d) || p.dim == d),
{
    let q = ps.push(p);
    assert(q.drop_last() =~= ps);
    assert forall|d: i64| #[trigger] posts_to(q, d) <==> (posts_to(ps, d) || p.dim == d) by {
        if posts_to(ps, d) {
            let i = choose|i: int| 0 <= i < ps.len() && ps[i].dim == d;
            assert(q[i] == ps[i]);
        }
        if p.dim == d {
            assert(q[q.len() - 1] == p);
        }
        if posts_to(q, d) && p.dim != d {
            let i = choose|i: int| 0 <= i < q.len() && q[i].dim == d;
            assert(i < ps.len());
            assert(q[i] == ps[i]);
        }
    }
}

/// Add one posting into a balance list.
fn add_posting(out: &mut Vec<(i64, i64)>, p: &PostingRecord, Ghost(ps): Ghost<Seq<PostingView>>)
    requires
        is_balances_of(old(out)@, ps),
        fits(dim_net(ps.push(p@), p.dim)),
    ensures
        is_balances_of(final(out)@, ps.push(p@)),
{
    proof { lemma_push_posting(ps, p@); }
    let ghost q = ps.push(p@);
    let mut k: usize = 0;
    while k < out.len() && out[k].0 < p.dim
        invariant
            0 <= k <= out@.len(),
            forall|j: int| 0 <= j < k ==> out@[j].0 < p.dim,
        decreases out@.len() - k,
    {
        k = k + 1;
    }
    let ghost before = out@;
    if k < out.len() && out[k].0 == p.dim {
        let v = out[k].1;
        assert(dim_net(q, p.dim) == v + p.amount);
        out.set(k, (p.dim, v + p.amount));
        assert forall|i: int| 0 <= i < out@.len() implies posts_to(q, (#[trigger] out@[i]).0) && out@[i].1 == dim_net(q, out@[i].0) by {
            assert(posts_to(ps, before[i].0));
        }
        assert forall|d: i64| #[trigger] posts_to(q, d) implies exists|i: int| 0 <= i < out@.len() && (#[trigger] out@[i]).0 == d by {
            if d == p.dim {
                assert(out@[k as int].0 == d);
            } else {
                assert(posts_to(ps, d));
                let i = choose|i: int| 0 <= i < before.len() && (#[trigger] before[i]).0 == d;
                assert(out@[i].0 == d);
            }
        }
    } else {
        assert(!posts_to(ps, p.dim)) by {
            if posts_to(ps, p.dim) {
                let i = choose|i: int| 0 <= i < before.len() && (#[trigger] before[i]).0 == p.dim;
                if i < k {
                } else {
                    assert(before[k as int].0 <= before[i].0);
                }
            }
        }
        proof { lemma_unposted_nets_zero(ps, p.dim); }
        out.insert(k, (p.dim, p.amount));
        assert(out@ == before.insert(k as int, (p.dim, p.amount)));
        assert forall|i: int, j: int| 0 <= i < j < out@.len() implies out@[i].0 < out@[j].0 by {
            if i < k && j > k {
                assert(out@[j] == before[j - 1]);
                if j - 1 > k as int {
                    assert(before[k as int].0 < before[j - 1].0);
                }
            } else if i == k && j > k {
                assert(out@[j] == before[j - 1]);
                assert(before[j - 1].0 >= p.dim);
                assert(before[j - 1].0 != p.dim) by {
                    if j - 1 > k as int {
                        assert(before[k as int].0 < before[j - 1].0);
                    }
                }
            } else if i > k {
                assert(out@[i] == before[i - 1]);
                assert(out@[j] == before[j - 1]);
            }
        }
        assert forall|i: int| 0 <= i < out@.len() implies posts_to(q, (#[trigger] out@[i]).0) && out@[i].1 == dim_net(q, out@[i].0) by {
            if i < k {
                assert(out@[i] == before[i]);
                assert(posts_to(ps, before[i].0));
            } else if i > k {
                assert(out@[i] == before[i - 1]);
                assert(posts_to(ps, before[i - 1].0));
            }
        }
        assert forall|d: i64| #[trigger] posts_to(q, d) implies exists|i: int| 0 <= i < out@.len() && (#[trigger] out@[i]).0 == d by {
            if d == p.dim {
                assert(out@[k as int].0 == d);
            } else {
                assert(posts_to(ps, d));
                let i = choose|i: int| 0 <= i < before.len() && (#[trigger] before[i]).0 == d;
                if i < k {
                    assert(out@[i] == before[i]);
                } else {
                    assert(out@[i + 1] == before[i]);
                }
            }
        }
    }
}

/// The postings of a shorter run of entries begin the postings of a longer one.
proof fn lemma_postings_prefix(es: Seq<EntryView>, i: int, n: int)
    requires
        0 <= i <= n <= es.len(),
    ensures
        all_postings(es.take(i)).len() <= all_postings(es.take(n)).len(),
        all_postings(es.take(n)).take(all_postings(es.take(i)).len() as int) == all_postings(es.take(i)),
    decreases n - i,
{
    if n > i {
        lemma_postings_prefix(es, i, n - 1);
        assert(es.take(n).drop_last() =~= es.take(n - 1));
        let a = all_postings(es.take(i));
        let b = all_postings(es.take(n - 1));
        assert(all_postings(es.take(n)) == b + es.take(n).last().postings);
        assert((b + es.take(n).last().postings).take(a.len() as int) =~= b.take(a.len() as int));
    } else {
        assert(all_postings(es.take(n)).take(all_postings(es.take(i)).len() as int) =~= all_postings(es.take(i)));
    }
}

/// The net balance per dimension across entries, in dimension order.
pub fn balances(entries: &[JournalEntry]) -> (r: Vec<(i64, i64)>)
    requires
        nets_fit(all_postings(entries_view(entries@))),
    ensures
        is_balances_of(r@, all_postings(entries_view(entries@))),
{
    let ghost ev = entries_view(entries@);
    let mut out: Vec<(i64, i64)> = Vec::new();
    let mut i: usize = 0;
    proof {
        assert(ev.take(0) =~= Seq::<EntryView>::empty());
        assert forall|d: i64| #[trigger] posts_to(all_postings(ev.take(0)), d) implies false by {}
    }
    while i < entries.len()
        invariant
            0 <= i <= entries@.len(),
            ev == entries_view(entries@),
            nets_fit(all_postings(ev)),
            is_balances_of(out@, all_postings(ev.take(i as int))),
        decreases entries@.len() - i,
    {
        let ghost base = all_postings(ev.take(i as int));
        let ps = &entries[i].postings;
        assert(ev[i as int].postings == postings_view(ps@));
        proof {
            assert(ev.take(i + 1).drop_last() =~= ev.take(i as int));
            assert(all_postings(ev.take(i + 1)) == base + ev[i as int].postings);
            lemma_postings_prefix(ev, i + 1, ev.len() as int);
            assert(ev.take(ev.len() as int) =~= ev);
        }
        let mut j: usize = 0;
        proof {
            assert(base + postings_view(ps@).take(0) =~= base);
        }
        while j < ps.len()
            invariant
                0 <= j <= ps@.len(),
                ev == entries_view(entries@),
                nets_fit(all_postings(ev)),
                ps@ == entries@[i as int].postings@,
                0 <= i < entries@.len(),
                base == all_postings(ev.take(i as int)),
                all_postings(ev.take(i + 1)) == base + postings_view(ps@),
                all_postings(ev.take(i + 1)).len() <= all_postings(ev).len(),
                all_postings(ev).take(all_postings(ev.take(i + 1)).len() as int) == all_postings(ev.take(i + 1)),
                is_balances_of(out@, base + postings_view(ps@).take(j as int)),
            decreases ps@.len() - j,
        {
            let ghost cur = base + postings_view(ps@).take(j as int);
            let ghost next = base + postings_view(ps@).take(j + 1);
            proof {
                assert(next =~= cur.push(ps@[j as int]@));
                let k = base.len() + j + 1;
                assert(all_postings(ev).take(k) =~= next) by {
                    assert(all_postings(ev).take(all_postings(ev.take(i + 1)).len() as int) == base + postings_view(ps@));
                    assert((base + postings_view(ps@)).take(k) =~= next);
                }
                assert(fits(dim_net(all_postings(ev).take(k), ps@[j as int].dim)));
            }
            add_posting(&mut out, &ps[j], Ghost(cur));
            j = j + 1;
        }
        proof {
            assert(postings_view(ps@).take(ps@.len() as int) =~= postings_view(ps@));
        }
        i = i + 1;
    }
    proof {
        assert(ev.take(entries@.len() as int) =~= ev);
    }
    out
}

// ------------------------------------------------------------------- compare

/// A balance list's value for a dimension, if it has a row for it.
pub open spec fn row_of(s: Seq<(i64, i64)>, d: i64) -> Option<i64>
    decreases s.len(),
{
    if s.len() == 0 {
        None
    } else if s.last().0 == d {
        Some(s.last().1)
    } else {
        row_of(s.drop_last(), d)
    }
}

/// In a keyed list, a dimension's row is the one with its key, and a
/// dimension with no such key has none.
proof fn lemma_row_of(s: Seq<(i64, i64)>, d: i64)
    requires
        keyed(s),
    ensures
        forall|i: int| 0 <= i < s.len() && s[i].0 == d ==> row_of(s, d) == Some(s[i].1),
        row_of(s, d) is None <==> forall|i: int| 0 <= i < s.len() ==> s[i].0 != d,
    decreases s.len(),
{
    if s.len() > 0 {
        let t = s.drop_last();
        assert(keyed(t)) by {
            assert forall|i: int, j: int| 0 <= i < j < t.len() implies t[i].0 < t[j].0 by {
                assert(t[i] == s[i] && t[j] == s[j]);
            }
        }
        lemma_row_of(t, d);
        assert forall|i: int| 0 <= i < t.len() implies t[i] == s[i] by {}
        assert(s.last() == s[s.len() - 1]);
    }
}

/// A value taken as a magnitude.
pub open spec fn magnitude(x: int) -> int {
    if x < 0 { -x } else { x }
}

/// What a chart calls a dimension: its account's name, or the bare number.
pub open spec fn dim_name(chart: Seq<Account>, d: i64) -> Seq<char> {
    match account_at(chart, d) {
        Some(i) => chart[i].display_name@,
        None => "dim "@ + decimal(d as int),
    }
}

/// How many postings are on a dimension.
pub open spec fn postings_on(ps: Seq<PostingView>, d: i64) -> nat
    decreases ps.len(),
{
    if ps.len() == 0 {
        0
    } else {
        postings_on(ps.drop_last(), d) + (if ps.last().dim == d { 1nat } else { 0nat })
    }
}

/// Where a break says to look: how many postings produced the figure.
pub open spec fn basis_words(n: nat) -> Seq<char> {
    digits(n) + " posting(s) under this configuration"@
}

/// A break as a value.
pub struct BreakView {
    pub account: i64,
    pub display_name: Seq<char>,
    pub ratio_amount: i64,
    pub reported_amount: i64,
    pub difference: i64,
    pub cause: Cause,
    pub ratio_basis: Seq<char>,
}

impl vstd::view::View for Break {
    type V = BreakView;

    open spec fn view(&self) -> BreakView {
        BreakView {
            account: self.account,
            display_name: self.display_name@,
            ratio_amount: self.ratio_amount,
            reported_amount: self.reported_amount,
            difference: self.difference,
            cause: self.cause,
            ratio_basis: self.ratio_basis@,
        }
    }
}

/// The break on a dimension from two figures and its cause.
pub open spec fn break_row(chart: Seq<Account>, ps: Seq<PostingView>, d: i64, ours: i64, theirs: i64, cause: Cause) -> BreakView {
    BreakView {
        account: d,
        display_name: dim_name(chart, d),
        ratio_amount: ours,
        reported_amount: theirs,
        difference: (ours - theirs) as i64,
        cause,
        ratio_basis: basis_words(postings_on(ps, d)),
    }
}

/// The break a dimension shows from its two figures, if any. A figure only
/// one side has is a break unless it is zero: no position and a position of
/// zero agree.
pub open spec fn break_of(chart: Seq<Account>, ps: Seq<PostingView>, d: i64, ours: Option<i64>, theirs: Option<i64>) -> Option<BreakView> {
    match (ours, theirs) {
        (Some(r), Some(p)) => if r == p { None } else { Some(break_row(chart, ps, d, r, p, Cause::AmountDiffers)) },
        (Some(r), None) => if r == 0 { None } else { Some(break_row(chart, ps, d, r, 0, Cause::AbsentFromReport)) },
        (None, Some(p)) => if p == 0 { None } else { Some(break_row(chart, ps, d, 0, p, Cause::AbsentFromRatio)) },
        (None, None) => None,
    }
}

/// The break a dimension shows between two balance lists, if any.
pub open spec fn break_on(ratio: Seq<(i64, i64)>, reported: Seq<(i64, i64)>, chart: Seq<Account>, ps: Seq<PostingView>, d: i64) -> Option<BreakView> {
    break_of(chart, ps, d, row_of(ratio, d), row_of(reported, d))
}

/// Whether one break is argued about before another: the larger difference
/// first, and the lower account between equal ones.
pub open spec fn argued_first(a: BreakView, b: BreakView) -> bool {
    magnitude(a.difference as int) > magnitude(b.difference as int)
        || (magnitude(a.difference as int) == magnitude(b.difference as int) && a.account < b.account)
}

/// The difference on a dimension, a missing figure taken as zero.
pub open spec fn gap(ratio: Seq<(i64, i64)>, reported: Seq<(i64, i64)>, d: i64) -> int {
    (match row_of(ratio, d) { Some(v) => v as int, None => 0 }) - (match row_of(reported, d) { Some(v) => v as int, None => 0 })
}

/// Whether every difference, and its magnitude, fits in 64 bits.
pub open spec fn gaps_fit(ratio: Seq<(i64, i64)>, reported: Seq<(i64, i64)>) -> bool {
    &&& forall|i: int| 0 <= i < ratio.len() ==> i64::MIN < gap(ratio, reported, (#[trigger] ratio[i]).0) <= i64::MAX
    &&& forall|i: int| 0 <= i < reported.len() ==> i64::MIN < gap(ratio, reported, (#[trigger] reported[i]).0) <= i64::MAX
}

/// Breaks in the order they are argued about.
pub open spec fn ranked(bs: Seq<Break>) -> bool {
    forall|i: int, j: int| 0 <= i < j < bs.len() ==> argued_first(bs[i]@, bs[j]@)
}

/// A list's value for a dimension.
fn row_in(s: &[(i64, i64)], d: i64) -> (r: Option<i64>)
    ensures
        r == row_of(s@, d),
{
    let mut k: usize = s.len();
    assert(s@.take(k as int) =~= s@);
    while k > 0
        invariant
            0 <= k <= s@.len(),
            row_of(s@, d) == row_of(s@.take(k as int), d),
        decreases k,
    {
        let ghost t = s@.take(k as int);
        assert(t.drop_last() =~= s@.take(k - 1));
        if s[k - 1].0 == d {
            return Some(s[k - 1].1);
        }
        k = k - 1;
    }
    None
}

/// How many postings across entries are on a dimension.
fn count_postings(entries: &[JournalEntry], d: i64) -> (c: u128)
    ensures
        c == postings_on(all_postings(entries_view(entries@)), d),
{
    let ghost ev = entries_view(entries@);
    let mut c: u128 = 0;
    let mut i: usize = 0;
    proof {
        assert(ev.take(0) =~= Seq::<EntryView>::empty());
    }
    while i < entries.len()
        invariant
            0 <= i <= entries@.len(),
            ev == entries_view(entries@),
            c == postings_on(all_postings(ev.take(i as int)), d),
            all_postings(ev.take(i as int)).len() <= i * (usize::MAX as int),
        decreases entries@.len() - i,
    {
        let ghost base = all_postings(ev.take(i as int));
        let ps = &entries[i].postings;
        proof {
            assert(ev.take(i + 1).drop_last() =~= ev.take(i as int));
            assert(all_postings(ev.take(i + 1)) == base + postings_view(ps@));
            lemma_postings_on_bounded(base, d);
            assert(base + postings_view(ps@).take(0) =~= base);
        }
        let mut j: usize = 0;
        while j < ps.len()
            invariant
                0 <= j <= ps@.len(),
                0 <= i < entries@.len(),
                ps@ == entries@[i as int].postings@,
                c == postings_on(base + postings_view(ps@).take(j as int), d),
                c <= base.len() + j,
                base.len() <= i * (usize::MAX as int),
                i < usize::MAX,
            decreases ps@.len() - j,
        {
            let ghost cur = base + postings_view(ps@).take(j as int);
            proof {
                assert((base + postings_view(ps@).take(j + 1)).drop_last() =~= cur);
                assert(c + 1 < 0x1_0000_0000_0000_0000_0000_0000_0000_0000) by (nonlinear_arith)
                    requires
                        c <= base.len() + j,
                        base.len() <= i * (usize::MAX as int),
                        i < usize::MAX,
                        j < usize::MAX,
                        usize::MAX <= 0xffff_ffff_ffff_ffff,
                ;
            }
            if ps[j].dim == d {
                c = c + 1;
            }
            j = j + 1;
        }
        proof {
            assert(postings_view(ps@).take(ps@.len() as int) =~= postings_view(ps@));
            assert(base.len() + ps@.len() <= (i + 1) * (usize::MAX as int)) by (nonlinear_arith)
                requires
                    base.len() <= i * (usize::MAX as int),
                    ps@.len() <= usize::MAX,
            ;
        }
        i = i + 1;
    }
    proof {
        assert(ev.take(entries@.len() as int) =~= ev);
    }
    c
}

/// A dimension can have no more postings than there are.
proof fn lemma_postings_on_bounded(ps: Seq<PostingView>, d: i64)
    ensures
        postings_on(ps, d) <= ps.len(),
    decreases ps.len(),
{
    if ps.len() > 0 {
        lemma_postings_on_bounded(ps.drop_last(), d);
    }
}

/// What a chart calls a dimension.
fn name_dim(chart: &[Account], d: i64) -> (r: String)
    ensures
        r@ == dim_name(chart@, d),
{
    match find_account(chart, d) {
        Some(i) => chart[i].display_name.clone(),
        None => {
            let mut s = String::from_str("dim ");
            push_decimal(&mut s, d as i128);
            s
        },
    }
}

/// The break on a dimension from two figures and its cause.
fn make_break(chart: &[Account], entries: &[JournalEntry], d: i64, ours: i64, theirs: i64, cause: Cause) -> (b: Break)
    requires
        i64::MIN < ours - theirs <= i64::MAX,
    ensures
        b@ == break_row(chart@, all_postings(entries_view(entries@)), d, ours, theirs, cause),
{
    let n = count_postings(entries, d);
    let mut basis = String::new();
    push_digits(&mut basis, n);
    basis.append(" posting(s) under this configuration");
    Break {
        account: d,
        display_name: name_dim(chart, d),
        ratio_amount: ours,
        reported_amount: theirs,
        difference: ours - theirs,
        cause,
        ratio_basis: basis,
    }
}

/// Whether `a` is argued about before `b`.
fn argued_before(a: &Break, b: &Break) -> (r: bool)
    requires
        a.difference != i64::MIN,
        b.difference != i64::MIN,
    ensures
        r == argued_first(a@, b@),
{
    let x: i64 = if a.difference < 0 { -a.difference } else { a.difference };
    let y: i64 = if b.difference < 0 { -b.difference } else { b.difference };
    x > y || (x == y && a.account < b.account)
}

/// Put a break where it is argued about, among breaks on other accounts.
fn insert_break(out: &mut Vec<Break>, b: Break) -> (p: usize)
    requires
        ranked(old(out)@),
        b.difference != i64::MIN,
        forall|i: int| 0 <= i < old(out)@.len() ==> (#[trigger] old(out)@[i]).difference != i64::MIN
            && old(out)@[i].account != b.account,
    ensures
        p <= old(out)@.len(),
        final(out)@ == old(out)@.insert(p as int, b),
        ranked(final(out)@),
{
    let mut p: usize = 0;
    while p < out.len() && !argued_before(&b, &out[p])
        invariant
            0 <= p <= out@.len(),
            b.difference != i64::MIN,
            forall|i: int| 0 <= i < out@.len() ==> (#[trigger] out@[i]).difference != i64::MIN,
            forall|i: int| 0 <= i < p ==> !argued_first(b@, (#[trigger] out@[i])@),
        decreases out@.len() - p,
    {
        p = p + 1;
    }
    let ghost before = out@;
    out.insert(p, b);
    proof {
        assert(out@ == before.insert(p as int, b));
        assert forall|i: int, j: int| 0 <= i < j < out@.len() implies argued_first(out@[i]@, out@[j]@) by {
            if j < p {
                assert(out@[i] == before[i] && out@[j] == before[j]);
            } else if j == p {
                assert(out@[i] == before[i]);
                assert(!argued_first(b@, before[i]@));
                assert(before[i].account != b.account);
            } else if i == p {
                assert(out@[j] == before[j - 1]);
                if j - 1 > p as int {
                    assert(argued_first(before[p as int]@, before[j - 1]@));
                }
            } else if i < p {
                assert(out@[i] == before[i] && out@[j] == before[j - 1]);
            } else {
                assert(out@[i] == before[i - 1] && out@[j] == before[j - 1]);
            }
        }
    }
    p
}

/// Compare balances with reported positions: every break, largest
/// difference first and the lower account between equal ones.
#[verifier::rlimit(60)]
pub fn compare(ratio: &[(i64, i64)], reported: &[(i64, i64)], chart: &[Account], entries: &[JournalEntry]) -> (r: Vec<Break>)
    requires
        keyed(ratio@),
        keyed(reported@),
        gaps_fit(ratio@, reported@),
    ensures
        ranked(r@),
        forall|i: int| 0 <= i < r@.len() ==>
            break_on(ratio@, reported@, chart@, all_postings(entries_view(entries@)), (#[trigger] r@[i]).account) == Some(r@[i]@),
        forall|d: i64| (#[trigger] break_on(ratio@, reported@, chart@, all_postings(entries_view(entries@)), d)) is Some ==>
            exists|i: int| 0 <= i < r@.len() && (#[trigger] r@[i]).account == d,
{
    let ghost ps = all_postings(entries_view(entries@));
    let mut out: Vec<Break> = Vec::new();
    let mut i: usize = 0;
    while i < ratio.len()
        invariant
            0 <= i <= ratio@.len(),
            keyed(ratio@),
            keyed(reported@),
            gaps_fit(ratio@, reported@),
            ps == all_postings(entries_view(entries@)),
            ranked(out@),
            forall|k: int| 0 <= k < out@.len() ==> (#[trigger] out@[k]).difference != i64::MIN
                && break_on(ratio@, reported@, chart@, ps, out@[k].account) == Some(out@[k]@)
                && exists|q: int| 0 <= q < i && ratio@[q].0 == out@[k].account,
            forall|q: int| 0 <= q < i && (#[trigger] break_on(ratio@, reported@, chart@, ps, ratio@[q].0)) is Some ==>
                exists|k: int| 0 <= k < out@.len() && (#[trigger] out@[k]).account == ratio@[q].0,
        decreases ratio@.len() - i,
    {
        let (d, ours) = ratio[i];
        proof {
            lemma_row_of(ratio@, d);
            assert(row_of(ratio@, d) == Some(ours));
        }
        let theirs = row_in(reported, d);
        let made: Option<Break> = match theirs {
            Some(p) => if ours == p { None } else { Some(make_break(chart, entries, d, ours, p, Cause::AmountDiffers)) },
            None => if ours == 0 { None } else { Some(make_break(chart, entries, d, ours, 0, Cause::AbsentFromReport)) },
        };
        assert(made matches Some(b) ==> break_on(ratio@, reported@, chart@, ps, d) == Some(b@));
        assert(made is None ==> break_on(ratio@, reported@, chart@, ps, d) is None);
        let ghost before = out@;
        match made {
            Some(b) => {
                assert forall|k: int| 0 <= k < out@.len() implies (#[trigger] out@[k]).account != b.account by {
                    let q = choose|q: int| 0 <= q < i && ratio@[q].0 == out@[k].account;
                    assert(ratio@[q].0 < ratio@[i as int].0);
                }
                let p = insert_break(&mut out, b);
                proof {
                    assert forall|k: int| 0 <= k < out@.len() implies (#[trigger] out@[k]).difference != i64::MIN
                        && break_on(ratio@, reported@, chart@, ps, out@[k].account) == Some(out@[k]@)
                        && exists|q: int| 0 <= q < i + 1 && ratio@[q].0 == out@[k].account by {
                        if k < p {
                            assert(out@[k] == before[k]);
                        } else if k > p {
                            assert(out@[k] == before[k - 1]);
                        } else {
                            assert(ratio@[i as int].0 == out@[k].account);
                        }
                    }
                    assert forall|q: int| 0 <= q < i + 1 && (#[trigger] break_on(ratio@, reported@, chart@, ps, ratio@[q].0)) is Some implies
                        exists|k: int| 0 <= k < out@.len() && (#[trigger] out@[k]).account == ratio@[q].0 by {
                        if q == i {
                            assert(out@[p as int].account == ratio@[q].0);
                        } else {
                            let k = choose|k: int| 0 <= k < before.len() && (#[trigger] before[k]).account == ratio@[q].0;
                            if k < p {
                                assert(out@[k] == before[k]);
                            } else {
                                assert(out@[k + 1] == before[k]);
                            }
                        }
                    }
                }
            },
            None => {},
        }
        i = i + 1;
    }
    let mut j: usize = 0;
    while j < reported.len()
        invariant
            0 <= j <= reported@.len(),
            keyed(ratio@),
            keyed(reported@),
            gaps_fit(ratio@, reported@),
            ps == all_postings(entries_view(entries@)),
            ranked(out@),
            forall|k: int| 0 <= k < out@.len() ==> (#[trigger] out@[k]).difference != i64::MIN
                && break_on(ratio@, reported@, chart@, ps, out@[k].account) == Some(out@[k]@)
                && ((exists|q: int| 0 <= q < ratio@.len() && ratio@[q].0 == out@[k].account)
                    || (exists|q: int| 0 <= q < j && reported@[q].0 == out@[k].account && row_of(ratio@, reported@[q].0) is None)),
            forall|q: int| 0 <= q < ratio@.len() && (#[trigger] break_on(ratio@, reported@, chart@, ps, ratio@[q].0)) is Some ==>
                exists|k: int| 0 <= k < out@.len() && (#[trigger] out@[k]).account == ratio@[q].0,
            forall|q: int| 0 <= q < j && (#[trigger] break_on(ratio@, reported@, chart@, ps, reported@[q].0)) is Some ==>
                exists|k: int| 0 <= k < out@.len() && (#[trigger] out@[k]).account == reported@[q].0,
        decreases reported@.len() - j,
    {
        let (d, theirs) = reported[j];
        proof {
            lemma_row_of(reported@, d);
            lemma_row_of(ratio@, d);
            assert(row_of(reported@, d) == Some(theirs));
        }
        let ours = row_in(ratio, d);
        let ghost before = out@;
        if ours.is_none() && theirs != 0 {
            let b = make_break(chart, entries, d, 0, theirs, Cause::AbsentFromRatio);
            assert(break_on(ratio@, reported@, chart@, ps, d) == Some(b@));
            assert forall|k: int| 0 <= k < out@.len() implies (#[trigger] out@[k]).account != b.account by {
                if exists|q: int| 0 <= q < ratio@.len() && ratio@[q].0 == out@[k].account {
                    let q = choose|q: int| 0 <= q < ratio@.len() && ratio@[q].0 == out@[k].account;
                    assert(ratio@[q].0 != d);
                } else {
                    let q = choose|q: int| 0 <= q < j && reported@[q].0 == out@[k].account && row_of(ratio@, reported@[q].0) is None;
                    assert(reported@[q].0 < reported@[j as int].0);
                }
            }
            let p = insert_break(&mut out, b);
            proof {
                assert forall|k: int| 0 <= k < out@.len() implies (#[trigger] out@[k]).difference != i64::MIN
                    && break_on(ratio@, reported@, chart@, ps, out@[k].account) == Some(out@[k]@)
                    && ((exists|q: int| 0 <= q < ratio@.len() && ratio@[q].0 == out@[k].account)
                        || (exists|q: int| 0 <= q < j + 1 && reported@[q].0 == out@[k].account && row_of(ratio@, reported@[q].0) is None)) by {
                    if k < p {
                        assert(out@[k] == before[k]);
                    } else if k > p {
                        assert(out@[k] == before[k - 1]);
                    } else {
                        assert(reported@[j as int].0 == out@[k].account);
                    }
                }
                assert forall|q: int| 0 <= q < ratio@.len() && (#[trigger] break_on(ratio@, reported@, chart@, ps, ratio@[q].0)) is Some implies
                    exists|k: int| 0 <= k < out@.len() && (#[trigger] out@[k]).account == ratio@[q].0 by {
                    let k = choose|k: int| 0 <= k < before.len() && (#[trigger] before[k]).account == ratio@[q].0;
                    if k < p {
                        assert(out@[k] == before[k]);
                    } else {
                        assert(out@[k + 1] == before[k]);
                    }
                }
                assert forall|q: int| 0 <= q < j + 1 && (#[trigger] break_on(ratio@, reported@, chart@, ps, reported@[q].0)) is Some implies
                    exists|k: int| 0 <= k < out@.len() && (#[trigger] out@[k]).account == reported@[q].0 by {
                    if q == j {
                        assert(out@[p as int].account == reported@[q].0);
                    } else {
                        let k = choose|k: int| 0 <= k < before.len() && (#[trigger] before[k]).account == reported@[q].0;
                        if k < p {
                            assert(out@[k] == before[k]);
                        } else {
                            assert(out@[k + 1] == before[k]);
                        }
                    }
                }
            }
        } else {
            proof {
                if ours.is_some() {
                    let q = choose|q: int| 0 <= q < ratio@.len() && ratio@[q].0 == d;
                    assert(break_on(ratio@, reported@, chart@, ps, ratio@[q].0) == break_on(ratio@, reported@, chart@, ps, d));
                }
            }
        }
        j = j + 1;
    }
    proof {
        assert forall|d: i64| (#[trigger] break_on(ratio@, reported@, chart@, ps, d)) is Some implies
            exists|i: int| 0 <= i < out@.len() && (#[trigger] out@[i]).account == d by {
            lemma_row_of(ratio@, d);
            lemma_row_of(reported@, d);
            if row_of(ratio@, d) is Some {
                let q = choose|q: int| 0 <= q < ratio@.len() && ratio@[q].0 == d;
                assert(break_on(ratio@, reported@, chart@, ps, ratio@[q].0) is Some);
            } else {
                let q = choose|q: int| 0 <= q < reported@.len() && reported@[q].0 == d;
                assert(break_on(ratio@, reported@, chart@, ps, reported@[q].0) is Some);
            }
        }
    }
    out
}

// ------------------------------------------------------------ what ties

/// The sum of a balance list's values.
pub open spec fn values_sum(b: Seq<(i64, i64)>) -> int
    decreases b.len(),
{
    if b.len() == 0 {
        0
    } else {
        values_sum(b.drop_last()) + b.last().1
    }
}

/// The dimensions of a balance list.
pub open spec fn keys_of(b: Seq<(i64, i64)>) -> Seq<i64> {
    b.map_values(|x: (i64, i64)| x.0)
}

/// The nets of a run of postings over a list of dimensions, added up.
pub open spec fn nets_over(keys: Seq<i64>, ps: Seq<PostingView>) -> int
    decreases keys.len(),
{
    if keys.len() == 0 {
        0
    } else {
        nets_over(keys.drop_last(), ps) + dim_net(ps, keys.last())
    }
}

/// Whether no dimension is listed twice.
pub open spec fn distinct(keys: Seq<i64>) -> bool {
    forall|i: int, j: int| 0 <= i < j < keys.len() ==> keys[i] != keys[j]
}

proof fn lemma_nets_over_nothing(keys: Seq<i64>)
    ensures
        nets_over(keys, Seq::empty()) == 0,
    decreases keys.len(),
{
    if keys.len() > 0 {
        lemma_nets_over_nothing(keys.drop_last());
    }
}

/// One more posting adds its amount once to nets over distinct dimensions
/// that list its own, and nothing to nets over ones that do not.
proof fn lemma_nets_over_push(keys: Seq<i64>, ps: Seq<PostingView>, p: PostingView)
    requires
        distinct(keys),
    ensures
        nets_over(keys, ps.push(p)) == nets_over(keys, ps)
            + (if exists|i: int| 0 <= i < keys.len() && keys[i] == p.dim { p.amount as int } else { 0 }),
    decreases keys.len(),
{
    lemma_push_posting(ps, p);
    if keys.len() > 0 {
        let k = keys.drop_last();
        assert(distinct(k)) by {
            assert forall|i: int, j: int| 0 <= i < j < k.len() implies k[i] != k[j] by {
                assert(k[i] == keys[i] && k[j] == keys[j]);
            }
        }
        lemma_nets_over_push(k, ps, p);
        assert(dim_net(ps.push(p), keys.last()) == dim_net(ps, keys.last()) + (if p.dim == keys.last() { p.amount as int } else { 0 }));
        if exists|i: int| 0 <= i < k.len() && k[i] == p.dim {
            let i = choose|i: int| 0 <= i < k.len() && k[i] == p.dim;
            assert(keys[i] == p.dim);
            assert(keys[i] != keys[keys.len() - 1]);
        }
        if exists|i: int| 0 <= i < keys.len() && keys[i] == p.dim {
            let i = choose|i: int| 0 <= i < keys.len() && keys[i] == p.dim;
            if i < k.len() {
                assert(k[i] == p.dim);
            }
        }
    }
}

/// Over distinct dimensions that list every dimension posted to, the nets
/// add up to the whole run.
proof fn lemma_nets_over_cover(keys: Seq<i64>, ps: Seq<PostingView>)
    requires
        distinct(keys),
        forall|i: int| 0 <= i < ps.len() ==> exists|j: int| 0 <= j < keys.len() && keys[j] == (#[trigger] ps[i]).dim,
    ensures
        nets_over(keys, ps) == posted_net(ps),
    decreases ps.len(),
{
    if ps.len() == 0 {
        lemma_nets_over_nothing(keys);
        assert(ps =~= Seq::<PostingView>::empty());
    } else {
        let q = ps.drop_last();
        assert(ps[ps.len() - 1] == ps.last());
        assert(exists|j: int| 0 <= j < keys.len() && keys[j] == ps[ps.len() - 1].dim);
        assert forall|i: int| 0 <= i < q.len() implies exists|j: int| 0 <= j < keys.len() && keys[j] == (#[trigger] q[i]).dim by {
            assert(q[i] == ps[i]);
        }
        lemma_nets_over_cover(keys, q);
        assert(q.push(ps.last()) =~= ps);
        lemma_nets_over_push(keys, q, ps.last());
        assert(ps[ps.len() - 1] == ps.last());
    }
}

/// A list whose values are the nets of its dimensions sums to the nets over them.
proof fn lemma_values_are_nets(b: Seq<(i64, i64)>, ps: Seq<PostingView>)
    requires
        forall|i: int| 0 <= i < b.len() ==> (#[trigger] b[i]).1 == dim_net(ps, b[i].0),
    ensures
        values_sum(b) == nets_over(keys_of(b), ps),
    decreases b.len(),
{
    if b.len() > 0 {
        let c = b.drop_last();
        assert forall|i: int| 0 <= i < c.len() implies (#[trigger] c[i]).1 == dim_net(ps, c[i].0) by {
            assert(c[i] == b[i]);
        }
        lemma_values_are_nets(c, ps);
        assert(keys_of(b).drop_last() =~= keys_of(c));
        assert(b[b.len() - 1] == b.last());
    }
}

/// The net balances of a run of postings add up to the run's own net: no
/// figure is lost or counted twice by splitting it across dimensions.
pub proof fn law_balances_total_the_postings(b: Seq<(i64, i64)>, ps: Seq<PostingView>)
    requires
        is_balances_of(b, ps),
    ensures
        values_sum(b) == posted_net(ps),
{
    lemma_values_are_nets(b, ps);
    let k = keys_of(b);
    assert(distinct(k)) by {
        assert forall|i: int, j: int| 0 <= i < j < k.len() implies k[i] != k[j] by {
            assert(b[i].0 < b[j].0);
        }
    }
    assert forall|i: int| 0 <= i < ps.len() implies exists|j: int| 0 <= j < k.len() && k[j] == (#[trigger] ps[i]).dim by {
        assert(posts_to(ps, ps[i].dim));
        let j = choose|j: int| 0 <= j < b.len() && (#[trigger] b[j]).0 == ps[i].dim;
        assert(k[j] == b[j].0);
    }
    lemma_nets_over_cover(k, ps);
}

proof fn lemma_posted_net_concat(a: Seq<PostingView>, b: Seq<PostingView>)
    ensures
        posted_net(a + b) == posted_net(a) + posted_net(b),
    decreases b.len(),
{
    if b.len() == 0 {
        assert(a + b =~= a);
    } else {
        lemma_posted_net_concat(a, b.drop_last());
        assert((a + b).drop_last() =~= a + b.drop_last());
        assert((a + b).last() == b.last());
    }
}

/// Entries that each net to zero net to zero together.
pub proof fn law_conserving_entries_tie(es: Seq<EntryView>)
    requires
        forall|i: int| 0 <= i < es.len() ==> posted_net((#[trigger] es[i]).postings) == 0,
    ensures
        posted_net(all_postings(es)) == 0,
    decreases es.len(),
{
    if es.len() > 0 {
        let f = es.drop_last();
        assert forall|i: int| 0 <= i < f.len() implies posted_net((#[trigger] f[i]).postings) == 0 by {
            assert(f[i] == es[i]);
        }
        law_conserving_entries_tie(f);
        lemma_posted_net_concat(all_postings(f), es.last().postings);
        assert(es[es.len() - 1] == es.last());
    }
}

/// A configuration the check finds nothing wrong with ties the book: every
/// entry its replay posts nets to zero, and so does the whole replay.
pub proof fn law_a_checked_configuration_ties(set: RuleSet, chart: Seq<Account>, events: Seq<EventView>, config: Seq<char>)
    requires
        crate::findings::findings_of(set, chart).len() == 0,
        replay_result(events, set, config) is Ok,
    ensures
        replay_result(events, set, config) matches Ok(es) && posted_net(all_postings(es)) == 0,
{
    lemma_replayed_entries_balance(set, chart, events, config);
    if let Ok(es) = replay_result(events, set, config) {
        law_conserving_entries_tie(es);
    }
}

proof fn lemma_replayed_entries_balance(set: RuleSet, chart: Seq<Account>, events: Seq<EventView>, config: Seq<char>)
    requires
        crate::findings::findings_of(set, chart).len() == 0,
        replay_result(events, set, config) is Ok,
    ensures
        replay_result(events, set, config) matches Ok(es)
            && forall|i: int| 0 <= i < es.len() ==> posted_net((#[trigger] es[i]).postings) == 0,
    decreases events.len(),
{
    if events.len() > 0 {
        lemma_replayed_entries_balance(set, chart, events.drop_last(), config);
        let e = events.last();
        let k = first_rule(set.rules@, e.rule)->Some_0;
        crate::rules::lemma_first_rule_bounds(set.rules@, e.rule);
        crate::findings::law_a_checked_rule_balances(set, chart, k, e);
    }
}

// -------------------------------------------------------------------- the run

/// A dimension's balance after a run of postings: its net where anything
/// posts to it, and no row otherwise.
pub open spec fn balance_row(ps: Seq<PostingView>, d: i64) -> Option<i64> {
    if posts_to(ps, d) { Some(dim_net(ps, d) as i64) } else { None }
}

/// A balance list's rows are the run's balance rows.
proof fn lemma_balance_rows(b: Seq<(i64, i64)>, ps: Seq<PostingView>)
    requires
        is_balances_of(b, ps),
    ensures
        forall|d: i64| #[trigger] row_of(b, d) == balance_row(ps, d),
{
    assert forall|d: i64| #[trigger] row_of(b, d) == balance_row(ps, d) by {
        lemma_row_of(b, d);
        if posts_to(ps, d) {
            let i = choose|i: int| 0 <= i < b.len() && (#[trigger] b[i]).0 == d;
            assert(b[i].1 == dim_net(ps, d));
        } else {
            assert forall|i: int| 0 <= i < b.len() implies b[i].0 != d by {
                assert(posts_to(ps, b[i].0));
            }
        }
    }
}

/// The break the run shows on a dimension, if any.
pub open spec fn run_break(ps: Seq<PostingView>, reported: Seq<(i64, i64)>, chart: Seq<Account>, d: i64) -> Option<BreakView> {
    break_of(chart, ps, d, balance_row(ps, d), row_of(reported, d))
}

/// The run's difference on a dimension, a missing figure taken as zero.
pub open spec fn run_gap(ps: Seq<PostingView>, reported: Seq<(i64, i64)>, d: i64) -> int {
    dim_net(ps, d) - (match row_of(reported, d) { Some(v) => v as int, None => 0 })
}

/// Whether every difference the run could report, and its magnitude, fits in
/// 64 bits.
pub open spec fn run_gaps_fit(ps: Seq<PostingView>, reported: Seq<(i64, i64)>) -> bool {
    &&& forall|i: int| 0 <= i < ps.len() ==> i64::MIN < run_gap(ps, reported, (#[trigger] ps[i]).dim) <= i64::MAX
    &&& forall|i: int| 0 <= i < reported.len() ==> i64::MIN < run_gap(ps, reported, (#[trigger] reported[i]).0) <= i64::MAX
}

/// Whether a run's figures can be computed in 64 bits: every covered event
/// compiles, and every running balance and every difference fits.
pub open spec fn run_fits(txns: Seq<Txn>, reported: Seq<(i64, i64)>, scope: Scope, set: RuleSet, config: Seq<char>) -> bool {
    match cover_result(txns, scope, set) {
        Err(_) => true,
        Ok(evs) => replayable(evs, set) && match replay_result(evs, set, config) {
            Err(_) => true,
            Ok(es) => nets_fit(all_postings(es)) && run_gaps_fit(all_postings(es), reported),
        },
    }
}

/// Whether two scopes say the same thing.
pub open spec fn same_scope(a: Scope, b: Scope) -> bool {
    &&& a.label == b.label
    &&& a.base_currency == b.base_currency
    &&& a.types@ == b.types@
    &&& a.exclusions@ == b.exclusions@
}

/// A report of a refused file: every exception, and nothing replayed.
pub open spec fn refused_report(rep: BreakReport, xs: Seq<ExceptionView>, scope: Scope, config: Seq<char>) -> bool {
    &&& exceptions_view(rep.exceptions@) == xs
    &&& rep.breaks@.len() == 0
    &&& rep.transactions_replayed == 0
    &&& rep.entries_posted == 0
    &&& rep.book_ties
    &&& rep.config_digest@ == config
    &&& same_scope(rep.scope, scope)
}

/// A report of a replayed file: every break the replay shows against the
/// report, in the order they are argued about, and whether the book ties.
pub open spec fn run_report(rep: BreakReport, txns: Seq<Txn>, reported: Seq<(i64, i64)>, chart: Seq<Account>, es: Seq<EntryView>, scope: Scope, config: Seq<char>) -> bool {
    let ps = all_postings(es);
    &&& rep.exceptions@.len() == 0
    &&& rep.transactions_replayed == txns.len() as i64
    &&& rep.entries_posted == es.len() as i64
    &&& rep.config_digest@ == config
    &&& same_scope(rep.scope, scope)
    &&& rep.book_ties == (posted_net(ps) == 0)
    &&& ranked(rep.breaks@)
    &&& forall|i: int| 0 <= i < rep.breaks@.len() ==>
        run_break(ps, reported, chart, (#[trigger] rep.breaks@[i]).account) == Some(rep.breaks@[i]@)
    &&& forall|d: i64| (#[trigger] run_break(ps, reported, chart, d)) is Some ==>
        exists|i: int| 0 <= i < rep.breaks@.len() && (#[trigger] rep.breaks@[i]).account == d
}

fn copy_handling(h: &TypeHandling) -> (r: TypeHandling)
    ensures
        r == *h,
{
    match h {
        TypeHandling::Simple { rule } => TypeHandling::Simple { rule: rule.clone() },
        TypeHandling::Disposal { proceeds_rule, basis_rule } => TypeHandling::Disposal {
            proceeds_rule: proceeds_rule.clone(),
            basis_rule: basis_rule.clone(),
        },
    }
}

fn copy_scope(s: &Scope) -> (r: Scope)
    ensures
        same_scope(r, *s),
{
    let mut types: Vec<(String, TypeHandling)> = Vec::new();
    let mut i: usize = 0;
    while i < s.types.len()
        invariant
            0 <= i <= s.types@.len(),
            types@ == s.types@.take(i as int),
        decreases s.types@.len() - i,
    {
        let (n, h) = &s.types[i];
        types.push((n.clone(), copy_handling(h)));
        proof {
            assert(s.types@.take(i + 1) =~= s.types@.take(i as int).push(s.types@[i as int]));
        }
        i = i + 1;
    }
    let mut exclusions: Vec<String> = Vec::new();
    let mut j: usize = 0;
    while j < s.exclusions.len()
        invariant
            0 <= j <= s.exclusions@.len(),
            exclusions@ == s.exclusions@.take(j as int),
        decreases s.exclusions@.len() - j,
    {
        exclusions.push(s.exclusions[j].clone());
        proof {
            assert(s.exclusions@.take(j + 1) =~= s.exclusions@.take(j as int).push(s.exclusions@[j as int]));
        }
        j = j + 1;
    }
    proof {
        assert(s.types@.take(s.types@.len() as int) =~= s.types@);
        assert(s.exclusions@.take(s.exclusions@.len() as int) =~= s.exclusions@);
    }
    Scope { label: s.label.clone(), base_currency: s.base_currency.clone(), types, exclusions }
}

/// The sum of a balance list's values, exactly.
fn sum_values(b: &[(i64, i64)]) -> (t: i128)
    ensures
        t == values_sum(b@),
{
    let mut t: i128 = 0;
    let mut i: usize = 0;
    while i < b.len()
        invariant
            0 <= i <= b@.len(),
            t == values_sum(b@.take(i as int)),
            -(i as int) * 0x8000_0000_0000_0000 <= t <= (i as int) * 0x8000_0000_0000_0000,
        decreases b@.len() - i,
    {
        proof {
            assert(b@.take(i + 1).drop_last() =~= b@.take(i as int));
            assert((i as int) * 0x8000_0000_0000_0000 + 0x8000_0000_0000_0000 < 0x8000_0000_0000_0000_0000_0000_0000_0000) by (nonlinear_arith)
                requires
                    i < usize::MAX,
                    usize::MAX <= 0xffff_ffff_ffff_ffff,
            ;
        }
        t = t + b[i].1 as i128;
        i = i + 1;
    }
    proof {
        assert(b@.take(b@.len() as int) =~= b@);
    }
    t
}

/// A report, and the entries it replayed, for one run.
fn run(txns: &[Txn], reported: &[(i64, i64)], scope: &Scope, set: &RuleSet, chart: &[Account], config: &str) -> (r: Result<(BreakReport, Vec<JournalEntry>), Rejection>)
    requires
        forall|i: int| 0 <= i < txns@.len() ==> magnitudes_fit(#[trigger] txns@[i], *scope),
        keyed(reported@),
        run_fits(txns@, reported@, *scope, *set, config@),
    ensures
        match cover_result(txns@, *scope, *set) {
            Err(xs) => r matches Ok((rep, es)) && es@.len() == 0 && refused_report(rep, xs, *scope, config@),
            Ok(evs) => match replay_result(evs, *set, config@) {
                Err(x) => r matches Err(e) && (e.reason, e.text@) == x,
                Ok(es) => r matches Ok((rep, got)) && entries_view(got@) == es
                    && run_report(rep, txns@, reported@, chart@, es, *scope, config@),
            },
        },
{
    let events = match cover(txns, scope, set) {
        Ok(e) => e,
        Err(xs) => {
            let rep = BreakReport {
                config_digest: String::from_str(config),
                scope: copy_scope(scope),
                transactions_replayed: 0,
                entries_posted: 0,
                breaks: Vec::new(),
                exceptions: xs,
                book_ties: true,
            };
            return Ok((rep, Vec::new()));
        },
    };
    let entries = match replay(&events, set, config) {
        Ok(es) => es,
        Err(e) => return Err(e),
    };
    let ghost es = entries_view(entries@);
    let ghost ps = all_postings(es);
    let ratio = balances(&entries);
    proof {
        lemma_balance_rows(ratio@, ps);
        assert forall|i: int| 0 <= i < ratio@.len() implies i64::MIN < gap(ratio@, reported@, (#[trigger] ratio@[i]).0) <= i64::MAX by {
            let d = ratio@[i].0;
            assert(posts_to(ps, d));
            let m = choose|m: int| 0 <= m < ps.len() && ps[m].dim == d;
            assert(i64::MIN < run_gap(ps, reported@, ps[m].dim) <= i64::MAX);
            assert(row_of(ratio@, d) == balance_row(ps, d));
        }
        assert forall|i: int| 0 <= i < reported@.len() implies i64::MIN < gap(ratio@, reported@, (#[trigger] reported@[i]).0) <= i64::MAX by {
            let d = reported@[i].0;
            assert(row_of(ratio@, d) == balance_row(ps, d));
            if !posts_to(ps, d) {
                lemma_unposted_nets_zero(ps, d);
            }
        }
    }
    let breaks = compare(&ratio, reported, chart, &entries);
    let total = sum_values(&ratio);
    proof {
        law_balances_total_the_postings(ratio@, ps);
        assert forall|d: i64| #[trigger] run_break(ps, reported@, chart@, d) == break_on(ratio@, reported@, chart@, ps, d) by {
            assert(row_of(ratio@, d) == balance_row(ps, d));
        }
    }
    let rep = BreakReport {
        config_digest: String::from_str(config),
        scope: copy_scope(scope),
        transactions_replayed: txns.len() as i64,
        entries_posted: entries.len() as i64,
        breaks,
        exceptions: Vec::new(),
        book_ties: total == 0,
    };
    Ok((rep, entries))
}

/// Run the whole thing: coverage, replay, balances and comparison. A refused
/// file reports every exception and no breaks; a covered one reports every
/// break, and whether the replayed book ties.
pub fn reconcile(txns: &[Txn], reported: &[(i64, i64)], scope: &Scope, set: &RuleSet, chart: &[Account], config: &str) -> (r: Result<BreakReport, Rejection>)
    requires
        forall|i: int| 0 <= i < txns@.len() ==> magnitudes_fit(#[trigger] txns@[i], *scope),
        keyed(reported@),
        run_fits(txns@, reported@, *scope, *set, config@),
    ensures
        match cover_result(txns@, *scope, *set) {
            Err(xs) => r matches Ok(rep) && refused_report(rep, xs, *scope, config@),
            Ok(evs) => match replay_result(evs, *set, config@) {
                Err(x) => r matches Err(e) && (e.reason, e.text@) == x,
                Ok(es) => r matches Ok(rep) && run_report(rep, txns@, reported@, chart@, es, *scope, config@),
            },
        },
{
    match run(txns, reported, scope, set, chart, config) {
        Ok((rep, _)) => Ok(rep),
        Err(e) => Err(e),
    }
}

/// The same run, also handing back the entries it replayed; none when the
/// file was refused.
pub fn reconcile_with_entries(txns: &[Txn], reported: &[(i64, i64)], scope: &Scope, set: &RuleSet, chart: &[Account], config: &str) -> (r: Result<(BreakReport, Vec<JournalEntry>), Rejection>)
    requires
        forall|i: int| 0 <= i < txns@.len() ==> magnitudes_fit(#[trigger] txns@[i], *scope),
        keyed(reported@),
        run_fits(txns@, reported@, *scope, *set, config@),
    ensures
        match cover_result(txns@, *scope, *set) {
            Err(xs) => r matches Ok((rep, es)) && es@.len() == 0 && refused_report(rep, xs, *scope, config@),
            Ok(evs) => match replay_result(evs, *set, config@) {
                Err(x) => r matches Err(e) && (e.reason, e.text@) == x,
                Ok(es) => r matches Ok((rep, got)) && entries_view(got@) == es
                    && run_report(rep, txns@, reported@, chart@, es, *scope, config@),
            },
        },
{
    run(txns, reported, scope, set, chart, config)
}

} // verus!
