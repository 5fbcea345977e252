//! Recognising an entry under one book of record.
//!
//! An entry a view cannot date is reported, never dropped: folding it anyway
//! would be trade-date basis wearing a settlement label, and excluding it
//! silently would remove value from a book whose trial balance went on tying.
//! A settlement date is the trade date rolled forward over open days of a
//! declared calendar, never before the trade, and a calendar that never opens
//! refuses rather than loops.

use vstd::prelude::*;
use vstd::string::*;
use vstd::view::View as _;
use crate::dates::{days_from_iso_date, iso_day};
use crate::relief::Day;
use crate::rules::{Basis, Calendar, RuleSet, UNDECLARED_VIEW, View, view_label};
use crate::text::{decimal, push_decimal, push_quoted, quoted};

verus! {

/// How far a roll looks for an open day before giving up.
pub const ROLL_FUEL: u32 = 70;

/// One book of record, resolved from a configuration.
#[derive(Clone, Debug, PartialEq, Eq)]
pub struct ViewDef {
    pub id: String,
    pub display_name: String,
    pub basis: Basis,
    pub settles_in: i64,
    /// The days the market is shut, as days since the epoch.
    pub holidays: Vec<Day>,
    /// Weekday numbers the market is shut on, 0 = Sunday.
    pub weekend: Vec<i64>,
    /// Whether the configuration declared this view, or it is the one every
    /// book has.
    pub declared: bool,
}

/// Where a view puts an entry: always, on a day, or nowhere, with the reason.
#[derive(Clone, Debug, PartialEq, Eq)]
pub enum Placement {
    /// The journal's own order: no date consulted, always in scope.
    Always,
    /// Recognised on this day.
    On(Day),
    /// The record does not support this view.
    Unplaceable(String),
}

/// A placement as a value.
pub enum PlacementView {
    Always,
    On(Day),
    Unplaceable(Seq<char>),
}

impl vstd::view::View for Placement {
    type V = PlacementView;

    open spec fn view(&self) -> PlacementView {
        match self {
            Placement::Always => PlacementView::Always,
            Placement::On(d) => PlacementView::On(*d),
            Placement::Unplaceable(why) => PlacementView::Unplaceable(why@),
        }
    }
}

/// The weekday of a day number, 0 = Sunday: 1970-01-01 was a Thursday.
pub open spec fn weekday(d: int) -> int {
    (d + 4) % 7
}

/// Whether the market a view rolls over is open on a day.
pub open spec fn open_on(v: ViewDef, d: int) -> bool {
    !v.weekend@.contains(weekday(d) as i64) && !v.holidays@.contains(d as Day)
}

/// The next open day after `at`, looking at most `fuel` days ahead and never
/// past the last representable day.
pub open spec fn next_open(v: ViewDef, at: int, fuel: nat) -> Option<int>
    decreases fuel,
{
    if fuel == 0 {
        None
    } else if at + 1 > i32::MAX {
        None
    } else if open_on(v, at + 1) {
        Some(at + 1)
    } else {
        next_open(v, at + 1, (fuel - 1) as nat)
    }
}

/// `n` open days after `d`, or nothing if the calendar never opens far enough.
pub open spec fn open_days_after(v: ViewDef, d: int, n: int) -> Option<int>
    decreases if n > 0 { n } else { 0 },
{
    if n <= 0 {
        Some(d)
    } else {
        match next_open(v, d, ROLL_FUEL as nat) {
            None => None,
            Some(x) => open_days_after(v, x, n - 1),
        }
    }
}

/// Where a view puts an entry traded on a day, or carrying no trade date.
pub open spec fn placement_of(v: ViewDef, entry: Seq<char>, traded: Option<Day>) -> PlacementView {
    match v.basis {
        Basis::Recorded => PlacementView::Always,
        Basis::Trade => match traded {
            Some(t) => PlacementView::On(t),
            None => PlacementView::Unplaceable(entry + ": view "@ + quoted(v.id@)
                + " recognises on the trade date and this entry carries none. The epoch would recognise it before every cut and today after all of them; neither is what the record says"@),
        },
        Basis::Settlement => match traded {
            None => PlacementView::Unplaceable(entry + ": view "@ + quoted(v.id@) + " settles "@
                + decimal(v.settles_in as int)
                + " days after the trade and this entry carries no trade date, so there is nothing to roll forward from"@),
            Some(t) => match open_days_after(v, t as int, v.settles_in as int) {
                Some(s) => PlacementView::On(s as Day),
                None => PlacementView::Unplaceable(entry + ": view "@ + quoted(v.id@) + " could not find "@
                    + decimal(v.settles_in as int)
                    + " open days after the trade date — its calendar closes the market for longer than any roll looks"@),
            },
        },
    }
}

/// Whether a view has an entry so placed, as of a cut: everything without a
/// cut, and a dated entry on or before the cut's day.
pub open spec fn recognised(p: PlacementView, as_of: Option<Day>) -> bool {
    match p {
        PlacementView::Always => true,
        PlacementView::On(d) => match as_of {
            None => true,
            Some(cut) => d <= cut,
        },
        PlacementView::Unplaceable(_) => false,
    }
}

/// The days a calendar's holidays name, in order, each that parses.
pub open spec fn holiday_days(hs: Seq<String>) -> Seq<Day>
    decreases hs.len(),
{
    if hs.len() == 0 {
        Seq::empty()
    } else {
        match iso_day(hs.last()@) {
            Some(n) => holiday_days(hs.drop_last()).push(n as Day),
            None => holiday_days(hs.drop_last()),
        }
    }
}

/// The calendar a view names, if the configuration declares it.
pub open spec fn calendar_of(set: RuleSet, v: View) -> Option<Calendar> {
    match v.calendar {
        None => None,
        Some(name) => if exists|i: int| 0 <= i < set.calendars@.len() && set.calendars@[i].id@ == name@
            && forall|j: int| 0 <= j < i ==> set.calendars@[j].id@ != name@ {
            Some(set.calendars@[choose|i: int| 0 <= i < set.calendars@.len() && set.calendars@[i].id@ == name@
                && forall|j: int| 0 <= j < i ==> set.calendars@[j].id@ != name@])
        } else {
            None
        },
    }
}

/// The definition a configuration gives one of its views.
pub open spec fn def_matches(d: ViewDef, set: RuleSet, v: View) -> bool {
    &&& d.id@ == v.id@
    &&& d.display_name@ == view_label(v)
    &&& d.basis == v.basis
    &&& d.settles_in == (match v.settles_in { Some(n) => n, None => 0 })
    &&& d.holidays@ == (match calendar_of(set, v) { Some(c) => holiday_days(c.holidays@), None => Seq::empty() })
    &&& d.weekend@ == (match calendar_of(set, v) { Some(c) => c.weekend@, None => Seq::empty() })
    &&& d.declared == (set.views@.len() > 0)
}

fn parsed_holidays(hs: &Vec<String>) -> (r: Vec<Day>)
    ensures
        r@ == holiday_days(hs@),
{
    let mut out: Vec<Day> = Vec::new();
    let mut i: usize = 0;
    while i < hs.len()
        invariant
            0 <= i <= hs@.len(),
            out@ == holiday_days(hs@.take(i as int)),
        decreases hs@.len() - i,
    {
        proof {
            assert(hs@.take(i + 1).drop_last() =~= hs@.take(i as int));
        }
        match days_from_iso_date(hs[i].as_str()) {
            Some(n) => out.push(n as Day),
            None => {},
        }
        i = i + 1;
    }
    assert(hs@.take(hs@.len() as int) =~= hs@);
    out
}

pub(crate) fn copy_days(ds: &Vec<i64>) -> (r: Vec<i64>)
    ensures
        r@ == ds@,
{
    let mut out: Vec<i64> = Vec::new();
    let mut i: usize = 0;
    while i < ds.len()
        invariant
            0 <= i <= ds@.len(),
            out@ == ds@.take(i as int),
        decreases ds@.len() - i,
    {
        out.push(ds[i]);
        i = i + 1;
        assert(out@ =~= ds@.take(i as int));
    }
    assert(ds@.take(ds@.len() as int) =~= ds@);
    out
}

impl ViewDef {
    /// The single view a book that declares none has: journal order, by
    /// custom rather than by election.
    pub fn undeclared() -> (r: ViewDef)
        ensures
            r.id@ == UNDECLARED_VIEW@,
            r.display_name@ == "Journal order"@,
            r.basis == Basis::Recorded,
            r.settles_in == 0,
            r.holidays@.len() == 0,
            r.weekend@.len() == 0,
            !r.declared,
    {
        ViewDef {
            id: String::from_str(UNDECLARED_VIEW),
            display_name: String::from_str("Journal order"),
            basis: Basis::Recorded,
            settles_in: 0,
            holidays: Vec::new(),
            weekend: Vec::new(),
            declared: false,
        }
    }

    /// Every view a configuration declares, or the one every book has, each
    /// with the calendar it names.
    pub fn of(set: &RuleSet) -> (r: Vec<ViewDef>)
        ensures
            r@.len() == (if set.views@.len() == 0 { 1 } else { set.views@.len() }),
            set.views@.len() > 0 ==> forall|i: int| 0 <= i < r@.len() ==> def_matches(#[trigger] r@[i], *set, set.views@[i]),
            set.views@.len() == 0 ==> r@[0].id@ == UNDECLARED_VIEW@ && r@[0].display_name@ == "Journal order"@
                && r@[0].basis == Basis::Recorded && r@[0].settles_in == 0 && r@[0].holidays@.len() == 0
                && r@[0].weekend@.len() == 0 && !r@[0].declared,
    {
        let declared = set.views_declared();
        let views = set.effective_views();
        let mut out: Vec<ViewDef> = Vec::new();
        let mut i: usize = 0;
        while i < views.len()
            invariant
                0 <= i <= views@.len(),
                declared == (set.views@.len() > 0),
                set.views@.len() == 0 ==> views@.len() == 1 && views@[0].id@ == UNDECLARED_VIEW@
                    && views@[0].display_name@ == "Journal order"@ && views@[0].basis == Basis::Recorded
                    && views@[0].settles_in is None && views@[0].calendar is None,
                set.views@.len() > 0 ==> views@ == set.views@,
                out@.len() == i,
                forall|k: int| 0 <= k < i ==> def_matches(#[trigger] out@[k], *set, views@[k]),
            decreases views@.len() - i,
        {
            let v = &views[i];
            let cal: Option<&Calendar> = match &v.calendar {
                Some(name) => set.calendar(name.as_str()),
                None => None,
            };
            proof {
                match cal {
                    Some(c) => {
                        let name = v.calendar.unwrap();
                        let w = choose|w: int| 0 <= w < set.calendars@.len() && set.calendars@[w] == *c
                            && c.id@ == name@ && forall|j: int| 0 <= j < w ==> set.calendars@[j].id@ != name@;
                        let q = choose|q: int| 0 <= q < set.calendars@.len() && set.calendars@[q].id@ == name@
                            && forall|j: int| 0 <= j < q ==> set.calendars@[j].id@ != name@;
                        assert(0 <= q < set.calendars@.len() && set.calendars@[q].id@ == name@
                            && forall|j: int| 0 <= j < q ==> set.calendars@[j].id@ != name@);
                        assert(q == w) by {
                            if q < w {
                            } else if q > w {
                            }
                        }
                    },
                    None => {},
                }
            }
            let holidays = match cal {
                Some(c) => parsed_holidays(&c.holidays),
                None => Vec::new(),
            };
            let weekend = match cal {
                Some(c) => copy_days(&c.weekend),
                None => Vec::new(),
            };
            let d = ViewDef {
                id: v.id.clone(),
                display_name: String::from_str(v.label()),
                basis: v.basis,
                settles_in: match v.settles_in {
                    Some(n) => n,
                    None => 0,
                },
                holidays,
                weekend,
                declared,
            };
            proof {
                assert(calendar_of(*set, *v) == match cal { Some(c) => Some(*c), None => None::<Calendar> });
            }
            out.push(d);
            i = i + 1;
        }
        proof {
            reveal_strlit("Journal order");
        }
        out
    }

    /// Whether the market is open on a day.
    fn is_open(&self, d: Day) -> (r: bool)
        ensures
            r == open_on(*self, d as int),
    {
        let dow: i64 = ((d as i64 % 7) + 11) % 7;
        assert(dow == weekday(d as int)) by (nonlinear_arith)
            requires
                dow == ((d as i64 % 7) + 11) % 7,
                i32::MIN <= d <= i32::MAX,
        {
        }
        let mut k: usize = 0;
        while k < self.weekend.len()
            invariant
                0 <= k <= self.weekend@.len(),
                dow == weekday(d as int),
                forall|j: int| 0 <= j < k ==> self.weekend@[j] != dow,
            decreases self.weekend@.len() - k,
        {
            if self.weekend[k] == dow {
                assert(self.weekend@[k as int] == weekday(d as int) as i64);
                assert(self.weekend@.contains(weekday(d as int) as i64));
                return false;
            }
            k = k + 1;
        }
        assert(!self.weekend@.contains(weekday(d as int) as i64));
        let mut h: usize = 0;
        while h < self.holidays.len()
            invariant
                0 <= h <= self.holidays@.len(),
                !self.weekend@.contains(weekday(d as int) as i64),
                forall|j: int| 0 <= j < h ==> self.holidays@[j] != d,
            decreases self.holidays@.len() - h,
        {
            if self.holidays[h] == d {
                assert(self.holidays@[h as int] == d);
                assert(self.holidays@.contains(d));
                return false;
            }
            h = h + 1;
        }
        true
    }

    fn next_open_day(&self, at: Day) -> (r: Option<Day>)
        ensures
            match r {
                Some(x) => next_open(*self, at as int, ROLL_FUEL as nat) == Some(x as int),
                None => next_open(*self, at as int, ROLL_FUEL as nat) is None,
            },
    {
        let mut cur = at;
        let mut fuel: u32 = ROLL_FUEL;
        while fuel > 0
            invariant
                fuel <= ROLL_FUEL,
                next_open(*self, at as int, ROLL_FUEL as nat) == next_open(*self, cur as int, fuel as nat),
            decreases fuel,
        {
            if cur == i32::MAX {
                return None;
            }
            cur = cur + 1;
            if self.is_open(cur) {
                return Some(cur);
            }
            fuel = fuel - 1;
        }
        None
    }

    /// `n` open days after `d`, or nothing if the calendar never opens far
    /// enough.
    fn roll(&self, d: Day, n: i64) -> (r: Option<Day>)
        ensures
            match r {
                Some(x) => open_days_after(*self, d as int, n as int) == Some(x as int),
                None => open_days_after(*self, d as int, n as int) is None,
            },
    {
        let mut at = d;
        let mut k: i64 = 0;
        while k < n
            invariant
                0 <= k,
                n > 0 ==> k <= n,
                open_days_after(*self, d as int, n as int) == open_days_after(*self, at as int, n - k),
            decreases n - k,
        {
            match self.next_open_day(at) {
                Some(x) => at = x,
                None => return None,
            }
            k = k + 1;
        }
        Some(at)
    }

    /// Where this view puts an entry: always in journal order, on the trade
    /// date, or on the settlement date rolled over the calendar; unplaceable,
    /// with the reason, where the record does not support the view.
    pub fn placement(&self, entry_id: &str, traded: Option<Day>) -> (r: Placement)
        ensures
            r@ == placement_of(*self, entry_id@, traded),
    {
        match self.basis {
            Basis::Recorded => Placement::Always,
            Basis::Trade => match traded {
                Some(t) => Placement::On(t),
                None => {
                    let mut s = String::from_str(entry_id);
                    s.append(": view ");
                    push_quoted(&mut s, self.id.as_str());
                    s.append(" recognises on the trade date and this entry carries none. The epoch would recognise it before every cut and today after all of them; neither is what the record says");
                    assert(s@ =~= entry_id@ + ": view "@ + quoted(self.id@)
                        + " recognises on the trade date and this entry carries none. The epoch would recognise it before every cut and today after all of them; neither is what the record says"@);
                    Placement::Unplaceable(s)
                },
            },
            Basis::Settlement => match traded {
                None => {
                    let mut s = String::from_str(entry_id);
                    s.append(": view ");
                    push_quoted(&mut s, self.id.as_str());
                    s.append(" settles ");
                    push_decimal(&mut s, self.settles_in as i128);
                    s.append(" days after the trade and this entry carries no trade date, so there is nothing to roll forward from");
                    assert(s@ =~= entry_id@ + ": view "@ + quoted(self.id@) + " settles "@
                        + decimal(self.settles_in as int)
                        + " days after the trade and this entry carries no trade date, so there is nothing to roll forward from"@);
                    Placement::Unplaceable(s)
                },
                Some(t) => match self.roll(t, self.settles_in) {
                    Some(x) => Placement::On(x),
                    None => {
                        let mut s = String::from_str(entry_id);
                        s.append(": view ");
                        push_quoted(&mut s, self.id.as_str());
                        s.append(" could not find ");
                        push_decimal(&mut s, self.settles_in as i128);
                        s.append(" open days after the trade date — its calendar closes the market for longer than any roll looks");
                        assert(s@ =~= entry_id@ + ": view "@ + quoted(self.id@) + " could not find "@
                            + decimal(self.settles_in as int)
                            + " open days after the trade date — its calendar closes the market for longer than any roll looks"@);
                        Placement::Unplaceable(s)
                    },
                },
            },
        }
    }

    /// Whether this view has an entry so placed, as of a cut. Without a cut
    /// every view has everything it can place; at a cut the boundary is on
    /// the day.
    pub fn recognises(&self, placement: &Placement, as_of: Option<Day>) -> (r: bool)
        ensures
            r == recognised(placement@, as_of),
    {
        match placement {
            Placement::Always => true,
            Placement::On(d) => match as_of {
                None => true,
                Some(cut) => *d <= cut,
            },
            Placement::Unplaceable(_) => false,
        }
    }
}

proof fn lemma_next_open_after(v: ViewDef, at: int, fuel: nat)
    ensures
        next_open(v, at, fuel) matches Some(x) ==> x > at,
    decreases fuel,
{
    if fuel > 0 && at + 1 <= i32::MAX && !open_on(v, at + 1) {
        lemma_next_open_after(v, at + 1, (fuel - 1) as nat);
    }
}

/// A settlement date is never before the trade: rolling forward moves a date
/// forward, strictly when there is at least one day to roll.
pub proof fn law_settlement_is_never_before_the_trade(v: ViewDef, d: int, n: int)
    ensures
        open_days_after(v, d, n) matches Some(s) ==> s >= d && (n > 0 ==> s > d),
    decreases if n > 0 { n } else { 0 },
{
    if n > 0 {
        lemma_next_open_after(v, d, ROLL_FUEL as nat);
        if let Some(x) = next_open(v, d, ROLL_FUEL as nat) {
            law_settlement_is_never_before_the_trade(v, x, n - 1);
        }
    }
}

} // verus!

verus! {

/// Whether two view definitions say the same thing, field by field.
pub open spec fn def_agree(a: ViewDef, b: ViewDef) -> bool {
    &&& a.id@ == b.id@
    &&& a.display_name@ == b.display_name@
    &&& a.basis == b.basis
    &&& a.settles_in == b.settles_in
    &&& a.holidays@ == b.holidays@
    &&& a.weekend@ == b.weekend@
    &&& a.declared == b.declared
}

proof fn lemma_next_open_agree(a: ViewDef, b: ViewDef, at: int, fuel: nat)
    requires
        def_agree(a, b),
    ensures
        next_open(a, at, fuel) == next_open(b, at, fuel),
    decreases fuel,
{
    if fuel > 0 {
        lemma_next_open_agree(a, b, at + 1, (fuel - 1) as nat);
    }
}

proof fn lemma_open_days_agree(a: ViewDef, b: ViewDef, d: int, n: int)
    requires
        def_agree(a, b),
    ensures
        open_days_after(a, d, n) == open_days_after(b, d, n),
    decreases if n > 0 { n } else { 0 },
{
    if n > 0 {
        lemma_next_open_agree(a, b, d, ROLL_FUEL as nat);
        match next_open(a, d, ROLL_FUEL as nat) {
            Some(x) => lemma_open_days_agree(a, b, x, n - 1),
            None => {},
        }
    }
}

/// Definitions that agree place every entry alike.
pub proof fn lemma_placement_agree(a: ViewDef, b: ViewDef, entry: Seq<char>, traded: Option<Day>)
    requires
        def_agree(a, b),
    ensures
        placement_of(a, entry, traded) == placement_of(b, entry, traded),
{
    if let Some(t) = traded {
        lemma_open_days_agree(a, b, t as int, a.settles_in as int);
    }
}

/// A view definition, copied.
pub(crate) fn copy_def(d: &ViewDef) -> (r: ViewDef)
    ensures
        def_agree(r, *d),
{
    ViewDef {
        id: d.id.clone(),
        display_name: d.display_name.clone(),
        basis: d.basis,
        settles_in: d.settles_in,
        holidays: copy_day_list(&d.holidays),
        weekend: copy_days(&d.weekend),
        declared: d.declared,
    }
}

fn copy_day_list(ds: &Vec<Day>) -> (r: Vec<Day>)
    ensures
        r@ == ds@,
{
    let mut out: Vec<Day> = Vec::new();
    let mut i: usize = 0;
    while i < ds.len()
        invariant
            0 <= i <= ds@.len(),
            out@ == ds@.take(i as int),
        decreases ds@.len() - i,
    {
        out.push(ds[i]);
        i = i + 1;
        assert(out@ =~= ds@.take(i as int));
    }
    assert(ds@.take(ds@.len() as int) =~= ds@);
    out
}

} // verus!
