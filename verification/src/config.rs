//! The checks a configuration passes when it is read.
//!
//! Each refuses something that is wrong the moment it is written down: a chart
//! that cannot express a gain, bands with a grade nothing can reach, a window
//! that never fires, two elections for one sale, a calendar that never opens,
//! two rows under one name. Finding out at the first sale, settlement or close
//! would mean finding out in production.

use vstd::prelude::*;
use vstd::string::*;
use crate::text::{decimal, quoted, push_decimal, push_quoted, is_blank, blank};
use crate::dates::{parse_int, parse_i64, iso_day, days_from_iso_date};
use crate::rules::{
    Basis, Calendar, ChartRoles, PersonalTerms, PhaseBudget, ProjectTerms, RuleSet, Tolerance,
    UNDECLARED_VIEW, basis_text, tolerance_is_well_formed,
};
use crate::partners::{PartnerShare, SpecialAllocation, allocation_kind_text};

verus! {

/// What a refusal is about.
#[derive(Clone, Copy, Debug, PartialEq, Eq, Structural)]
pub enum Reason {
    ChartCollision,
    ToleranceUnusable,
    NegativeWashWindow,
    NotAMinTaxWeight,
    MinTaxWithLotMethod,
    AverageCostDenied,
    AverageCostWithLotMethod,
    AverageCostWithMinTax,
    KeepDenied,
    KeepWithoutWindow,
    WeekendDayOutOfRange,
    NeverOpens,
    HolidayNotADate,
    NegativeProjectBudget,
    PhaseNotADimension,
    PhaseTwice,
    NegativePhaseBudget,
    NegativeHouseholdBudget,
    EnvelopeNotADimension,
    NegativeEnvelope,
    LoanNotADimension,
    LoanNotPositive,
    InterestNotADimension,
    LoanIsItsOwnInterest,
    CutWithoutPartner,
    CutNotAWeight,
    CutTwice,
    SpecialWithoutPartner,
    SpecialNotAWeight,
    SpecialTwice,
    ViewIdUnusable,
    SettlementDaysMissing,
    SettlementDaysOutOfRange,
    SettlementCalendarMissing,
    SettlementCalendarUnknown,
    SettlementDaysOnOtherBasis,
    ViewTwice,
    ViewTakesUndeclaredId,
    RateMissing,
    DayCountMissing,
    DaysMissing,
    NegativeDays,
    AccrualTooLarge,
    Overflow,
    CutTotalNotPositive,
    DoesNotDivide,
    UnnamedFacts,
    FactWithoutPartner,
    Overshoot,
    RemainderWithoutCut,
    UnterminatedQuote,
    RuleMissing,
    NotAnAmount,
    AmountTooLarge,
    EmptyFile,
    ColumnMissing,
    RowTooShort,
    NotADayCount,
    AccountUnknown,
    AccountTwice,
}

/// A configuration refused, and why, in words a fund accountant would use.
#[derive(Clone, Debug, PartialEq, Eq)]
pub struct Rejection {
    pub reason: Reason,
    pub text: String,
}

/// A refusal as a value: what it is about, and its words.
pub type Rejected = (Reason, Seq<char>);

/// What a check came to: nothing, or a refusal.
pub open spec fn outcome(r: Result<(), Rejection>) -> Option<Rejected> {
    match r {
        Ok(_) => None,
        Err(e) => Some((e.reason, e.text@)),
    }
}

/// The first refusal of two, in order.
pub open spec fn first_of(a: Option<Rejected>, b: Option<Rejected>) -> Option<Rejected> {
    if a is Some { a } else { b }
}

impl Rejection {
    /// The refusal, in words.
    pub fn message(&self) -> (r: String)
        ensures
            r@ == self.text@,
    {
        self.text.clone()
    }
}

/// A figure that does not fit in 64 bits, as a refusal.
pub open spec fn overflow_rejected(what: Seq<char>) -> Rejected {
    (Reason::Overflow, crate::checked::overflow_message(what))
}

impl Rejection {
    /// The refusal of a figure that does not fit in 64 bits.
    pub fn overflow(o: crate::checked::Overflow) -> (r: Rejection)
        ensures
            (r.reason, r.text@) == overflow_rejected(o.what@),
    {
        Rejection { reason: Reason::Overflow, text: o.message() }
    }
}

fn refuse(reason: Reason, text: String) -> (r: Result<(), Rejection>)
    ensures
        outcome(r) == Some((reason, text@)),
{
    Err(Rejection { reason, text })
}

// ---------------------------------------------------------------- chart roles

/// The words for a collided chart.
pub open spec fn collision_text(a: Seq<char>, b: Seq<char>, dim: i64) -> Seq<char> {
    "the chart maps "@ + a + " and "@ + b + " to the same dimension ("@ + decimal(dim as int)
        + "). A sale would post its gain into the account it relieved, so the gain would net against the disposal and the income account would report what was left over rather than what was earned — while the entry conserved and the trial balance tied"@
}

/// The refusal of a chart that maps two roles to one dimension: the first
/// colliding pair, in the order investments, cash, realized gain, currency
/// conversion.
pub open spec fn roles_rejection(r: ChartRoles) -> Option<Rejected> {
    let inv = r.investments;
    let cash = r.cash;
    let gain = r.realized_gain;
    if inv == cash {
        Some((Reason::ChartCollision, collision_text("investments"@, "cash"@, inv)))
    } else if inv == gain {
        Some((Reason::ChartCollision, collision_text("investments"@, "realized gain"@, inv)))
    } else if r.currency_conversion == Some(inv) {
        Some((Reason::ChartCollision, collision_text("investments"@, "currency conversion"@, inv)))
    } else if cash == gain {
        Some((Reason::ChartCollision, collision_text("cash"@, "realized gain"@, cash)))
    } else if r.currency_conversion == Some(cash) {
        Some((Reason::ChartCollision, collision_text("cash"@, "currency conversion"@, cash)))
    } else if r.currency_conversion == Some(gain) {
        Some((Reason::ChartCollision, collision_text("realized gain"@, "currency conversion"@, gain)))
    } else {
        None
    }
}

fn collision(a: &str, b: &str, dim: i64) -> (r: Result<(), Rejection>)
    ensures
        outcome(r) == Some((Reason::ChartCollision, collision_text(a@, b@, dim))),
{
    let mut s = String::from_str("the chart maps ");
    s.append(a);
    s.append(" and ");
    s.append(b);
    s.append(" to the same dimension (");
    push_decimal(&mut s, dim as i128);
    s.append("). A sale would post its gain into the account it relieved, so the gain would net against the disposal and the income account would report what was left over rather than what was earned — while the entry conserved and the trial balance tied");
    assert(s@ =~= collision_text(a@, b@, dim));
    refuse(Reason::ChartCollision, s)
}

impl ChartRoles {
    /// The roles must be different dimensions, the conversion role among them
    /// when it is declared.
    pub fn check(&self) -> (r: Result<(), Rejection>)
        ensures
            outcome(r) == roles_rejection(*self),
    {
        let inv = self.investments;
        let cash = self.cash;
        let gain = self.realized_gain;
        if inv == cash {
            return collision("investments", "cash", inv);
        }
        if inv == gain {
            return collision("investments", "realized gain", inv);
        }
        if self.currency_conversion == Some(inv) {
            return collision("investments", "currency conversion", inv);
        }
        if cash == gain {
            return collision("cash", "realized gain", cash);
        }
        if self.currency_conversion == Some(cash) {
            return collision("cash", "currency conversion", cash);
        }
        if self.currency_conversion == Some(gain) {
            return collision("realized gain", "currency conversion", gain);
        }
        Ok(())
    }
}

// ------------------------------------------------------------------ tolerance

/// The refusal of bands with a grade nothing can reach.
pub open spec fn tolerance_rejection(t: Tolerance) -> Option<Rejected> {
    if tolerance_is_well_formed(t.below_notice as int, t.blocks_nav as int) {
        None
    } else {
        Some((Reason::ToleranceUnusable,
            "tolerance is not usable as written: below_notice "@ + decimal(t.below_notice as int)
                + " and blocks_nav "@ + decimal(t.blocks_nav as int)
                + " must both be at least zero, and below_notice must not exceed blocks_nav. As written, nothing can be reportable-and-not-blocking."@))
    }
}

impl Tolerance {
    /// Bounds the wrong way round, or below zero, leave a grade nothing can be.
    pub fn check(&self) -> (r: Result<(), Rejection>)
        ensures
            outcome(r) == tolerance_rejection(*self),
    {
        if 0 <= self.below_notice && 0 <= self.blocks_nav && self.below_notice <= self.blocks_nav {
            return Ok(());
        }
        let mut s = String::from_str("tolerance is not usable as written: below_notice ");
        push_decimal(&mut s, self.below_notice as i128);
        s.append(" and blocks_nav ");
        push_decimal(&mut s, self.blocks_nav as i128);
        s.append(" must both be at least zero, and below_notice must not exceed blocks_nav. As written, nothing can be reportable-and-not-blocking.");
        assert(s@ =~= tolerance_rejection(*self).unwrap().1);
        refuse(Reason::ToleranceUnusable, s)
    }
}

// ------------------------------------------------------------------ calendars

/// The refusal of a calendar: a weekend day that is not a weekday, a market
/// shut every day, or a holiday that is not a date.
pub open spec fn calendar_rejection(c: Calendar) -> Option<Rejected> {
    if exists|k: int| 0 <= k < c.weekend@.len() && !(0 <= #[trigger] c.weekend@[k] <= 6) {
        Some((Reason::WeekendDayOutOfRange,
            "calendar "@ + quoted(c.id@) + " names a weekend day outside 0..=6. Sunday is 0"@))
    } else if c.weekend@.len() >= 7 {
        Some((Reason::NeverOpens,
            "calendar "@ + quoted(c.id@) + " closes the market every day of the week, so no trade under it would ever settle"@))
    } else if exists|k: int| 0 <= k < c.holidays@.len() && (#[trigger] iso_day(c.holidays@[k]@)) is None {
        Some((Reason::HolidayNotADate,
            "calendar "@ + quoted(c.id@) + " names a holiday that is not a date"@))
    } else {
        None
    }
}

impl Calendar {
    /// Checked when the configuration is read.
    pub fn check(&self) -> (r: Result<(), Rejection>)
        ensures
            outcome(r) == calendar_rejection(*self),
    {
        let mut k: usize = 0;
        while k < self.weekend.len()
            invariant
                0 <= k <= self.weekend@.len(),
                forall|j: int| 0 <= j < k ==> 0 <= #[trigger] self.weekend@[j] <= 6,
            decreases self.weekend@.len() - k,
        {
            let d = self.weekend[k];
            if d < 0 || d > 6 {
                let mut s = String::from_str("calendar ");
                push_quoted(&mut s, self.id.as_str());
                s.append(" names a weekend day outside 0..=6. Sunday is 0");
                assert(s@ =~= calendar_rejection(*self).unwrap().1);
                return refuse(Reason::WeekendDayOutOfRange, s);
            }
            k = k + 1;
        }
        if self.weekend.len() >= 7 {
            let mut s = String::from_str("calendar ");
            push_quoted(&mut s, self.id.as_str());
            s.append(" closes the market every day of the week, so no trade under it would ever settle");
            assert(s@ =~= calendar_rejection(*self).unwrap().1);
            return refuse(Reason::NeverOpens, s);
        }
        let mut h: usize = 0;
        while h < self.holidays.len()
            invariant
                0 <= h <= self.holidays@.len(),
                forall|j: int| 0 <= j < h ==> (#[trigger] iso_day(self.holidays@[j]@)) is Some,
                forall|j: int| 0 <= j < self.weekend@.len() ==> 0 <= #[trigger] self.weekend@[j] <= 6,
                self.weekend@.len() < 7,
            decreases self.holidays@.len() - h,
        {
            if days_from_iso_date(self.holidays[h].as_str()).is_none() {
                assert(iso_day(self.holidays@[h as int]@) is None);
                let mut s = String::from_str("calendar ");
                push_quoted(&mut s, self.id.as_str());
                s.append(" names a holiday that is not a date");
                assert(s@ =~= calendar_rejection(*self).unwrap().1);
                return refuse(Reason::HolidayNotADate, s);
            }
            h = h + 1;
        }
        Ok(())
    }
}

// ------------------------------------------------------------------- projects

/// The words for a budget given as a posting.
pub open spec fn not_negative_text(what: Seq<char>) -> Seq<char> {
    "a "@ + what + " is not negative — it is an authorized magnitude, not a posting"@
}

/// Whether an earlier phase names the same account as phase `i`.
pub open spec fn phase_repeats(ph: Seq<PhaseBudget>, i: int) -> bool {
    exists|j: int| 0 <= j < i && #[trigger] ph[j].account == ph[i].account
}

/// The refusal of phase `i` on its own.
pub open spec fn phase_row_rejection(ph: Seq<PhaseBudget>, i: int) -> Option<Rejected> {
    let p = ph[i];
    if p.account <= 0 {
        Some((Reason::PhaseNotADimension,
            "a phase budget names account "@ + decimal(p.account as int) + ", which is not a chart dimension"@))
    } else if phase_repeats(ph, i) {
        Some((Reason::PhaseTwice,
            "this configuration declares a phase budget for account "@ + decimal(p.account as int)
                + " twice. A figure cited against that account could not pick one"@))
    } else if p.budget matches Some(b) && b < 0 {
        Some((Reason::NegativePhaseBudget, not_negative_text("phase budget"@)))
    } else {
        None
    }
}

/// The first refusal among the phases from `i` on.
pub open spec fn phases_rejection(ph: Seq<PhaseBudget>, i: int) -> Option<Rejected>
    decreases ph.len() - i,
{
    if i < 0 || i >= ph.len() {
        None
    } else {
        first_of(phase_row_rejection(ph, i), phases_rejection(ph, i + 1))
    }
}

/// The refusal of a project's terms.
pub open spec fn project_rejection(p: ProjectTerms) -> Option<Rejected> {
    if p.budget matches Some(b) && b < 0 {
        Some((Reason::NegativeProjectBudget, not_negative_text("project budget"@)))
    } else {
        phases_rejection(p.phases@, 0)
    }
}

fn refuse_not_negative(reason: Reason, what: &str) -> (r: Result<(), Rejection>)
    ensures
        outcome(r) == Some((reason, not_negative_text(what@))),
{
    let mut s = String::from_str("a ");
    s.append(what);
    s.append(" is not negative — it is an authorized magnitude, not a posting");
    assert(s@ =~= not_negative_text(what@));
    refuse(reason, s)
}

impl ProjectTerms {
    /// A negative budget inverts variance; two rows for one account are two
    /// answers under one name.
    pub fn check(&self) -> (r: Result<(), Rejection>)
        ensures
            outcome(r) == project_rejection(*self),
    {
        if let Some(b) = self.budget {
            if b < 0 {
                return refuse_not_negative(Reason::NegativeProjectBudget, "project budget");
            }
        }
        let ghost ph = self.phases@;
        let mut i: usize = 0;
        while i < self.phases.len()
            invariant
                0 <= i <= ph.len(),
                ph == self.phases@,
                !(self.budget matches Some(b) && b < 0),
                phases_rejection(ph, 0) == phases_rejection(ph, i as int),
            decreases ph.len() - i,
        {
            let p = self.phases[i];
            if p.account <= 0 {
                let mut s = String::from_str("a phase budget names account ");
                push_decimal(&mut s, p.account as i128);
                s.append(", which is not a chart dimension");
                assert(s@ =~= phase_row_rejection(ph, i as int).unwrap().1);
                return refuse(Reason::PhaseNotADimension, s);
            }
            let mut j: usize = 0;
            while j < i
                invariant
                    0 <= j <= i < ph.len(),
                    ph == self.phases@,
                    p == ph[i as int],
                    p.account > 0,
                    !(self.budget matches Some(b) && b < 0),
                    phases_rejection(ph, 0) == phases_rejection(ph, i as int),
                    forall|k: int| 0 <= k < j ==> ph[k].account != p.account,
                decreases i - j,
            {
                if self.phases[j].account == p.account {
                    proof {
                        assert(phase_repeats(ph, i as int));
                    }
                    let mut s = String::from_str("this configuration declares a phase budget for account ");
                    push_decimal(&mut s, p.account as i128);
                    s.append(" twice. A figure cited against that account could not pick one");
                    assert(s@ =~= phase_row_rejection(ph, i as int).unwrap().1);
                    return refuse(Reason::PhaseTwice, s);
                }
                j = j + 1;
            }
            if let Some(b) = p.budget {
                if b < 0 {
                    return refuse_not_negative(Reason::NegativePhaseBudget, "phase budget");
                }
            }
            i = i + 1;
        }
        Ok(())
    }
}

// ------------------------------------------------------------------ household

/// The refusal of envelope `i` on its own.
pub open spec fn envelope_row_rejection(e: Seq<(String, i64)>, i: int) -> Option<Rejected> {
    let k = e[i].0@;
    if parse_int(k) is None {
        Some((Reason::EnvelopeNotADimension,
            "household envelope "@ + quoted(k)
                + " is not a chart dimension — keys are the decimal dim `chart_for(Personal)` writes (10 living expenses, 11 taxes)"@))
    } else if e[i].1 < 0 {
        Some((Reason::NegativeEnvelope,
            "household envelope "@ + k + " is not negative — it is an authorized magnitude, not a posting"@))
    } else {
        None
    }
}

/// The first refusal among the envelopes from `i` on.
pub open spec fn envelopes_rejection(e: Seq<(String, i64)>, i: int) -> Option<Rejected>
    decreases e.len() - i,
{
    if i < 0 || i >= e.len() {
        None
    } else {
        first_of(envelope_row_rejection(e, i), envelopes_rejection(e, i + 1))
    }
}

/// The refusal of loan `i` on its own.
pub open spec fn loan_row_rejection(l: Seq<(String, i64)>, i: int) -> Option<Rejected> {
    let k = l[i].0@;
    let interest = l[i].1;
    match parse_int(k) {
        None => Some((Reason::LoanNotADimension,
            "household loan "@ + quoted(k)
                + " is not a chart dimension — keys are the decimal dimension (41, 42, 43), not a name"@)),
        Some(dim) => if dim <= 0 {
            Some((Reason::LoanNotPositive,
                "household loan "@ + k + " is not a chart dimension — dimensions are positive"@))
        } else if interest <= 0 {
            Some((Reason::InterestNotADimension,
                "household loan "@ + k
                    + " interest is not a chart dimension — values are the interest-expense dimension (12, 13, 14)"@))
        } else if dim == interest {
            Some((Reason::LoanIsItsOwnInterest,
                "household loan "@ + k
                    + " cannot use itself as the interest expense — the liability and the expense are two accounts"@))
        } else {
            None
        },
    }
}

/// The first refusal among the loans from `i` on.
pub open spec fn loans_rejection(l: Seq<(String, i64)>, i: int) -> Option<Rejected>
    decreases l.len() - i,
{
    if i < 0 || i >= l.len() {
        None
    } else {
        first_of(loan_row_rejection(l, i), loans_rejection(l, i + 1))
    }
}

/// The refusal of a household's terms.
pub open spec fn personal_rejection(p: PersonalTerms) -> Option<Rejected> {
    if p.budget matches Some(b) && b < 0 {
        Some((Reason::NegativeHouseholdBudget, not_negative_text("household budget"@)))
    } else {
        first_of(envelopes_rejection(p.envelope@, 0), loans_rejection(p.loan@, 0))
    }
}

impl PersonalTerms {
    /// A negative budget inverts variance; a key that is not a chart
    /// dimension, or an interest account equal to its liability, puts a
    /// schedule on a number nobody can cite.
    pub fn check(&self) -> (r: Result<(), Rejection>)
        ensures
            outcome(r) == personal_rejection(*self),
    {
        if let Some(b) = self.budget {
            if b < 0 {
                return refuse_not_negative(Reason::NegativeHouseholdBudget, "household budget");
            }
        }
        let ghost e = self.envelope@;
        let mut i: usize = 0;
        while i < self.envelope.len()
            invariant
                0 <= i <= e.len(),
                e == self.envelope@,
                !(self.budget matches Some(b) && b < 0),
                envelopes_rejection(e, 0) == envelopes_rejection(e, i as int),
            decreases e.len() - i,
        {
            let k = self.envelope[i].0.as_str();
            if parse_i64(k).is_none() {
                let mut s = String::from_str("household envelope ");
                push_quoted(&mut s, k);
                s.append(" is not a chart dimension — keys are the decimal dim `chart_for(Personal)` writes (10 living expenses, 11 taxes)");
                assert(s@ =~= envelope_row_rejection(e, i as int).unwrap().1);
                return refuse(Reason::EnvelopeNotADimension, s);
            }
            if self.envelope[i].1 < 0 {
                let mut s = String::from_str("household envelope ");
                s.append(k);
                s.append(" is not negative — it is an authorized magnitude, not a posting");
                assert(s@ =~= envelope_row_rejection(e, i as int).unwrap().1);
                return refuse(Reason::NegativeEnvelope, s);
            }
            i = i + 1;
        }
        assert(envelopes_rejection(e, 0) is None);
        let ghost l = self.loan@;
        let mut i: usize = 0;
        while i < self.loan.len()
            invariant
                0 <= i <= l.len(),
                l == self.loan@,
                !(self.budget matches Some(b) && b < 0),
                envelopes_rejection(self.envelope@, 0) is None,
                loans_rejection(l, 0) == loans_rejection(l, i as int),
            decreases l.len() - i,
        {
            let k = self.loan[i].0.as_str();
            let interest = self.loan[i].1;
            let dim = match parse_i64(k) {
                Some(d) => d,
                None => {
                    let mut s = String::from_str("household loan ");
                    push_quoted(&mut s, k);
                    s.append(" is not a chart dimension — keys are the decimal dimension (41, 42, 43), not a name");
                    assert(s@ =~= loan_row_rejection(l, i as int).unwrap().1);
                    return refuse(Reason::LoanNotADimension, s);
                },
            };
            if dim <= 0 {
                let mut s = String::from_str("household loan ");
                s.append(k);
                s.append(" is not a chart dimension — dimensions are positive");
                assert(s@ =~= loan_row_rejection(l, i as int).unwrap().1);
                return refuse(Reason::LoanNotPositive, s);
            }
            if interest <= 0 {
                let mut s = String::from_str("household loan ");
                s.append(k);
                s.append(" interest is not a chart dimension — values are the interest-expense dimension (12, 13, 14)");
                assert(s@ =~= loan_row_rejection(l, i as int).unwrap().1);
                return refuse(Reason::InterestNotADimension, s);
            }
            if dim == interest {
                let mut s = String::from_str("household loan ");
                s.append(k);
                s.append(" cannot use itself as the interest expense — the liability and the expense are two accounts");
                assert(s@ =~= loan_row_rejection(l, i as int).unwrap().1);
                return refuse(Reason::LoanIsItsOwnInterest, s);
            }
            i = i + 1;
        }
        Ok(())
    }
}

// ---------------------------------------------------------------------- views

/// Whether a character may stand in a view id.
pub open spec fn id_char(c: char) -> bool {
    ('a' <= c && c <= 'z') || ('0' <= c && c <= '9') || c == '-'
}

/// Whether a view id can be a URL segment and a field of a strike record.
pub open spec fn usable_view_id(id: Seq<char>) -> bool {
    id.len() > 0 && forall|k: int| 0 <= k < id.len() ==> #[trigger] id_char(id[k])
}

/// Whether a configuration declares a calendar with this id.
pub open spec fn declares_calendar(cals: Seq<Calendar>, id: Seq<char>) -> bool {
    exists|k: int| 0 <= k < cals.len() && #[trigger] cals[k].id@ == id
}

/// The refusal of a view on its own, against the calendars declared beside it.
pub open spec fn view_rejection(v: crate::rules::View, cals: Seq<Calendar>) -> Option<Rejected> {
    let q = quoted(v.id@);
    if !usable_view_id(v.id@) {
        Some((Reason::ViewIdUnusable,
            "view id "@ + q
                + " is not usable: an id becomes a URL segment and a field in the NAVS record, so it must be lowercase letters, digits and hyphens"@))
    } else if v.basis == Basis::Settlement {
        match v.settles_in {
            None => Some((Reason::SettlementDaysMissing,
                "view "@ + q
                    + " settles but does not say in how many days. Set `settles_in` — a market settling two days after the trade is `settles_in = 2`"@)),
            Some(days) => if !(0 <= days <= 30) {
                Some((Reason::SettlementDaysOutOfRange,
                    "view "@ + q + " settles in "@ + decimal(days as int)
                        + " days, which is not a settlement convention any market uses. Nothing here rolls further than 30"@))
            } else {
                match v.calendar {
                    None => Some((Reason::SettlementCalendarMissing,
                        "view "@ + q + " settles in "@ + decimal(days as int)
                            + " days and names no calendar. Which days is the market shut? Declare a `[[calendar]]` and point `calendar` at its id — rolling over an unstated calendar would settle trades on weekends"@)),
                    Some(named) => if !declares_calendar(cals, named@) {
                        Some((Reason::SettlementCalendarUnknown,
                            "view "@ + q + " rolls over calendar "@ + quoted(named@)
                                + ", which this configuration does not declare. Add a `[[calendar]]` with that id, or point the view at one that exists"@))
                    } else {
                        None
                    },
                }
            },
        }
    } else if v.settles_in is Some {
        Some((Reason::SettlementDaysOnOtherBasis,
            "view "@ + q + " is a "@ + basis_text(v.basis)
                + " view and carries `settles_in`, which only a settlement view reads. Did you mean `basis = \"settlement\"`?"@))
    } else {
        None
    }
}

fn usable_id(id: &str) -> (r: bool)
    ensures
        r == usable_view_id(id@),
{
    let cs = crate::text::chars_of(id);
    if cs.len() == 0 {
        return false;
    }
    let mut k: usize = 0;
    while k < cs.len()
        invariant
            0 <= k <= cs@.len(),
            cs@ == id@,
            forall|j: int| 0 <= j < k ==> #[trigger] id_char(cs@[j]),
        decreases cs@.len() - k,
    {
        let c = cs[k];
        if !(('a' <= c && c <= 'z') || ('0' <= c && c <= '9') || c == '-') {
            assert(!id_char(cs@[k as int]));
            return false;
        }
        k = k + 1;
    }
    true
}

impl crate::rules::View {
    /// Whether a view is usable at all, against the calendars declared beside
    /// it: an id fit for a URL segment, and a settlement convention that says
    /// how many days and over which declared calendar.
    pub fn check(&self, calendars: &[Calendar]) -> (r: Result<(), Rejection>)
        ensures
            outcome(r) == view_rejection(*self, calendars@),
    {
        if !usable_id(self.id.as_str()) {
            let mut s = String::from_str("view id ");
            push_quoted(&mut s, self.id.as_str());
            s.append(" is not usable: an id becomes a URL segment and a field in the NAVS record, so it must be lowercase letters, digits and hyphens");
            assert(s@ =~= view_rejection(*self, calendars@).unwrap().1);
            return refuse(Reason::ViewIdUnusable, s);
        }
        match self.basis {
            Basis::Settlement => {
                let days = match self.settles_in {
                    Some(d) => d,
                    None => {
                        let mut s = String::from_str("view ");
                        push_quoted(&mut s, self.id.as_str());
                        s.append(" settles but does not say in how many days. Set `settles_in` — a market settling two days after the trade is `settles_in = 2`");
                        assert(s@ =~= view_rejection(*self, calendars@).unwrap().1);
                        return refuse(Reason::SettlementDaysMissing, s);
                    },
                };
                if days < 0 || days > 30 {
                    let mut s = String::from_str("view ");
                    push_quoted(&mut s, self.id.as_str());
                    s.append(" settles in ");
                    push_decimal(&mut s, days as i128);
                    s.append(" days, which is not a settlement convention any market uses. Nothing here rolls further than 30");
                    assert(s@ =~= view_rejection(*self, calendars@).unwrap().1);
                    return refuse(Reason::SettlementDaysOutOfRange, s);
                }
                let named = match &self.calendar {
                    Some(c) => c,
                    None => {
                        let mut s = String::from_str("view ");
                        push_quoted(&mut s, self.id.as_str());
                        s.append(" settles in ");
                        push_decimal(&mut s, days as i128);
                        s.append(" days and names no calendar. Which days is the market shut? Declare a `[[calendar]]` and point `calendar` at its id — rolling over an unstated calendar would settle trades on weekends");
                        assert(s@ =~= view_rejection(*self, calendars@).unwrap().1);
                        return refuse(Reason::SettlementCalendarMissing, s);
                    },
                };
                let mut k: usize = 0;
                let mut found = false;
                while k < calendars.len()
                    invariant
                        0 <= k <= calendars@.len(),
                        found == exists|j: int| 0 <= j < k && #[trigger] calendars@[j].id@ == named@,
                    decreases calendars@.len() - k,
                {
                    if calendars[k].id == *named {
                        found = true;
                    }
                    k = k + 1;
                }
                if !found {
                    let mut s = String::from_str("view ");
                    push_quoted(&mut s, self.id.as_str());
                    s.append(" rolls over calendar ");
                    push_quoted(&mut s, named.as_str());
                    s.append(", which this configuration does not declare. Add a `[[calendar]]` with that id, or point the view at one that exists");
                    assert(s@ =~= view_rejection(*self, calendars@).unwrap().1);
                    return refuse(Reason::SettlementCalendarUnknown, s);
                }
                Ok(())
            },
            Basis::Recorded | Basis::Trade => {
                if self.settles_in.is_some() {
                    let mut s = String::from_str("view ");
                    push_quoted(&mut s, self.id.as_str());
                    s.append(" is a ");
                    s.append(self.basis.as_declared());
                    s.append(" view and carries `settles_in`, which only a settlement view reads. Did you mean `basis = \"settlement\"`?");
                    assert(s@ =~= view_rejection(*self, calendars@).unwrap().1);
                    return refuse(Reason::SettlementDaysOnOtherBasis, s);
                }
                Ok(())
            },
        }
    }
}

// -------------------------------------------------------------- whole config

/// The first refusal among the calendars from `i` on.
pub open spec fn calendars_rejection(cals: Seq<Calendar>, i: int) -> Option<Rejected>
    decreases cals.len() - i,
{
    if i < 0 || i >= cals.len() {
        None
    } else {
        first_of(calendar_rejection(cals[i]), calendars_rejection(cals, i + 1))
    }
}

/// Whether an earlier view has the id of view `i`.
pub open spec fn view_repeats(views: Seq<crate::rules::View>, i: int) -> bool {
    exists|j: int| 0 <= j < i && #[trigger] views[j].id@ == views[i].id@
}

/// The refusal of view `i` within its configuration.
pub open spec fn view_row_rejection(views: Seq<crate::rules::View>, cals: Seq<Calendar>, i: int) -> Option<Rejected> {
    first_of(view_rejection(views[i], cals),
        if view_repeats(views, i) {
            Some((Reason::ViewTwice,
                "this configuration declares view "@ + quoted(views[i].id@)
                    + " twice. A figure recorded against that id could not be attributed to either one"@))
        } else if views[i].id@ == UNDECLARED_VIEW@ {
            Some((Reason::ViewTakesUndeclaredId,
                quoted(UNDECLARED_VIEW@)
                    + " is the id a book with NO declared views has, so a declared view cannot take it — the two would be indistinguishable, and an election nobody made would read as one somebody did"@))
        } else {
            None
        })
}

/// The first refusal among the views from `i` on.
pub open spec fn views_rejection(views: Seq<crate::rules::View>, cals: Seq<Calendar>, i: int) -> Option<Rejected>
    decreases views.len() - i,
{
    if i < 0 || i >= views.len() {
        None
    } else {
        first_of(view_row_rejection(views, cals, i), views_rejection(views, cals, i + 1))
    }
}

/// The refusal of a negative wash window.
pub open spec fn window_rejection(set: RuleSet) -> Option<Rejected> {
    match set.wash_window_days {
        Some(w) => if w < 0 {
            Some((Reason::NegativeWashWindow,
                "wash_window_days is "@ + decimal(w as int)
                    + ", and a negative window is not a window — every repurchase would sit outside it, and a loss the rule defers would be recognized in full"@))
        } else {
            None
        },
        None => None,
    }
}

/// The refusal of a min-tax election: a weight that is not one, or one made
/// beside a lot method.
pub open spec fn min_tax_rejection(set: RuleSet) -> Option<Rejected> {
    match set.min_tax_short_weight {
        Some(w) => if w <= 0 {
            Some((Reason::NotAMinTaxWeight,
                "min_tax_short_weight is "@ + decimal(w as int)
                    + ", and a non-positive weight is not a weight — short-term results would cost nothing or the opposite of what the election says"@))
        } else if set.lot_method is Some {
            Some((Reason::MinTaxWithLotMethod,
                "this configuration elects both lot_method and min_tax_short_weight. Min-tax is not an ordering — it ranks at the SALE PRICE — and the two cannot govern the same sales. Drop lot_method, or drop min_tax_short_weight. See Ratio.Lots.MinTax"@))
        } else {
            None
        },
        None => None,
    }
}

/// The refusal of an average-cost election: `false`, or one made beside
/// another election.
pub open spec fn average_cost_rejection(set: RuleSet) -> Option<Rejected> {
    match set.average_cost {
        Some(flag) => if !flag {
            Some((Reason::AverageCostDenied,
                "average_cost = false is not an election — omit the field. None means nobody said. See Ratio.Lots.AverageCost"@))
        } else if set.lot_method is Some {
            Some((Reason::AverageCostWithLotMethod,
                "this configuration elects both lot_method and average_cost. Average cost is not an ordering — it POOLS the holding — and the two cannot govern the same sales. Drop lot_method, or drop average_cost. See Ratio.Lots.AverageCost"@))
        } else if set.min_tax_short_weight is Some {
            Some((Reason::AverageCostWithMinTax,
                "this configuration elects both min_tax_short_weight and average_cost. One ranks at a SALE PRICE; the other POOLS. Two answers for one sale. Drop min_tax_short_weight, or drop average_cost. See Ratio.Lots.AverageCost"@))
        } else {
            None
        },
        None => None,
    }
}

/// The refusal of a keep election: `false`, or one without a window.
pub open spec fn keep_rejection(set: RuleSet) -> Option<Rejected> {
    match set.wash_keep_holding_period {
        Some(flag) => if !flag {
            Some((Reason::KeepDenied,
                "wash_keep_holding_period = false is not an election — omit the field. None means nobody said, and the US transfer already named in Ratio.Lots.Wash.replacementAcquired stays in force. See Ratio.Lots.WashHolding"@))
        } else if set.wash_window_days is None {
            Some((Reason::KeepWithoutWindow,
                "this configuration elects wash_keep_holding_period without wash_window_days. A holding-period variant of a wash nobody named cannot be applied. Write the window, or omit the keep. See Ratio.Lots.WashHolding"@))
        } else {
            None
        },
        None => None,
    }
}

/// The first refusal of a configuration, in the order the checks run: chart
/// roles, tolerance, wash window, min-tax, average cost, keep, calendars,
/// project, household, partner cut, specials, views.
pub open spec fn config_rejection(set: RuleSet) -> Option<Rejected> {
    first_of(match set.chart_roles { Some(r) => roles_rejection(r), None => None },
    first_of(match set.tolerance { Some(t) => tolerance_rejection(t), None => None },
    first_of(window_rejection(set),
    first_of(min_tax_rejection(set),
    first_of(average_cost_rejection(set),
    first_of(keep_rejection(set),
    first_of(calendars_rejection(set.calendars@, 0),
    first_of(match set.project { Some(p) => project_rejection(p), None => None },
    first_of(match set.personal { Some(p) => personal_rejection(p), None => None },
    first_of(crate::partners::cut_rejection(set.partner_cut@, 0),
    first_of(crate::partners::specials_rejection(set.special_allocations@, 0),
    views_rejection(set.views@, set.calendars@, 0))))))))))))
}

impl RuleSet {
    fn check_elections(&self) -> (r: Result<(), Rejection>)
        ensures
            outcome(r) == first_of(window_rejection(*self),
                first_of(min_tax_rejection(*self),
                first_of(average_cost_rejection(*self), keep_rejection(*self)))),
    {
        if let Some(w) = self.wash_window_days {
            if w < 0 {
                let mut s = String::from_str("wash_window_days is ");
                push_decimal(&mut s, w as i128);
                s.append(", and a negative window is not a window — every repurchase would sit outside it, and a loss the rule defers would be recognized in full");
                assert(s@ =~= window_rejection(*self).unwrap().1);
                return refuse(Reason::NegativeWashWindow, s);
            }
        }
        if let Some(w) = self.min_tax_short_weight {
            if w <= 0 {
                let mut s = String::from_str("min_tax_short_weight is ");
                push_decimal(&mut s, w as i128);
                s.append(", and a non-positive weight is not a weight — short-term results would cost nothing or the opposite of what the election says");
                assert(s@ =~= min_tax_rejection(*self).unwrap().1);
                return refuse(Reason::NotAMinTaxWeight, s);
            }
            if self.lot_method.is_some() {
                return refuse(Reason::MinTaxWithLotMethod, String::from_str("this configuration elects both lot_method and min_tax_short_weight. Min-tax is not an ordering — it ranks at the SALE PRICE — and the two cannot govern the same sales. Drop lot_method, or drop min_tax_short_weight. See Ratio.Lots.MinTax"));
            }
        }
        if let Some(flag) = self.average_cost {
            if !flag {
                return refuse(Reason::AverageCostDenied, String::from_str("average_cost = false is not an election — omit the field. None means nobody said. See Ratio.Lots.AverageCost"));
            }
            if self.lot_method.is_some() {
                return refuse(Reason::AverageCostWithLotMethod, String::from_str("this configuration elects both lot_method and average_cost. Average cost is not an ordering — it POOLS the holding — and the two cannot govern the same sales. Drop lot_method, or drop average_cost. See Ratio.Lots.AverageCost"));
            }
            if self.min_tax_short_weight.is_some() {
                return refuse(Reason::AverageCostWithMinTax, String::from_str("this configuration elects both min_tax_short_weight and average_cost. One ranks at a SALE PRICE; the other POOLS. Two answers for one sale. Drop min_tax_short_weight, or drop average_cost. See Ratio.Lots.AverageCost"));
            }
        }
        if let Some(flag) = self.wash_keep_holding_period {
            if !flag {
                return refuse(Reason::KeepDenied, String::from_str("wash_keep_holding_period = false is not an election — omit the field. None means nobody said, and the US transfer already named in Ratio.Lots.Wash.replacementAcquired stays in force. See Ratio.Lots.WashHolding"));
            }
            if self.wash_window_days.is_none() {
                return refuse(Reason::KeepWithoutWindow, String::from_str("this configuration elects wash_keep_holding_period without wash_window_days. A holding-period variant of a wash nobody named cannot be applied. Write the window, or omit the keep. See Ratio.Lots.WashHolding"));
            }
        }
        Ok(())
    }

    fn check_calendars(&self) -> (r: Result<(), Rejection>)
        ensures
            outcome(r) == calendars_rejection(self.calendars@, 0),
    {
        let ghost c = self.calendars@;
        let mut i: usize = 0;
        while i < self.calendars.len()
            invariant
                0 <= i <= c.len(),
                c == self.calendars@,
                calendars_rejection(c, 0) == calendars_rejection(c, i as int),
            decreases c.len() - i,
        {
            let r = self.calendars[i].check();
            if r.is_err() {
                return r;
            }
            i = i + 1;
        }
        Ok(())
    }

    fn check_views(&self) -> (r: Result<(), Rejection>)
        ensures
            outcome(r) == views_rejection(self.views@, self.calendars@, 0),
    {
        let ghost v = self.views@;
        let ghost c = self.calendars@;
        let mut i: usize = 0;
        while i < self.views.len()
            invariant
                0 <= i <= v.len(),
                v == self.views@,
                c == self.calendars@,
                views_rejection(v, c, 0) == views_rejection(v, c, i as int),
            decreases v.len() - i,
        {
            let r = self.views[i].check(self.calendars.as_slice());
            if r.is_err() {
                return r;
            }
            let mut j: usize = 0;
            while j < i
                invariant
                    0 <= j <= i < v.len(),
                    v == self.views@,
                    c == self.calendars@,
                    view_rejection(v[i as int], c) is None,
                    views_rejection(v, c, 0) == views_rejection(v, c, i as int),
                    forall|k: int| 0 <= k < j ==> v[k].id@ != v[i as int].id@,
                decreases i - j,
            {
                if self.views[j].id == self.views[i].id {
                    assert(view_repeats(v, i as int));
                    let mut s = String::from_str("this configuration declares view ");
                    push_quoted(&mut s, self.views[i].id.as_str());
                    s.append(" twice. A figure recorded against that id could not be attributed to either one");
                    assert(s@ =~= view_row_rejection(v, c, i as int).unwrap().1);
                    return refuse(Reason::ViewTwice, s);
                }
                j = j + 1;
            }
            if crate::text::str_eq(self.views[i].id.as_str(), UNDECLARED_VIEW) {
                let mut s = String::new();
                push_quoted(&mut s, UNDECLARED_VIEW);
                s.append(" is the id a book with NO declared views has, so a declared view cannot take it — the two would be indistinguishable, and an election nobody made would read as one somebody did");
                assert(s@ =~= view_row_rejection(v, c, i as int).unwrap().1);
                return refuse(Reason::ViewTakesUndeclaredId, s);
            }
            i = i + 1;
        }
        Ok(())
    }

    /// The checks a configuration passes when it is read, in order; the first
    /// that fails is the answer.
    pub fn validate(&self) -> (r: Result<(), Rejection>)
        ensures
            outcome(r) == config_rejection(*self),
    {
        if let Some(roles) = &self.chart_roles {
            let r = roles.check();
            if r.is_err() {
                return r;
            }
        }
        if let Some(t) = &self.tolerance {
            let r = t.check();
            if r.is_err() {
                return r;
            }
        }
        let r = self.check_elections();
        if r.is_err() {
            return r;
        }
        let r = self.check_calendars();
        if r.is_err() {
            return r;
        }
        if let Some(p) = &self.project {
            let r = p.check();
            if r.is_err() {
                return r;
            }
        }
        if let Some(p) = &self.personal {
            let r = p.check();
            if r.is_err() {
                return r;
            }
        }
        let r = crate::partners::check_cut(self.partner_cut.as_slice());
        if r.is_err() {
            return r;
        }
        let r = crate::partners::check_specials(self.special_allocations.as_slice());
        if r.is_err() {
            return r;
        }
        self.check_views()
    }
}

// ----------------------------------------------------- methods not orderings

/// Where the first line of a text ends: the index of its first newline, or
/// the text's length.
pub open spec fn line_end(s: Seq<char>) -> int
    decreases s.len(),
{
    if s.len() == 0 || s[0] == '\n' {
        0
    } else {
        1 + line_end(s.drop_first())
    }
}

/// The index of the first `=` of a line, if it has one.
pub open spec fn first_equals(s: Seq<char>) -> Option<int>
    decreases s.len(),
{
    if s.len() == 0 {
        None
    } else if s[0] == '=' {
        Some(0)
    } else {
        match first_equals(s.drop_first()) {
            Some(i) => Some(i + 1),
            None => None,
        }
    }
}

/// Double quotes removed from the start.
pub open spec fn unquote_start(s: Seq<char>) -> Seq<char>
    decreases s.len(),
{
    if s.len() > 0 && s[0] == '"' { unquote_start(s.drop_first()) } else { s }
}

/// Double quotes removed from the end.
pub open spec fn unquote_end(s: Seq<char>) -> Seq<char>
    decreases s.len(),
{
    if s.len() > 0 && s.last() == '"' { unquote_end(s.drop_last()) } else { s }
}

/// The value a line declares for `lot_method`, if it is such a line: the text
/// after its first `=`, trimmed and with surrounding quotes removed.
pub open spec fn declared_on_line(line: Seq<char>) -> Option<Seq<char>> {
    match first_equals(line) {
        Some(e) => if crate::text::trim(line.take(e)) == "lot_method"@ {
            Some(unquote_end(unquote_start(crate::text::trim(line.skip(e + 1)))))
        } else {
            None
        },
        None => None,
    }
}

/// The value the first `lot_method` line of a text declares.
pub open spec fn declared_method(s: Seq<char>) -> Option<Seq<char>>
    decreases s.len(),
{
    let end = line_end(s);
    proof {
        lemma_line_end_bounds(s);
    }
    match declared_on_line(s.take(end)) {
        Some(v) => Some(v),
        None => if end < s.len() { declared_method(s.skip(end + 1)) } else { None },
    }
}

pub proof fn lemma_line_end_bounds(s: Seq<char>)
    ensures
        0 <= line_end(s) <= s.len(),
    decreases s.len(),
{
    if s.len() > 0 && s[0] != '\n' {
        lemma_line_end_bounds(s.drop_first());
    }
}

/// Why a declared method is not offered as an ordering, if it is one of the
/// shapes that is not.
pub open spec fn not_an_ordering(v: Seq<char>) -> Option<Seq<char>> {
    if v == "min_tax"@ || v == "mintax"@ || v == "minimize_tax"@ || v == "tax_minimising"@ || v == "tax_minimizing"@ {
        Some(min_tax_reason())
    } else if v == "specific_identification"@ || v == "specific_id"@ || v == "specid"@ {
        Some(spec_id_reason())
    } else if v == "average_cost"@ || v == "average"@ || v == "pooled"@ {
        Some(average_reason())
    } else if v == "wash"@ || v == "wash_sale"@ || v == "wash_sales"@ {
        Some(wash_reason())
    } else {
        None
    }
}

/// Why min-tax is not a lot method.
pub open spec fn min_tax_reason() -> Seq<char> {
    "min-tax relief is not an ordering, so it is not a lot method: which lot costs least in tax depends on the SALE PRICE and not on the holding. A short-term LOSS is worth more than a long-term one while a short-term GAIN is worth less, so the same two lots invert between two prices. Elect it with min_tax_short_weight, not lot_method. See Ratio.Lots.MinTax and Ratio.Lots.Methods.a_tax_minimising_method_is_not_a_function_of_the_lots"@
}

/// Why specific identification is not a lot method.
pub open spec fn spec_id_reason() -> Seq<char> {
    "specific identification is not an ordering, so it is not a lot method: the client names the lots PER SALE, possibly from the middle of a holding and possibly partially. It is an instruction carried on the disposal, not a term of the rule set. Carry the names on the sale as identified_lots; an empty list refuses rather than walking FIFO. See Ratio.Lots.SpecId and Ratio.Lots.Methods.specific_identification_takes_from_the_middle"@
}

/// Why average cost is not a lot method.
pub open spec fn average_reason() -> Seq<char> {
    "average cost is not an ordering, so it is not a lot method: it POOLS the holding, so which lot is given up is not a question it answers. It also divides — total cost over total units rarely lands on a whole minor unit — which is a rounding term no ordering method carries. Elect it with average_cost = true, not lot_method. See Ratio.Lots.AverageCost and Ratio.Lots.Methods.average_cost_is_not_a_lot_walk"@
}

/// Why a wash is not a lot method.
pub open spec fn wash_reason() -> Seq<char> {
    "a wash is not an ordering, so it is not a lot method: it DEFERS a loss onto a replacement's basis, and the holding-period rule is which DATE that replacement carries. Elect the window with wash_window_days; elect the non-US keep with wash_keep_holding_period = true. See Ratio.Lots.Wash and Ratio.Lots.WashHolding.choosing_the_wrong_rule_flips_the_rate"@
}

/// Whether characters `from..to` of `cs` are exactly `t`.
fn span_is(cs: &Vec<char>, from: usize, to: usize, t: &str) -> (r: bool)
    requires
        from <= to <= cs@.len(),
    ensures
        r == (cs@.subrange(from as int, to as int) == t@),
{
    let ts = crate::text::chars_of(t);
    if to - from != ts.len() {
        return false;
    }
    let mut k: usize = 0;
    while k < ts.len()
        invariant
            0 <= k <= ts@.len(),
            ts@ == t@,
            from <= to <= cs@.len(),
            to - from == ts@.len(),
            forall|j: int| 0 <= j < k ==> cs@[from + j] == ts@[j],
        decreases ts@.len() - k,
    {
        if cs[from + k] != ts[k] {
            assert(cs@.subrange(from as int, to as int)[k as int] != t@[k as int]);
            return false;
        }
        k = k + 1;
    }
    assert(cs@.subrange(from as int, to as int) =~= t@);
    true
}

/// The reason a declared value is not an ordering, for a value held as
/// characters `from..to` of `cs`.
fn reason_for(cs: &Vec<char>, from: usize, to: usize) -> (r: Option<&'static str>)
    requires
        from <= to <= cs@.len(),
    ensures
        match r {
            Some(m) => not_an_ordering(cs@.subrange(from as int, to as int)) == Some(m@),
            None => not_an_ordering(cs@.subrange(from as int, to as int)) is None,
        },
{
    if span_is(cs, from, to, "min_tax") || span_is(cs, from, to, "mintax") || span_is(cs, from, to, "minimize_tax")
        || span_is(cs, from, to, "tax_minimising") || span_is(cs, from, to, "tax_minimizing") {
        return Some("min-tax relief is not an ordering, so it is not a lot method: which lot costs least in tax depends on the SALE PRICE and not on the holding. A short-term LOSS is worth more than a long-term one while a short-term GAIN is worth less, so the same two lots invert between two prices. Elect it with min_tax_short_weight, not lot_method. See Ratio.Lots.MinTax and Ratio.Lots.Methods.a_tax_minimising_method_is_not_a_function_of_the_lots");
    }
    if span_is(cs, from, to, "specific_identification") || span_is(cs, from, to, "specific_id") || span_is(cs, from, to, "specid") {
        return Some("specific identification is not an ordering, so it is not a lot method: the client names the lots PER SALE, possibly from the middle of a holding and possibly partially. It is an instruction carried on the disposal, not a term of the rule set. Carry the names on the sale as identified_lots; an empty list refuses rather than walking FIFO. See Ratio.Lots.SpecId and Ratio.Lots.Methods.specific_identification_takes_from_the_middle");
    }
    if span_is(cs, from, to, "average_cost") || span_is(cs, from, to, "average") || span_is(cs, from, to, "pooled") {
        return Some("average cost is not an ordering, so it is not a lot method: it POOLS the holding, so which lot is given up is not a question it answers. It also divides — total cost over total units rarely lands on a whole minor unit — which is a rounding term no ordering method carries. Elect it with average_cost = true, not lot_method. See Ratio.Lots.AverageCost and Ratio.Lots.Methods.average_cost_is_not_a_lot_walk");
    }
    if span_is(cs, from, to, "wash") || span_is(cs, from, to, "wash_sale") || span_is(cs, from, to, "wash_sales") {
        return Some("a wash is not an ordering, so it is not a lot method: it DEFERS a loss onto a replacement's basis, and the holding-period rule is which DATE that replacement carries. Elect the window with wash_window_days; elect the non-US keep with wash_keep_holding_period = true. See Ratio.Lots.Wash and Ratio.Lots.WashHolding.choosing_the_wrong_rule_flips_the_rate");
    }
    None
}

/// Whether `cs[i]` is white space.
fn space_at(cs: &Vec<char>, i: usize) -> (r: bool)
    requires
        i < cs@.len(),
    ensures
        r == crate::text::is_space(cs@[i as int]),
{
    crate::text::space(cs[i])
}

proof fn lemma_trim_span(s: Seq<char>, a: int, b: int)
    requires
        0 <= a <= b <= s.len(),
        forall|k: int| 0 <= k < a ==> #[trigger] crate::text::is_space(s[k]),
        forall|k: int| b <= k < s.len() ==> #[trigger] crate::text::is_space(s[k]),
        a < b ==> !crate::text::is_space(s[a]) && !crate::text::is_space(s[b - 1]),
    ensures
        crate::text::trim(s) == s.subrange(a, b),
{
    if a == b {
        assert forall|k: int| 0 <= k < s.len() implies #[trigger] crate::text::is_space(s[k]) by {
            if k >= b {
            }
        }
        lemma_trim_start_skips(s, s.len() as int);
        assert(s.skip(s.len() as int) =~= Seq::<char>::empty());
        assert(crate::text::trim_end(Seq::<char>::empty()) == Seq::<char>::empty());
        assert(s.subrange(a, b) =~= Seq::<char>::empty());
    } else {
        lemma_trim_start_skips(s, a);
        let t = s.skip(a);
        assert(crate::text::trim_start(s) == t);
        assert forall|k: int| b - a <= k < t.len() implies #[trigger] crate::text::is_space(t[k]) by {
            assert(t[k] == s[a + k]);
        }
        assert(t[b - a - 1] == s[b - 1]);
        lemma_trim_end_drops(t, b - a);
        assert(t.take(b - a) =~= s.subrange(a, b));
    }
}

proof fn lemma_trim_start_skips(s: Seq<char>, a: int)
    requires
        0 <= a <= s.len(),
        forall|k: int| 0 <= k < a ==> #[trigger] crate::text::is_space(s[k]),
        a < s.len() ==> !crate::text::is_space(s[a]),
    ensures
        crate::text::trim_start(s) == s.skip(a),
    decreases a,
{
    if a == 0 {
        assert(s.skip(0) =~= s);
    } else {
        let d = s.drop_first();
        assert forall|k: int| 0 <= k < a - 1 implies #[trigger] crate::text::is_space(d[k]) by {
            assert(d[k] == s[k + 1]);
        }
        if a - 1 < d.len() {
            assert(d[a - 1] == s[a]);
        }
        lemma_trim_start_skips(d, a - 1);
        assert(d.skip(a - 1) =~= s.skip(a));
    }
}

proof fn lemma_trim_end_drops(t: Seq<char>, b: int)
    requires
        0 <= b <= t.len(),
        forall|k: int| b <= k < t.len() ==> #[trigger] crate::text::is_space(t[k]),
        b > 0 ==> !crate::text::is_space(t[b - 1]),
    ensures
        crate::text::trim_end(t) == t.take(b),
    decreases t.len() - b,
{
    if b == t.len() {
        assert(t.take(b) =~= t);
    } else {
        let d = t.drop_last();
        assert(crate::text::is_space(t[t.len() - 1]));
        assert forall|k: int| b <= k < d.len() implies #[trigger] crate::text::is_space(d[k]) by {
            assert(d[k] == t[k]);
        }
        lemma_trim_end_drops(d, b);
        assert(d.take(b) =~= t.take(b));
    }
}

/// Trim white space from characters `from..to` of `cs`: the bounds of what is
/// left.
fn trim_span(cs: &Vec<char>, from: usize, to: usize) -> (r: (usize, usize))
    requires
        from <= to <= cs@.len(),
    ensures
        from <= r.0 <= r.1 <= to,
        crate::text::trim(cs@.subrange(from as int, to as int)) == cs@.subrange(r.0 as int, r.1 as int),
{
    let mut a = from;
    while a < to && space_at(cs, a)
        invariant
            from <= a <= to <= cs@.len(),
            forall|k: int| from <= k < a ==> #[trigger] crate::text::is_space(cs@[k]),
        decreases to - a,
    {
        a = a + 1;
    }
    let mut b = to;
    while b > a && space_at(cs, b - 1)
        invariant
            from <= a <= b <= to <= cs@.len(),
            forall|k: int| b <= k < to ==> #[trigger] crate::text::is_space(cs@[k]),
        decreases b,
    {
        b = b - 1;
    }
    proof {
        let s = cs@.subrange(from as int, to as int);
        assert forall|k: int| 0 <= k < a - from implies #[trigger] crate::text::is_space(s[k]) by {
            assert(s[k] == cs@[from + k]);
        }
        assert forall|k: int| b - from <= k < s.len() implies #[trigger] crate::text::is_space(s[k]) by {
            assert(s[k] == cs@[from + k]);
        }
        if a < b {
            assert(s[a - from] == cs@[a as int]);
            assert(s[b - 1 - from] == cs@[b - 1]);
        }
        if a < to && a == b {
            assert(s[a - from] == cs@[a as int]);
        }
        lemma_trim_span(s, a - from, b - from);
        assert(s.subrange(a - from, b - from) =~= cs@.subrange(a as int, b as int));
    }
    (a, b)
}

proof fn lemma_unquote(s: Seq<char>, a: int, b: int)
    requires
        0 <= a <= b <= s.len(),
        forall|k: int| 0 <= k < a ==> s[k] == '"',
        forall|k: int| b <= k < s.len() ==> s[k] == '"',
        a < b ==> s[a] != '"' && s[b - 1] != '"',
        a == b ==> b == s.len(),
    ensures
        unquote_end(unquote_start(s)) == s.subrange(a, b),
    decreases s.len(),
{
    if a > 0 {
        let d = s.drop_first();
        assert forall|k: int| 0 <= k < a - 1 implies d[k] == '"' by {
            assert(d[k] == s[k + 1]);
        }
        assert forall|k: int| b - 1 <= k < d.len() implies d[k] == '"' by {
            assert(d[k] == s[k + 1]);
        }
        if a - 1 < b - 1 {
            assert(d[a - 1] == s[a]);
            assert(d[b - 2] == s[b - 1]);
        }
        lemma_unquote(d, a - 1, b - 1);
        assert(d.subrange(a - 1, b - 1) =~= s.subrange(a, b));
    } else {
        assert(unquote_start(s) == s);
        lemma_unquote_end(s, b);
    }
}

proof fn lemma_unquote_end(s: Seq<char>, b: int)
    requires
        0 <= b <= s.len(),
        forall|k: int| b <= k < s.len() ==> s[k] == '"',
        b > 0 ==> s[b - 1] != '"',
    ensures
        unquote_end(s) == s.subrange(0, b),
    decreases s.len() - b,
{
    if b == s.len() {
        assert(s.subrange(0, b) =~= s);
    } else {
        let d = s.drop_last();
        assert(s.last() == '"');
        assert forall|k: int| b <= k < d.len() implies d[k] == '"' by {
            assert(d[k] == s[k]);
        }
        lemma_unquote_end(d, b);
        assert(d.subrange(0, b) =~= s.subrange(0, b));
    }
}

/// Remove double quotes from both ends of characters `from..to` of `cs`.
fn unquote_span(cs: &Vec<char>, from: usize, to: usize) -> (r: (usize, usize))
    requires
        from <= to <= cs@.len(),
    ensures
        from <= r.0 <= r.1 <= to,
        unquote_end(unquote_start(cs@.subrange(from as int, to as int))) == cs@.subrange(r.0 as int, r.1 as int),
{
    let mut a = from;
    while a < to && cs[a] == '"'
        invariant
            from <= a <= to <= cs@.len(),
            forall|k: int| from <= k < a ==> cs@[k] == '"',
        decreases to - a,
    {
        a = a + 1;
    }
    let mut b = to;
    if a < to {
        while b > a && cs[b - 1] == '"'
            invariant
                from <= a < to <= cs@.len(),
                a <= b <= to,
                cs@[a as int] != '"',
                forall|k: int| b <= k < to ==> cs@[k] == '"',
            decreases b,
        {
            b = b - 1;
        }
    }
    proof {
        let s = cs@.subrange(from as int, to as int);
        assert forall|k: int| 0 <= k < a - from implies s[k] == '"' by {
            assert(s[k] == cs@[from + k]);
        }
        assert forall|k: int| b - from <= k < s.len() implies s[k] == '"' by {
            assert(s[k] == cs@[from + k]);
        }
        if a < b {
            assert(s[a - from] == cs@[a as int]);
            assert(s[b - 1 - from] == cs@[b - 1]);
        }
        lemma_unquote(s, a - from, b - from);
        assert(s.subrange(a - from, b - from) =~= cs@.subrange(a as int, b as int));
    }
    (a, b)
}

/// A method this engine knows about and deliberately does not offer as an
/// ordering, with the reason: read from the first `lot_method` line of a
/// configuration's text, because by the time the schema has refused the value
/// there is no value left to inspect.
pub fn unsupported_method(toml_src: &str) -> (r: Option<&'static str>)
    ensures
        match r {
            Some(m) => declared_method(toml_src@) matches Some(v) && not_an_ordering(v) == Some(m@),
            None => match declared_method(toml_src@) {
                Some(v) => not_an_ordering(v) is None,
                None => true,
            },
        },
{
    let cs = crate::text::chars_of(toml_src);
    let n = cs.len();
    let mut p: usize = 0;
    assert(cs@.skip(0) =~= cs@);
    while p <= n
        invariant
            p <= n + 1,
            n == cs@.len(),
            cs@ == toml_src@,
            p <= n ==> declared_method(toml_src@) == declared_method(cs@.skip(p as int)),
            p > n ==> declared_method(toml_src@) is None,
        decreases n + 1 - p,
    {
        let ghost rest = cs@.skip(p as int);
        // the end of this line
        let mut e = p;
        while e < n && cs[e] != '\n'
            invariant
                p <= e <= n,
                n == cs@.len(),
                forall|k: int| p <= k < e ==> cs@[k] != '\n',
            decreases n - e,
        {
            e = e + 1;
        }
        proof {
            lemma_line_end(rest, e - p, cs@, p as int);
        }
        // the first '=' of the line
        let mut q = p;
        while q < e && cs[q] != '='
            invariant
                p <= q <= e <= n,
                n == cs@.len(),
                forall|k: int| p <= k < q ==> cs@[k] != '=',
            decreases e - q,
        {
            q = q + 1;
        }
        let ghost line = rest.take(e - p);
        assert(line =~= cs@.subrange(p as int, e as int));
        proof {
            lemma_first_equals(line, q - p, cs@, p as int);
        }
        if q < e {
            let (ka, kb) = trim_span(&cs, p, q);
            assert(line.take(q - p) =~= cs@.subrange(p as int, q as int));
            if span_is(&cs, ka, kb, "lot_method") {
                let (va, vb) = trim_span(&cs, q + 1, e);
                assert(line.skip(q - p + 1) =~= cs@.subrange(q + 1, e as int));
                let (ua, ub) = unquote_span(&cs, va, vb);
                assert(cs@.subrange(va as int, vb as int) == crate::text::trim(line.skip(q - p + 1)));
                assert(declared_on_line(line) == Some(cs@.subrange(ua as int, ub as int)));
                return reason_for(&cs, ua, ub);
            }
        }
        assert(declared_on_line(line) is None);
        if e == n {
            return None;
        }
        assert(rest.skip(e - p + 1) =~= cs@.skip(e + 1));
        p = e + 1;
    }
    None
}

proof fn lemma_line_end(rest: Seq<char>, len: int, cs: Seq<char>, p: int)
    requires
        0 <= p <= cs.len(),
        rest == cs.skip(p),
        0 <= len <= rest.len(),
        forall|k: int| p <= k < p + len ==> cs[k] != '\n',
        p + len < cs.len() ==> cs[p + len] == '\n',
    ensures
        line_end(rest) == len,
    decreases len,
{
    if len == 0 {
        if rest.len() > 0 {
            assert(rest[0] == cs[p]);
        }
    } else {
        assert(rest[0] == cs[p]);
        assert(rest.drop_first() =~= cs.skip(p + 1));
        lemma_line_end(rest.drop_first(), len - 1, cs, p + 1);
    }
}

proof fn lemma_first_equals(line: Seq<char>, q: int, cs: Seq<char>, p: int)
    requires
        0 <= p,
        0 <= q <= line.len(),
        p + line.len() <= cs.len(),
        line == cs.subrange(p, p + line.len()),
        forall|k: int| p <= k < p + q ==> cs[k] != '=',
        q < line.len() ==> cs[p + q] == '=',
    ensures
        q < line.len() ==> first_equals(line) == Some(q),
        q == line.len() ==> first_equals(line) is None,
    decreases q,
{
    if q == 0 {
        if line.len() > 0 {
            assert(line[0] == cs[p]);
        }
    } else {
        assert(line[0] == cs[p]);
        let d = line.drop_first();
        assert(d =~= cs.subrange(p + 1, p + 1 + d.len()));
        lemma_first_equals(d, q - 1, cs, p + 1);
    }
}

} // verus!
