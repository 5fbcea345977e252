//! Posting rules and the configuration that carries them.
//!
//! A rule is data: a kind, and a template of weights that a posting scales by
//! an amount. A template whose weights net to zero nets to zero at every
//! amount, so a rule checked once is balanced by theorem every time it posts.
//! Every other field of a configuration is a term of an agreement, and the
//! absence of a term is kept apart from any default the engine falls back on.

use vstd::prelude::*;
use vstd::string::*;
use vstd::view::View as _;
use crate::partners::{PartnerShare, SpecialAllocation};

verus! {

/// What triggers a rule, and so how its amount is derived.
#[derive(Clone, Copy, Debug, PartialEq, Eq, Structural)]
pub enum RuleKind {
    /// The amount is given by the event.
    Trade,
    /// The amount is given by the event.
    Dividend,
    /// The amount is computed from a basis, a rate and a period.
    Accrual,
    /// The amount is the difference between carrying value and market value.
    Mark,
}

/// How a kind of rule is named in a finding.
pub open spec fn kind_text(k: RuleKind) -> Seq<char> {
    match k {
        RuleKind::Trade => "trade"@,
        RuleKind::Dividend => "dividend"@,
        RuleKind::Accrual => "accrual"@,
        RuleKind::Mark => "mark"@,
    }
}

/// The word for a kind of rule.
pub(crate) fn kind_word(k: RuleKind) -> (r: &'static str)
    ensures
        r@ == kind_text(k),
{
    match k {
        RuleKind::Trade => {
            proof { reveal_strlit("trade"); }
            "trade"
        },
        RuleKind::Dividend => {
            proof { reveal_strlit("dividend"); }
            "dividend"
        },
        RuleKind::Accrual => {
            proof { reveal_strlit("accrual"); }
            "accrual"
        },
        RuleKind::Mark => {
            proof { reveal_strlit("mark"); }
            "mark"
        },
    }
}

/// The day-count convention an accrual is computed on.
#[derive(Clone, Copy, Debug, PartialEq, Eq, Structural)]
pub enum DayCount {
    /// Actual days over 365.
    Act365,
    /// Actual days over 360.
    Act360,
    /// Thirty-day months over 360.
    Thirty360,
}

/// The year a convention divides by, in days.
pub open spec fn day_count_denominator(d: DayCount) -> int {
    match d {
        DayCount::Act365 => 365,
        DayCount::Act360 => 360,
        DayCount::Thirty360 => 360,
    }
}

/// How a convention is written in a rule.
pub open spec fn day_count_text(d: DayCount) -> Seq<char> {
    match d {
        DayCount::Act365 => "act/365"@,
        DayCount::Act360 => "act/360"@,
        DayCount::Thirty360 => "30/360"@,
    }
}

impl DayCount {
    /// The denominator, in days.
    pub fn denominator(self) -> (r: i128)
        ensures
            r == day_count_denominator(self),
    {
        match self {
            DayCount::Act365 => 365,
            DayCount::Act360 => 360,
            DayCount::Thirty360 => 360,
        }
    }

    /// How it is written in a rule and on a report.
    pub fn as_str(self) -> (r: &'static str)
        ensures
            r@ == day_count_text(self),
    {
        match self {
            DayCount::Act365 => {
                proof { reveal_strlit("act/365"); }
                "act/365"
            },
            DayCount::Act360 => {
                proof { reveal_strlit("act/360"); }
                "act/360"
            },
            DayCount::Thirty360 => {
                proof { reveal_strlit("30/360"); }
                "30/360"
            },
        }
    }
}

/// One leg of a posting template: an account, and its multiple of the amount.
#[derive(Clone, Copy, Debug, PartialEq, Eq, Structural)]
pub struct Leg {
    /// The account this leg posts to.
    pub account: i64,
    /// Positive debits, negative credits.
    pub weight: i64,
    /// Whether the leg is held per instrument.
    pub per_instrument: bool,
}

/// A posting rule.
#[derive(Clone, Debug, PartialEq, Eq)]
pub struct Rule {
    /// Stable identifier.
    pub id: String,
    pub kind: RuleKind,
    /// What it is, in the words of whoever approved it.
    pub description: String,
    /// The posting template. Must net to zero.
    pub legs: Vec<Leg>,
    /// Accrual rate in basis points a year.
    pub rate_bp: Option<i64>,
    /// Day-count convention of an accrual.
    pub day_count: Option<DayCount>,
}

/// The net of a run of weights.
pub open spec fn weights_net(legs: Seq<Leg>) -> int
    decreases legs.len(),
{
    if legs.len() == 0 {
        0
    } else {
        weights_net(legs.drop_last()) + legs.last().weight
    }
}

/// The event a rule is applied to.
#[derive(Clone, Debug, PartialEq, Eq)]
pub struct Event {
    /// Which rule to apply.
    pub rule: String,
    /// Carried onto the journal entry.
    pub id: String,
    /// For a trade or dividend, the amount; for an accrual, the basis.
    pub amount: i64,
    /// For an accrual, how many days the period covers.
    pub days: Option<i64>,
    pub memo: String,
    /// The instrument the event concerns, if any.
    pub instrument: Option<String>,
    /// Whole units moved.
    pub quantity: Option<i64>,
}

/// An event as a value: texts taken by their characters.
pub struct EventView {
    pub rule: Seq<char>,
    pub id: Seq<char>,
    pub amount: i64,
    pub days: Option<i64>,
    pub memo: Seq<char>,
    pub instrument: Option<Seq<char>>,
    pub quantity: Option<i64>,
}

impl vstd::view::View for Event {
    type V = EventView;

    open spec fn view(&self) -> EventView {
        EventView {
            rule: self.rule@,
            id: self.id@,
            amount: self.amount,
            days: self.days,
            memo: self.memo@,
            instrument: crate::chart::text_of(self.instrument),
            quantity: self.quantity,
        }
    }
}

/// Why a rule was rejected, in words a fund accountant would use.
#[derive(Clone, Debug, PartialEq, Eq)]
pub struct Finding {
    /// The rule this concerns.
    pub rule: String,
    /// What is wrong, and what to do about it.
    pub message: String,
    /// A question for the author rather than an outright error.
    pub is_question: bool,
}

/// A finding as a value: rule, words, whether it is a question.
pub type FindingView = (Seq<char>, Seq<char>, bool);

impl vstd::view::View for Finding {
    type V = FindingView;

    open spec fn view(&self) -> FindingView {
        (self.rule@, self.message@, self.is_question)
    }
}

impl Finding {
    /// An outright error about a rule.
    pub(crate) fn error(rule: &str, message: String) -> (r: Finding)
        ensures
            r@ == (rule@, message@, false),
    {
        Finding { rule: String::from_str(rule), message, is_question: false }
    }

    /// A question for the author of a rule.
    pub(crate) fn question(rule: &str, message: String) -> (r: Finding)
        ensures
            r@ == (rule@, message@, true),
    {
        Finding { rule: String::from_str(rule), message, is_question: true }
    }
}

/// How a view decides the day it recognises an entry on. `Recorded` is the
/// absence of an election: the journal's own order, consulting no date.
#[derive(Clone, Copy, Debug, PartialEq, Eq, Structural)]
pub enum Basis {
    Recorded,
    Trade,
    Settlement,
}

/// How a basis is written in a configuration.
pub open spec fn basis_text(b: Basis) -> Seq<char> {
    match b {
        Basis::Recorded => "recorded"@,
        Basis::Trade => "trade"@,
        Basis::Settlement => "settlement"@,
    }
}

impl Basis {
    /// How it is written in a configuration.
    pub fn as_declared(self) -> (r: &'static str)
        ensures
            r@ == basis_text(self),
    {
        match self {
            Basis::Recorded => {
                proof { reveal_strlit("recorded"); }
                "recorded"
            },
            Basis::Trade => {
                proof { reveal_strlit("trade"); }
                "trade"
            },
            Basis::Settlement => {
                proof { reveal_strlit("settlement"); }
                "settlement"
            },
        }
    }
}

/// One book of record over the shared journal.
#[derive(Debug, PartialEq, Eq)]
pub struct View {
    /// Stable identifier: a URL segment and a field of a strike record.
    pub id: String,
    /// What a screen calls it. Empty means the id.
    pub display_name: String,
    pub basis: Basis,
    /// Open days from trade to settlement, on a settlement view.
    pub settles_in: Option<i64>,
    /// Names a calendar of the same configuration.
    pub calendar: Option<String>,
}

impl Clone for View {
    fn clone(&self) -> (r: Self)
        ensures
            r == *self,
    {
        View {
            id: self.id.clone(),
            display_name: self.display_name.clone(),
            basis: self.basis,
            settles_in: self.settles_in,
            calendar: match &self.calendar {
                Some(c) => Some(c.clone()),
                None => None,
            },
        }
    }
}

/// What a screen calls a view.
pub open spec fn view_label(v: View) -> Seq<char> {
    if v.display_name@.len() == 0 {
        v.id@
    } else {
        v.display_name@
    }
}

impl View {
    /// What a screen calls this view.
    pub fn label(&self) -> (r: &str)
        ensures
            r@ == view_label(*self),
    {
        if self.display_name.as_str().is_empty() {
            self.id.as_str()
        } else {
            self.display_name.as_str()
        }
    }
}

/// The days a market is shut.
#[derive(Clone, Debug, PartialEq, Eq)]
pub struct Calendar {
    pub id: String,
    /// ISO dates, `YYYY-MM-DD`.
    pub holidays: Vec<String>,
    /// Weekday numbers the market is shut on, 0 = Sunday.
    pub weekend: Vec<i64>,
}

/// How serious one difference is.
#[derive(Clone, Copy, Debug, PartialEq, Eq, Structural)]
pub enum Severity {
    /// Beneath notice.
    Low,
    /// Worth reporting, and not blocking.
    Medium,
    /// Stops the NAV.
    High,
}

/// How big a difference has to be before it matters, in minor units.
#[derive(Clone, Copy, Debug, PartialEq, Eq, Structural)]
pub struct Tolerance {
    /// At or above this, a difference is worth reporting.
    pub below_notice: i64,
    /// At or above this, a difference stops the NAV.
    pub blocks_nav: i64,
}

impl Default for Tolerance {
    /// The custom grading: 5.00 is worth reporting, 1,000.00 stops the NAV.
    fn default() -> (r: Self)
        ensures
            r == (Tolerance { below_notice: 500, blocks_nav: 100_000 }),
    {
        Tolerance { below_notice: 500, blocks_nav: 100_000 }
    }
}

/// Whether the bands leave every grade reachable.
pub open spec fn tolerance_is_well_formed(below_notice: int, blocks_nav: int) -> bool {
    0 <= below_notice && 0 <= blocks_nav && below_notice <= blocks_nav
}

/// The grade of a magnitude under the bands.
pub open spec fn severity_of(magnitude: int, below_notice: int, blocks_nav: int) -> Severity {
    if magnitude >= blocks_nav {
        Severity::High
    } else if magnitude >= below_notice {
        Severity::Medium
    } else {
        Severity::Low
    }
}

/// The grade of a difference: by its magnitude, and high where the magnitude
/// is not representable.
pub open spec fn grade(t: Tolerance, difference: int) -> Severity {
    if difference == i64::MIN {
        Severity::High
    } else {
        severity_of(if difference < 0 { -difference } else { difference }, t.below_notice as int, t.blocks_nav as int)
    }
}

impl Tolerance {
    /// What one difference grades as.
    pub fn severity(&self, difference: i64) -> (r: Severity)
        ensures
            r == grade(*self, difference as int),
    {
        if difference == i64::MIN {
            return Severity::High;
        }
        let magnitude: i64 = if difference < 0 { -difference } else { difference };
        if magnitude >= self.blocks_nav {
            Severity::High
        } else if magnitude >= self.below_notice {
            Severity::Medium
        } else {
            Severity::Low
        }
    }
}

/// A credit break grades the same as a debit of the same size.
pub proof fn law_grading_reads_only_the_magnitude(t: Tolerance, d: i64)
    requires
        d != i64::MIN,
    ensures
        grade(t, d as int) == grade(t, -d),
{
}

/// The dimensions a sale posts to.
#[derive(Clone, Copy, Debug, PartialEq, Eq, Structural)]
pub struct ChartRoles {
    pub investments: i64,
    pub cash: i64,
    /// Where the difference lands.
    pub realized_gain: i64,
    /// Where both sides of a currency exchange land.
    pub currency_conversion: Option<i64>,
}

/// Which lots a sale gives up: the methods that are orderings.
#[derive(Clone, Copy, Debug, PartialEq, Eq, Structural)]
pub enum LotMethod {
    /// Oldest acquisition first.
    Fifo,
    /// Newest first.
    Lifo,
    /// Dearest per unit first.
    Hifo,
    /// Cheapest per unit first.
    Lofo,
    /// Longest held first; refuses a holding with an undated lot.
    LongestHeldFirst,
    /// Shortest held first.
    ShortestHeldFirst,
}

impl Default for LotMethod {
    /// Oldest first, by custom.
    fn default() -> (r: Self)
        ensures
            r == LotMethod::Fifo,
    {
        LotMethod::Fifo
    }
}

/// How a method is written in a configuration.
pub open spec fn lot_method_text(m: LotMethod) -> Seq<char> {
    match m {
        LotMethod::Fifo => "fifo"@,
        LotMethod::Lifo => "lifo"@,
        LotMethod::Hifo => "hifo"@,
        LotMethod::Lofo => "lofo"@,
        LotMethod::LongestHeldFirst => "longest_held_first"@,
        LotMethod::ShortestHeldFirst => "shortest_held_first"@,
    }
}

impl LotMethod {
    /// The name this method is written as in a configuration.
    pub fn as_declared(self) -> (r: &'static str)
        ensures
            r@ == lot_method_text(self),
    {
        match self {
            LotMethod::Fifo => {
                proof { reveal_strlit("fifo"); }
                "fifo"
            },
            LotMethod::Lifo => {
                proof { reveal_strlit("lifo"); }
                "lifo"
            },
            LotMethod::Hifo => {
                proof { reveal_strlit("hifo"); }
                "hifo"
            },
            LotMethod::Lofo => {
                proof { reveal_strlit("lofo"); }
                "lofo"
            },
            LotMethod::LongestHeldFirst => {
                proof { reveal_strlit("longest_held_first"); }
                "longest_held_first"
            },
            LotMethod::ShortestHeldFirst => {
                proof { reveal_strlit("shortest_held_first"); }
                "shortest_held_first"
            },
        }
    }
}

/// Two methods never share a declared name.
pub proof fn law_declared_names_are_distinct(a: LotMethod, b: LotMethod)
    requires
        a != b,
    ensures
        lot_method_text(a) != lot_method_text(b),
{
    reveal_strlit("fifo");
    reveal_strlit("lifo");
    reveal_strlit("hifo");
    reveal_strlit("lofo");
    reveal_strlit("longest_held_first");
    reveal_strlit("shortest_held_first");
    assert(lot_method_text(a).len() != lot_method_text(b).len()
        || lot_method_text(a)[0] != lot_method_text(b)[0]
        || lot_method_text(a)[1] != lot_method_text(b)[1]);
}

/// The equity destination a period close rolls surplus into.
#[derive(Clone, Copy, Debug, PartialEq, Eq, Structural)]
pub struct CloseTerms {
    pub equity_destination: i64,
}

/// The authorized spend a project book cites against the journal.
#[derive(Clone, Debug, PartialEq, Eq)]
pub struct ProjectTerms {
    /// The book-level original contract; absent is unset.
    pub budget: Option<i64>,
    /// Per work-package account.
    pub phases: Vec<PhaseBudget>,
}

impl Default for ProjectTerms {
    /// No budget, and no phases.
    fn default() -> (r: Self)
        ensures
            r.budget is None,
            r.phases@.len() == 0,
    {
        ProjectTerms { budget: None, phases: Vec::new() }
    }
}

/// Authorized spend on one work-package account.
#[derive(Clone, Copy, Debug, PartialEq, Eq, Structural)]
pub struct PhaseBudget {
    /// A chart dimension.
    pub account: i64,
    /// Absent means this phase has no baseline.
    pub budget: Option<i64>,
}

/// The authorized spend a household book cites against the journal.
///
/// The envelope and loan tables hold their entries in key order, keys being
/// chart dimensions written as decimal text.
#[derive(Clone, Debug, PartialEq, Eq)]
pub struct PersonalTerms {
    /// Absent is unset; zero is a set baseline of nothing.
    pub budget: Option<i64>,
    /// Chart dimension to minor units.
    pub envelope: Vec<(String, i64)>,
    /// Liability dimension to interest-expense dimension.
    pub loan: Vec<(String, i64)>,
}

impl Default for PersonalTerms {
    /// No budget, no envelopes, no loans.
    fn default() -> (r: Self)
        ensures
            r.budget is None,
            r.envelope@.len() == 0,
            r.loan@.len() == 0,
    {
        PersonalTerms { budget: None, envelope: Vec::new(), loan: Vec::new() }
    }
}

/// A configuration: the whole rule set.
#[derive(Clone, Debug, PartialEq, Eq)]
pub struct RuleSet {
    pub rules: Vec<Rule>,
    /// Which lots a sale gives up. `None` means nobody said.
    pub lot_method: Option<LotMethod>,
    /// Which dimensions play which part when a sale posts.
    pub chart_roles: Option<ChartRoles>,
    /// How long a holding must be held for its gain to be long-term, in days.
    pub long_term_days: i64,
    /// How many days either side of a sale a repurchase washes the loss.
    pub wash_window_days: Option<i64>,
    /// Short-term tax weight for min-tax relief.
    pub min_tax_short_weight: Option<i64>,
    /// Whether this book pools the holding at a weighted basis.
    pub average_cost: Option<bool>,
    /// Whether a wash replacement keeps its own acquisition date.
    pub wash_keep_holding_period: Option<bool>,
    /// How big a difference has to be before it stops the NAV.
    pub tolerance: Option<Tolerance>,
    /// The books of record. Empty means one view, not none.
    pub views: Vec<View>,
    /// The calendars a settlement view rolls over.
    pub calendars: Vec<Calendar>,
    pub project: Option<ProjectTerms>,
    pub personal: Option<PersonalTerms>,
    /// Partner allocation weights. Empty means nobody said.
    pub partner_cut: Vec<PartnerShare>,
    /// Standing special allocations by kind.
    pub special_allocations: Vec<SpecialAllocation>,
    /// Where a period close rolls surplus. `None` refuses the close.
    pub close: Option<CloseTerms>,
}

/// The id a book with no declared views has.
pub const UNDECLARED_VIEW: &'static str = "book";

/// The holding period a configuration that does not say has, in days.
pub open spec fn default_long_term_days() -> int {
    365
}

impl Default for RuleSet {
    /// A configuration in which nobody said anything: every election absent,
    /// and the long-term threshold at the same 365 days a parsed one gets.
    fn default() -> (r: Self)
        ensures
            r.rules@.len() == 0,
            r.lot_method is None,
            r.chart_roles is None,
            r.long_term_days == default_long_term_days(),
            r.wash_window_days is None,
            r.min_tax_short_weight is None,
            r.average_cost is None,
            r.wash_keep_holding_period is None,
            r.tolerance is None,
            r.views@.len() == 0,
            r.calendars@.len() == 0,
            r.project is None,
            r.personal is None,
            r.partner_cut@.len() == 0,
            r.special_allocations@.len() == 0,
            r.close is None,
    {
        RuleSet {
            rules: Vec::new(),
            lot_method: None,
            chart_roles: None,
            long_term_days: 365,
            wash_window_days: None,
            min_tax_short_weight: None,
            average_cost: None,
            wash_keep_holding_period: None,
            tolerance: None,
            views: Vec::new(),
            calendars: Vec::new(),
            project: None,
            personal: None,
            partner_cut: Vec::new(),
            special_allocations: Vec::new(),
            close: None,
        }
    }
}

/// The first of a run of rules with this id.
#[verifier::opaque]
pub open spec fn first_rule(rules: Seq<Rule>, id: Seq<char>) -> Option<int> {
    if exists|i: int| 0 <= i < rules.len() && rules[i].id@ == id && forall|j: int| 0 <= j < i ==> rules[j].id@ != id {
        Some(choose|i: int| 0 <= i < rules.len() && rules[i].id@ == id
            && forall|j: int| 0 <= j < i ==> rules[j].id@ != id)
    } else {
        None
    }
}

/// The first rule with an id is the one before which none has it.
pub proof fn lemma_first_rule(rules: Seq<Rule>, id: Seq<char>, k: int)
    requires
        0 <= k < rules.len(),
        rules[k].id@ == id,
        forall|j: int| 0 <= j < k ==> rules[j].id@ != id,
    ensures
        first_rule(rules, id) == Some(k),
{
    reveal(first_rule);
    let c = choose|c: int| 0 <= c < rules.len() && rules[c].id@ == id
        && forall|j: int| 0 <= j < c ==> rules[j].id@ != id;
    assert(0 <= c < rules.len() && rules[c].id@ == id && forall|j: int| 0 <= j < c ==> rules[j].id@ != id);
    if c < k {
        assert(rules[c].id@ != id);
    } else if c > k {
        assert(rules[k].id@ != id);
    }
}

/// Where the first rule with an id is, it is a rule with that id.
pub proof fn lemma_first_rule_bounds(rules: Seq<Rule>, id: Seq<char>)
    ensures
        first_rule(rules, id) matches Some(k) ==> 0 <= k < rules.len() && rules[k].id@ == id,
{
    reveal(first_rule);
}

/// The tolerance a configuration grades with: what was declared, or the
/// custom bands.
pub open spec fn effective_tolerance_of(set: RuleSet) -> Tolerance {
    match set.tolerance {
        Some(t) => t,
        None => Tolerance { below_notice: 500, blocks_nav: 100_000 },
    }
}

/// The method a configuration relieves under: what was declared, or FIFO.
pub open spec fn effective_lot_method_of(set: RuleSet) -> LotMethod {
    match set.lot_method {
        Some(m) => m,
        None => LotMethod::Fifo,
    }
}

impl RuleSet {
    /// The grading to use: what was declared, or the custom bands.
    pub fn effective_tolerance(&self) -> (r: Tolerance)
        ensures
            r == effective_tolerance_of(*self),
    {
        match self.tolerance {
            Some(t) => t,
            None => Tolerance::default(),
        }
    }

    /// The method the engine relieves under: what was declared, or FIFO.
    pub fn effective_lot_method(&self) -> (r: LotMethod)
        ensures
            r == effective_lot_method_of(*self),
    {
        match self.lot_method {
            Some(m) => m,
            None => LotMethod::default(),
        }
    }

    /// The views the engine folds: what was declared, or the one every book
    /// has, recognising entries in the journal's own order.
    pub fn effective_views(&self) -> (r: Vec<View>)
        ensures
            self.views@.len() == 0 ==> r@.len() == 1 && r@[0].id@ == UNDECLARED_VIEW@
                && r@[0].display_name@ == "Journal order"@ && r@[0].basis == Basis::Recorded
                && r@[0].settles_in is None && r@[0].calendar is None,
            self.views@.len() > 0 ==> r@ == self.views@,
    {
        if self.views.len() == 0 {
            let v = View {
                id: String::from_str(UNDECLARED_VIEW),
                display_name: String::from_str("Journal order"),
                basis: Basis::Recorded,
                settles_in: None,
                calendar: None,
            };
            let mut out: Vec<View> = Vec::new();
            out.push(v);
            return out;
        }
        let mut out: Vec<View> = Vec::new();
        let mut i: usize = 0;
        while i < self.views.len()
            invariant
                0 <= i <= self.views@.len(),
                out@ == self.views@.take(i as int),
            decreases self.views@.len() - i,
        {
            out.push(self.views[i].clone());
            i = i + 1;
            assert(out@ =~= self.views@.take(i as int));
        }
        assert(self.views@.take(self.views@.len() as int) =~= self.views@);
        out
    }

    /// Whether anyone declared a book of record.
    pub fn views_declared(&self) -> (r: bool)
        ensures
            r == (self.views@.len() > 0),
    {
        self.views.len() > 0
    }

    /// The view the console opens when it has no other reason to pick one:
    /// the first declared, in document order.
    pub fn default_view(&self) -> (r: String)
        ensures
            self.views@.len() == 0 ==> r@ == UNDECLARED_VIEW@,
            self.views@.len() > 0 ==> r@ == self.views@[0].id@,
    {
        if self.views.len() == 0 {
            String::from_str(UNDECLARED_VIEW)
        } else {
            self.views[0].id.clone()
        }
    }

    /// Find a calendar by id: the first with it.
    pub fn calendar(&self, id: &str) -> (r: Option<&Calendar>)
        ensures
            match r {
                Some(c) => exists|i: int| 0 <= i < self.calendars@.len() && self.calendars@[i] == *c
                    && c.id@ == id@
                    && forall|j: int| 0 <= j < i ==> self.calendars@[j].id@ != id@,
                None => forall|j: int| 0 <= j < self.calendars@.len() ==> self.calendars@[j].id@ != id@,
            },
    {
        let mut i: usize = 0;
        while i < self.calendars.len()
            invariant
                0 <= i <= self.calendars@.len(),
                forall|j: int| 0 <= j < i ==> self.calendars@[j].id@ != id@,
            decreases self.calendars@.len() - i,
        {
            if crate::text::str_eq(self.calendars[i].id.as_str(), id) {
                return Some(&self.calendars[i]);
            }
            i = i + 1;
        }
        None
    }

    /// Find a rule by id: the first with it.
    pub fn rule(&self, id: &str) -> (r: Option<&Rule>)
        ensures
            match r {
                Some(x) => first_rule(self.rules@, id@) matches Some(i) && self.rules@[i] == *x,
                None => first_rule(self.rules@, id@) is None,
            },
    {
        let mut i: usize = 0;
        while i < self.rules.len()
            invariant
                0 <= i <= self.rules@.len(),
                forall|j: int| 0 <= j < i ==> self.rules@[j].id@ != id@,
            decreases self.rules@.len() - i,
        {
            if crate::text::str_eq(self.rules[i].id.as_str(), id) {
                proof {
                    lemma_first_rule(self.rules@, id@, i as int);
                }
                return Some(&self.rules[i]);
            }
            i = i + 1;
        }
        proof {
            reveal(first_rule);
        }
        None
    }
}

} // verus!
