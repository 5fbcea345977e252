use ratio::config::{unsupported_method, Reason};
use ratio::partners::{AllocationKind, PartnerShare, SpecialAllocation};
use ratio::rules::{
    Basis, Calendar, ChartRoles, LotMethod, PersonalTerms, PhaseBudget, ProjectTerms, RuleSet, Tolerance, View,
    UNDECLARED_VIEW,
};

fn refused(set: RuleSet) -> (Reason, String) {
    let e = set.validate().expect_err("the configuration should be refused");
    let m = e.message();
    (e.reason, m)
}

fn view(id: &str, basis: Basis, settles_in: Option<i64>, calendar: Option<&str>) -> View {
    View {
        id: id.into(),
        display_name: String::new(),
        basis,
        settles_in,
        calendar: calendar.map(|c| c.to_string()),
    }
}

fn calendar(id: &str, weekend: Vec<i64>, holidays: &[&str]) -> Calendar {
    Calendar { id: id.into(), holidays: holidays.iter().map(|h| h.to_string()).collect(), weekend }
}

#[test]
fn a_silent_configuration_is_sound() {
    assert!(RuleSet::default().validate().is_ok());
    assert_eq!(RuleSet::default().long_term_days, 365);
    assert_eq!(RuleSet::default().wash_window_days, None);
    assert_eq!(RuleSet::default().min_tax_short_weight, None);
    assert_eq!(RuleSet::default().average_cost, None);
    assert_eq!(RuleSet::default().wash_keep_holding_period, None);
    assert!(RuleSet::default().partner_cut.is_empty());
    assert_eq!(RuleSet::default().tolerance, None);
}

#[test]
fn the_three_that_are_not_orderings_are_refused_by_name() {
    for (name, must_say) in [
        ("min_tax", "SALE PRICE"),
        ("mintax", "SALE PRICE"),
        ("specific_identification", "PER SALE"),
        ("average_cost", "POOLS"),
        ("pooled", "POOLS"),
        ("wash", "DATE"),
        ("wash_sale", "DATE"),
    ] {
        let src = format!("lot_method = \"{name}\"\nrules = []\n");
        let e = unsupported_method(&src).unwrap_or_else(|| panic!("{name} is not explained"));
        assert!(e.contains(must_say), "{name}: {e}");
    }
    assert_eq!(unsupported_method("lot_method = \"fifoo\"\nrules = []\n"), None);
    assert_eq!(unsupported_method("lot_method = \"hifo\"\nrules = []\n"), None);
    assert_eq!(unsupported_method("rules = []\n"), None);
}

#[test]
fn a_declared_view_cannot_take_the_undeclared_id() {
    let set = RuleSet { views: vec![view(UNDECLARED_VIEW, Basis::Trade, None, None)], ..RuleSet::default() };
    let (reason, e) = refused(set);
    assert_eq!(reason, Reason::ViewTakesUndeclaredId);
    assert!(e.contains("an election nobody made"), "{e}");
}

#[test]
fn a_settlement_view_that_cannot_roll_is_refused_when_the_config_is_read() {
    let c = calendar("c", vec![0, 6], &[]);
    for (v, must_say) in [
        (view("ibor", Basis::Settlement, None, None), "in how many days"),
        (view("ibor", Basis::Settlement, Some(2), None), "names no calendar"),
        (view("ibor", Basis::Settlement, Some(2), Some("nope")), "does not declare"),
        (view("abor", Basis::Trade, Some(2), None), "only a settlement view reads"),
        (view("A BOR", Basis::Trade, None, None), "URL segment"),
    ] {
        let set = RuleSet { views: vec![v], calendars: vec![c.clone()], ..RuleSet::default() };
        let (_, e) = refused(set);
        assert!(e.contains(must_say), "expected {must_say:?}, got: {e}");
    }
}

#[test]
fn a_settlement_view_with_its_calendar_is_sound() {
    let set = RuleSet {
        views: vec![view("abor", Basis::Trade, None, None), view("ibor", Basis::Settlement, Some(2), Some("c"))],
        calendars: vec![calendar("c", vec![0, 6], &["2026-03-02"])],
        ..RuleSet::default()
    };
    assert!(set.validate().is_ok());
    assert!(set.views_declared());
    assert_eq!(set.default_view(), "abor");
    assert_eq!(set.calendar("c").unwrap().holidays.len(), 1);
    assert!(set.calendar("d").is_none());
}

#[test]
fn a_calendar_that_never_opens_is_refused_rather_than_looping() {
    let set = RuleSet { calendars: vec![calendar("never", vec![0, 1, 2, 3, 4, 5, 6], &[])], ..RuleSet::default() };
    let (reason, e) = refused(set);
    assert_eq!(reason, Reason::NeverOpens);
    assert!(e.contains("would ever settle"), "{e}");

    let set = RuleSet { calendars: vec![calendar("c", vec![0, 6], &["the fifth of March"])], ..RuleSet::default() };
    let (reason, e) = refused(set);
    assert_eq!(reason, Reason::HolidayNotADate);
    assert!(e.contains("not a date"), "{e}");
}

#[test]
fn two_views_with_one_id_are_refused() {
    let set = RuleSet {
        views: vec![view("abor", Basis::Trade, None, None), view("abor", Basis::Recorded, None, None)],
        ..RuleSet::default()
    };
    let (reason, e) = refused(set);
    assert_eq!(reason, Reason::ViewTwice);
    assert!(e.contains("twice"), "{e}");
}

#[test]
fn a_negative_project_budget_is_refused() {
    let ok = RuleSet { project: Some(ProjectTerms { budget: Some(1_000_000), phases: vec![] }), ..RuleSet::default() };
    assert!(ok.validate().is_ok());
    let bad = RuleSet { project: Some(ProjectTerms { budget: Some(-1), phases: vec![] }), ..RuleSet::default() };
    let (_, e) = refused(bad);
    assert!(e.contains("not negative"), "{e}");
}

#[test]
fn a_negative_or_duplicate_phase_budget_is_refused() {
    let phase = |account: i64, budget: i64| PhaseBudget { account, budget: Some(budget) };
    let ok = RuleSet { project: Some(ProjectTerms { budget: None, phases: vec![phase(11, 400_000)] }), ..RuleSet::default() };
    assert!(ok.validate().is_ok());
    let neg = RuleSet { project: Some(ProjectTerms { budget: None, phases: vec![phase(11, -1)] }), ..RuleSet::default() };
    let (_, e) = refused(neg);
    assert!(e.contains("not negative"), "{e}");
    let dup = RuleSet {
        project: Some(ProjectTerms { budget: None, phases: vec![phase(11, 1), phase(11, 2)] }),
        ..RuleSet::default()
    };
    let (reason, e) = refused(dup);
    assert_eq!(reason, Reason::PhaseTwice);
    assert!(e.contains("twice"), "{e}");
}

#[test]
fn a_negative_household_budget_or_envelope_is_refused() {
    let terms = |budget: Option<i64>, envelope: Vec<(&str, i64)>| PersonalTerms {
        budget,
        envelope: envelope.into_iter().map(|(k, v)| (k.to_string(), v)).collect(),
        loan: vec![],
    };
    let ok = RuleSet { personal: Some(terms(Some(500_000), vec![("10", 400_000), ("11", 100_000)])), ..RuleSet::default() };
    assert!(ok.validate().is_ok());
    let zero = RuleSet { personal: Some(terms(Some(0), vec![])), ..RuleSet::default() };
    assert!(zero.validate().is_ok(), "a set baseline of nothing is not the same as unset");

    let (_, e) = refused(RuleSet { personal: Some(terms(Some(-1), vec![])), ..RuleSet::default() });
    assert!(e.contains("not negative"), "{e}");
    let (_, e) = refused(RuleSet { personal: Some(terms(None, vec![("10", -5)])), ..RuleSet::default() });
    assert!(e.contains("not negative"), "{e}");
    let (reason, e) = refused(RuleSet { personal: Some(terms(None, vec![("living", 1)])), ..RuleSet::default() });
    assert_eq!(reason, Reason::EnvelopeNotADimension);
    assert!(e.contains("chart dimension"), "{e}");
}

#[test]
fn a_negative_wash_window_is_not_a_window() {
    assert!(RuleSet { wash_window_days: Some(10), ..RuleSet::default() }.validate().is_ok());
    let (reason, e) = refused(RuleSet { wash_window_days: Some(-1), ..RuleSet::default() });
    assert_eq!(reason, Reason::NegativeWashWindow);
    assert!(e.contains("not a window"), "{e}");
}

#[test]
fn a_min_tax_weight_must_be_a_weight_and_alone() {
    assert!(RuleSet { min_tax_short_weight: Some(2), ..RuleSet::default() }.validate().is_ok());
    let (_, zero) = refused(RuleSet { min_tax_short_weight: Some(0), ..RuleSet::default() });
    assert!(zero.contains("not a weight"), "{zero}");
    let (_, both) = refused(RuleSet {
        lot_method: Some(LotMethod::Hifo),
        min_tax_short_weight: Some(2),
        ..RuleSet::default()
    });
    assert!(both.contains("SALE PRICE"), "{both}");
    assert!(both.contains("lot_method"), "{both}");
}

#[test]
fn an_average_cost_election_is_true_and_alone() {
    assert!(RuleSet { average_cost: Some(true), ..RuleSet::default() }.validate().is_ok());
    let (_, denied) = refused(RuleSet { average_cost: Some(false), ..RuleSet::default() });
    assert!(denied.contains("not an election"), "{denied}");
    let (_, both) = refused(RuleSet { average_cost: Some(true), lot_method: Some(LotMethod::Fifo), ..RuleSet::default() });
    assert!(both.contains("POOLS"), "{both}");
    assert!(both.contains("lot_method"), "{both}");
    let (_, with_mintax) = refused(RuleSet {
        average_cost: Some(true),
        min_tax_short_weight: Some(2),
        ..RuleSet::default()
    });
    assert!(with_mintax.contains("POOLS") || with_mintax.contains("SALE PRICE"), "{with_mintax}");
}

#[test]
fn a_keep_election_is_true_and_needs_a_window() {
    assert!(RuleSet { wash_keep_holding_period: Some(true), wash_window_days: Some(30), ..RuleSet::default() }
        .validate()
        .is_ok());
    let (_, denied) = refused(RuleSet { wash_keep_holding_period: Some(false), wash_window_days: Some(30), ..RuleSet::default() });
    assert!(denied.contains("not an election"), "{denied}");
    let (_, orphan) = refused(RuleSet { wash_keep_holding_period: Some(true), ..RuleSet::default() });
    assert!(orphan.contains("wash_window_days"), "{orphan}");
}

#[test]
fn a_partner_cut_must_be_weights_named_once() {
    let share = |p: &str, w: i64| PartnerShare { partner: p.into(), weight: w };
    assert!(RuleSet { partner_cut: vec![share("LP", 80), share("GP", 20)], ..RuleSet::default() }.validate().is_ok());
    let (_, zero) = refused(RuleSet { partner_cut: vec![share("LP", 80), share("GP", 0)], ..RuleSet::default() });
    assert!(zero.contains("not a weight"), "{zero}");
    let (_, dup) = refused(RuleSet { partner_cut: vec![share("LP", 50), share("LP", 50)], ..RuleSet::default() });
    assert!(dup.contains("twice"), "{dup}");
}

#[test]
fn a_standing_special_must_be_a_weight() {
    let special = |w: i64| SpecialAllocation { partner: "GP".into(), kind: AllocationKind::Expense, weight: w };
    assert!(RuleSet { special_allocations: vec![special(1)], ..RuleSet::default() }.validate().is_ok());
    let (reason, _) = refused(RuleSet { special_allocations: vec![special(0)], ..RuleSet::default() });
    assert_eq!(reason, Reason::SpecialNotAWeight);
}

#[test]
fn a_tolerance_whose_bands_are_inverted_or_negative_fails() {
    let ok = RuleSet { tolerance: Some(Tolerance { below_notice: 100, blocks_nav: 250 }), ..RuleSet::default() };
    assert!(ok.validate().is_ok());
    let (reason, e) = refused(RuleSet { tolerance: Some(Tolerance { below_notice: 250, blocks_nav: 100 }), ..RuleSet::default() });
    assert_eq!(reason, Reason::ToleranceUnusable);
    assert!(e.contains("not usable as written"), "{e}");
    let (reason, _) = refused(RuleSet { tolerance: Some(Tolerance { below_notice: -1, blocks_nav: 100 }), ..RuleSet::default() });
    assert_eq!(reason, Reason::ToleranceUnusable);
}

#[test]
fn chart_roles_on_one_dimension_are_refused() {
    let ok = ChartRoles { investments: 1, cash: 2, realized_gain: 30, currency_conversion: None };
    assert!(RuleSet { chart_roles: Some(ok), ..RuleSet::default() }.validate().is_ok());
    let collided = ChartRoles { investments: 1, cash: 1, realized_gain: 30, currency_conversion: None };
    let (reason, _) = refused(RuleSet { chart_roles: Some(collided), ..RuleSet::default() });
    assert_eq!(reason, Reason::ChartCollision);
}
