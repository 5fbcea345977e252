use ratio::chart::{Account, AccountType};
use ratio::render::{machine_name, render};
use ratio::rules::{DayCount, Leg, Rule, RuleKind};

fn chart() -> Vec<Account> {
    vec![
        Account { dim: 10, display_name: "Management fee expense".into(), account_type: AccountType::Expense },
        Account { dim: 40, display_name: "Management fee payable".into(), account_type: AccountType::Liability },
    ]
}

fn leg(account: i64, weight: i64) -> Leg {
    Leg { account, weight, per_instrument: false }
}

fn trade(id: &str, legs: Vec<Leg>) -> Rule {
    Rule { id: id.into(), kind: RuleKind::Trade, description: String::new(), legs, rate_bp: None, day_count: None }
}

#[test]
fn machine_names_are_stable_and_boring() {
    assert_eq!(machine_name("Management fee expense"), "management_fee_expense");
    assert_eq!(machine_name("Cash & equivalents"), "cash_equivalents");
    assert_eq!(machine_name("  odd   spacing "), "odd_spacing");
}

#[test]
fn a_machine_name_of_nothing_is_nothing() {
    assert_eq!(machine_name(""), "");
    assert_eq!(machine_name(" & "), "");
    assert_eq!(machine_name("A1 b2"), "a1_b2");
}

#[test]
fn a_rule_renders_in_the_form_the_site_shows() {
    let r = Rule {
        id: "management_fee_accrual".into(),
        kind: RuleKind::Accrual,
        description: "Management fee, 75bp a year on prior-day net assets".into(),
        legs: vec![leg(10, 1), leg(40, -1)],
        rate_bp: Some(75),
        day_count: Some(DayCount::Act365),
    };
    let s = render(&r, &chart());
    assert!(s.contains("rule management_fee_accrual {"), "{s}");
    assert!(s.contains("when       business_day d"), "{s}");
    assert!(s.contains("rate       75bp / year"), "{s}");
    assert!(s.contains("day_count  ACT/365"), "{s}");
    assert!(s.contains("debit   management_fee_expense"), "{s}");
    assert!(s.contains("credit  management_fee_payable"), "{s}");
    assert!(s.trim_end().ends_with('}'), "{s}");
}

#[test]
fn debits_are_listed_before_credits_whatever_the_toml_order() {
    let s = render(&trade("r", vec![leg(40, -1), leg(10, 1)]), &chart());
    let d = s.find("debit ").unwrap();
    let c = s.find("credit").unwrap();
    assert!(d < c, "{s}");
}

#[test]
fn a_multiple_is_shown_and_a_unit_weight_is_not() {
    let s = render(&trade("r", vec![leg(10, 3), leg(40, -3)]), &chart());
    assert!(s.contains("× 3"), "{s}");
    let t = render(&trade("r", vec![leg(10, 1), leg(40, -1)]), &chart());
    assert!(!t.contains("×"), "{t}");
}

#[test]
fn an_account_outside_the_chart_still_renders() {
    let s = render(&trade("r", vec![leg(999, 1)]), &[]);
    assert!(s.contains("account 999"), "{s}");
}

#[test]
fn a_quoted_name_escapes_control_characters_as_a_debug_rendering_does() {
    for t in ["plain", "tab\there", "esc\u{1b}ape", "del\u{7f}", "bell\u{7}", "q\"uote\\", "nul\0"] {
        assert_eq!(ratio::text::quoted_string(t), format!("{t:?}"));
    }
}
