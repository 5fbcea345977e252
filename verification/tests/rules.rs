use ratio::chart::{Account, AccountType};
use ratio::compile::{compile, round_half_up};
use ratio::findings::check;
use ratio::rules::{DayCount, Event, Leg, LotMethod, Rule, RuleKind, RuleSet, Severity, Tolerance};

fn acct(dim: i64, name: &str, t: AccountType) -> Account {
    Account { dim, display_name: name.into(), account_type: t }
}

fn chart() -> Vec<Account> {
    vec![
        acct(1, "Investments at fair value", AccountType::Asset),
        acct(2, "Cash and equivalents", AccountType::Asset),
        acct(10, "Management fee expense", AccountType::Expense),
        acct(30, "Dividend income", AccountType::Income),
        acct(40, "Management fee payable", AccountType::Liability),
    ]
}

fn leg(account: i64, weight: i64) -> Leg {
    Leg { account, weight, per_instrument: false }
}

fn rule(id: &str, kind: RuleKind, legs: Vec<Leg>) -> Rule {
    Rule { id: id.into(), kind, description: String::new(), legs, rate_bp: None, day_count: None }
}

/// The management fee accrual: 75bp a year, act/365, expense against payable.
fn fee_rule() -> Rule {
    Rule {
        id: "management_fee_accrual".into(),
        kind: RuleKind::Accrual,
        description: "Management fee, 75bp a year on prior-day net assets".into(),
        legs: vec![leg(10, 1), leg(40, -1)],
        rate_bp: Some(75),
        day_count: Some(DayCount::Act365),
    }
}

fn set_of(rules: Vec<Rule>) -> RuleSet {
    RuleSet { rules, ..RuleSet::default() }
}

fn event(rule: &str, amount: i64, days: Option<i64>) -> Event {
    Event {
        rule: rule.into(),
        id: "a".into(),
        amount,
        days,
        memo: String::new(),
        instrument: None,
        quantity: None,
    }
}

#[test]
fn rounding_is_symmetric_about_zero() {
    assert_eq!(round_half_up(5, 10), 1);
    assert_eq!(round_half_up(4, 10), 0);
    assert_eq!(round_half_up(-5, 10), -1);
    assert_eq!(round_half_up(-4, 10), 0);
}

#[test]
fn rounding_half_up_on_exact_quotients_is_exact() {
    assert_eq!(round_half_up(30, 10), 3);
    assert_eq!(round_half_up(-30, 10), -3);
    assert_eq!(round_half_up(15, 10), 2);
    assert_eq!(round_half_up(-15, 10), -2);
    assert_eq!(round_half_up(0, 7), 0);
}

#[test]
fn a_difference_exactly_at_the_threshold_blocks_the_nav() {
    let t = Tolerance { below_notice: 500, blocks_nav: 100_000 };
    assert_eq!(t.severity(100_000), Severity::High, "exactly at it blocks");
    assert_eq!(t.severity(99_999), Severity::Medium, "one under does not");
    assert_eq!(t.severity(500), Severity::Medium, "exactly at notice is reportable");
    assert_eq!(t.severity(499), Severity::Low, "one under is beneath notice");
}

#[test]
fn a_credit_break_grades_the_same_as_a_debit_of_the_same_size() {
    let t = Tolerance::default();
    for d in [1i64, 499, 500, 99_999, 100_000, 250_000] {
        assert_eq!(t.severity(d), t.severity(-d), "{d} and -{d} grade alike");
    }
}

#[test]
fn the_smallest_difference_an_i64_can_hold_grades_rather_than_panics() {
    let t = Tolerance::default();
    assert_eq!(t.severity(i64::MIN), Severity::High);
    assert_eq!(t.severity(i64::MAX), Severity::High);
}

#[test]
fn the_default_tolerance_is_five_and_a_thousand() {
    let t = Tolerance::default();
    assert_eq!(t, Tolerance { below_notice: 500, blocks_nav: 100_000 });
    assert_eq!(RuleSet::default().effective_tolerance(), t);
    let declared = Tolerance { below_notice: 1, blocks_nav: 2 };
    let set = RuleSet { tolerance: Some(declared), ..RuleSet::default() };
    assert_eq!(set.effective_tolerance(), declared);
}

#[test]
fn a_silent_configuration_relieves_fifo() {
    assert_eq!(RuleSet::default().lot_method, None);
    assert_eq!(RuleSet::default().effective_lot_method(), LotMethod::Fifo);
    let set = RuleSet { lot_method: Some(LotMethod::Hifo), ..RuleSet::default() };
    assert_eq!(set.effective_lot_method(), LotMethod::Hifo);
}

#[test]
fn a_rule_is_found_by_its_id() {
    let set = set_of(vec![fee_rule(), rule("buy", RuleKind::Trade, vec![leg(1, 1), leg(2, -1)])]);
    assert_eq!(set.rule("buy").unwrap().kind, RuleKind::Trade);
    let r = set.rule("management_fee_accrual").unwrap();
    assert_eq!(r.kind, RuleKind::Accrual);
    assert_eq!(r.rate_bp, Some(75));
    assert_eq!(r.day_count, Some(DayCount::Act365));
    assert!(set.rule("sell").is_none());
}

#[test]
fn a_good_rule_has_nothing_to_say_about_it() {
    assert_eq!(check(&set_of(vec![fee_rule()]), &chart()), vec![]);
}

#[test]
fn an_unbalanced_template_is_rejected_with_the_shortfall() {
    let mut r = fee_rule();
    r.legs = vec![leg(10, 1), leg(40, -2)];
    let f = check(&set_of(vec![r]), &chart());
    assert_eq!(f.len(), 1);
    assert!(f[0].message.contains("net to -1"), "{}", f[0].message);
    assert!(!f[0].is_question);
}

#[test]
fn an_unknown_account_is_rejected_by_number() {
    let mut r = fee_rule();
    r.legs = vec![leg(10, 1), leg(999, -1)];
    let f = check(&set_of(vec![r]), &chart());
    assert!(f.iter().any(|x| x.message.contains("999") && x.message.contains("not in the chart")));
}

#[test]
fn crediting_an_asset_is_not_flagged() {
    let buy = rule("buy_equity", RuleKind::Trade, vec![leg(1, 1), leg(2, -1)]);
    assert_eq!(check(&set_of(vec![buy]), &chart()), vec![]);
}

#[test]
fn debiting_income_is_not_flagged_either() {
    let rev = rule("dividend_reversal", RuleKind::Dividend, vec![leg(30, 1), leg(2, -1)]);
    assert_eq!(check(&set_of(vec![rev]), &chart()), vec![]);
}

#[test]
fn an_accrual_without_a_rate_is_rejected_with_an_example() {
    let mut r = fee_rule();
    r.rate_bp = None;
    let f = check(&set_of(vec![r]), &chart());
    let e = f.iter().find(|x| !x.is_question).unwrap();
    assert!(e.message.contains("rate_bp = 75"), "{}", e.message);
}

#[test]
fn an_accrual_without_a_day_count_asks_which_one() {
    let mut r = fee_rule();
    r.day_count = None;
    let f = check(&set_of(vec![r]), &chart());
    let q = f.iter().find(|x| x.is_question).unwrap();
    assert!(q.message.contains("act/365"), "{}", q.message);
}

#[test]
fn a_zero_weight_leg_is_rejected() {
    let mut r = fee_rule();
    r.legs = vec![leg(10, 0), leg(40, -1)];
    let f = check(&set_of(vec![r]), &chart());
    assert!(f.iter().any(|x| x.message.contains("weight of 0")));
}

#[test]
fn a_rule_with_no_postings_is_rejected() {
    let f = check(&set_of(vec![rule("empty", RuleKind::Trade, vec![])]), &chart());
    assert_eq!(f.len(), 1);
    assert!(f[0].message.contains("no postings"));
    assert_eq!(f[0].rule, "empty");
}

#[test]
fn every_finding_is_reported_not_just_the_first() {
    let mut r = fee_rule();
    r.legs = vec![leg(999, 1), leg(40, -2)];
    let f = check(&set_of(vec![r]), &chart());
    assert!(f.len() >= 2, "{f:?}");
}

#[test]
fn compiling_a_trade_scales_the_template() {
    let buy = rule("buy", RuleKind::Trade, vec![leg(1, 1), leg(2, -1)]);
    let out = compile(&buy, &event("buy", 1_690_421_107, None)).unwrap();
    assert_eq!(out[0].amount, 1_690_421_107);
    assert_eq!(out[1].amount, -1_690_421_107);
    assert_eq!(out[0].dim, 1);
    assert_eq!(out[1].dim, 2);
}

#[test]
fn a_leg_whose_product_would_wrap_is_refused_rather_than_wrapped() {
    let buy = rule("buy", RuleKind::Trade, vec![leg(1, 4), leg(2, -4)]);
    let huge = i64::MAX / 3;
    let err = compile(&buy, &event("buy", huge, None)).unwrap_err();
    assert!(err.message().contains("a posting leg"), "{}", err.message());
    assert!(4i64.wrapping_mul(huge) < 0);
}

#[test]
fn a_checked_rule_balances_at_every_amount() {
    let set = set_of(vec![fee_rule()]);
    assert!(check(&set, &chart()).is_empty());
    let rule = set.rule("management_fee_accrual").unwrap();
    for basis in [0i64, 1, 97, 100_000, 1_750_000_000, 20_000_000_000] {
        for days in [0i64, 1, 30, 91, 365] {
            let out = compile(rule, &event(&rule.id, basis, Some(days))).unwrap();
            let net: i64 = out.iter().map(|p| p.amount).sum();
            assert_eq!(net, 0, "basis={basis} days={days} did not balance");
        }
    }
}

#[test]
fn an_accrual_is_computed_in_integers_and_rounds_half_up() {
    let rule = fee_rule();
    let at = |basis: i64, days: i64| compile(&rule, &event(&rule.id, basis, Some(days))).unwrap()[0].amount;
    assert_eq!(at(1_750_000_000, 1), 35_959);
    assert_eq!(at(1_750_000_000, 365), 13_125_000);
    assert_eq!(at(1_750_000_000, 0), 0);
}

#[test]
fn a_large_book_does_not_overflow_the_accrual() {
    let rule = fee_rule();
    let out = compile(&rule, &event(&rule.id, 1_000_000_000_000, Some(365))).unwrap();
    assert_eq!(out[0].amount, 7_500_000_000);
    assert_eq!(out.iter().map(|p| p.amount).sum::<i64>(), 0);
}

#[test]
fn an_accrual_over_negative_days_is_refused() {
    let rule = fee_rule();
    assert!(compile(&rule, &event(&rule.id, 100, Some(-1))).is_err());
}

#[test]
fn an_accrual_that_does_not_say_how_many_days_is_refused() {
    let rule = fee_rule();
    let e = compile(&rule, &event(&rule.id, 100, None)).unwrap_err();
    assert!(e.message().contains("days"), "{}", e.message());
}

#[test]
fn an_accrual_with_no_rate_does_not_compile() {
    let mut rule = fee_rule();
    rule.rate_bp = None;
    assert!(compile(&rule, &event(&rule.id, 100, Some(1))).is_err());
}

#[test]
fn the_day_count_conventions_divide_as_named() {
    assert_eq!(DayCount::Act365.denominator(), 365);
    assert_eq!(DayCount::Act360.denominator(), 360);
    assert_eq!(DayCount::Thirty360.denominator(), 360);
    assert_eq!(DayCount::Act365.as_str(), "act/365");
    assert_eq!(DayCount::Act360.as_str(), "act/360");
    assert_eq!(DayCount::Thirty360.as_str(), "30/360");
}

#[test]
fn every_method_has_a_distinct_declared_name() {
    let all = [
        LotMethod::Fifo,
        LotMethod::Lifo,
        LotMethod::Hifo,
        LotMethod::Lofo,
        LotMethod::LongestHeldFirst,
        LotMethod::ShortestHeldFirst,
    ];
    let names: std::collections::BTreeSet<&str> = all.iter().map(|m| m.as_declared()).collect();
    assert_eq!(names.len(), all.len());
    assert_eq!(LotMethod::Hifo.as_declared(), "hifo");
    assert_eq!(LotMethod::Fifo.as_declared(), "fifo");
}
