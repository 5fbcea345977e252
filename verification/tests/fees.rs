use ratio::chart::{Account, AccountType};
use ratio::compile::compile;
use ratio::fees::{accrue, fee_receivable, FeeTerms};
use ratio::findings::{check, FEE_RULE_ID};
use ratio::rules::{DayCount, Event, Leg, Rule, RuleKind, RuleSet};

fn chart() -> Vec<Account> {
    vec![
        Account { dim: 10, display_name: "Management fee expense".into(), account_type: AccountType::Expense },
        Account { dim: 40, display_name: "Management fee payable".into(), account_type: AccountType::Liability },
    ]
}

fn fee(rate_bp: i64, legs: &[(i64, i64)]) -> RuleSet {
    RuleSet {
        rules: vec![Rule {
            id: FEE_RULE_ID.into(),
            kind: RuleKind::Accrual,
            description: String::new(),
            legs: legs.iter().map(|&(account, weight)| Leg { account, weight, per_instrument: false }).collect(),
            rate_bp: Some(rate_bp),
            day_count: Some(DayCount::Act365),
        }],
        ..RuleSet::default()
    }
}

fn elected() -> RuleSet {
    fee(75, &[(10, 1), (40, -1)])
}

#[test]
fn no_fee_rule_is_unset_rather_than_a_silent_zero() {
    assert!(RuleSet::default().fee_terms().is_none());
    assert_eq!(accrue(None, 365_000_000, 1).unwrap(), None);
    assert_eq!(fee_receivable(None, &[]), None);
    assert_eq!(fee_receivable(None, &[100]), None, "posted under some other rule is not a fee receivable");
}

#[test]
fn a_zero_rate_is_not_an_election() {
    let set = fee(0, &[(10, 1), (40, -1)]);
    assert!(set.fee_terms().is_none(), "0 bp is silence wearing a rule");
    let findings = check(&set, &chart());
    assert!(findings.iter().any(|f| f.message.contains("silent zero receivable")), "{findings:?}");
}

#[test]
fn same_sign_legs_are_not_an_accrual() {
    let set = fee(75, &[(10, 1), (40, 1)]);
    let findings = check(&set, &chart());
    assert!(
        findings.iter().any(|f| f.message.contains("does not balance")),
        "same-sign must fail the template, not post a hidden fee: {findings:?}"
    );
    assert!(set.fee_terms().is_none());
}

#[test]
fn a_collided_chart_is_not_fee_terms() {
    let set = fee(75, &[(10, 1), (10, -1)]);
    assert!(set.fee_terms().is_none(), "expense and receivable on one dim hide the fee");
}

#[test]
fn a_fee_rule_of_another_kind_is_not_an_election() {
    let mut set = elected();
    set.rules[0].kind = RuleKind::Trade;
    assert!(set.fee_terms().is_none());
}

#[test]
fn elected_terms_accrue_a_conserved_receivable_and_expense() {
    let set = elected();
    assert!(check(&set, &chart()).is_empty());
    let terms = set.fee_terms().expect("75 bp act/365 is an election");
    assert_eq!(
        terms,
        FeeTerms { rate_bp: 75, day_count: DayCount::Act365, expense: 10, receivable: 40 }
    );

    let pair = accrue(Some(&terms), 365_000_000, 1).unwrap().expect("a dividing year-fraction is an accrual");
    assert_eq!(pair, (7_500, -7_500));
    assert_eq!(pair.0 + pair.1, 0);

    let compiled = compile(
        set.rule(FEE_RULE_ID).unwrap(),
        &Event {
            rule: FEE_RULE_ID.into(),
            id: "a1".into(),
            amount: 365_000_000,
            days: Some(1),
            memo: String::new(),
            instrument: None,
            quantity: None,
        },
    )
    .unwrap();
    assert_eq!(compiled.len(), 2);
    let expense = compiled.iter().find(|p| p.dim == 10).unwrap();
    let recv = compiled.iter().find(|p| p.dim == 40).unwrap();
    assert_eq!((expense.amount, recv.amount), pair, "the compiled legs are the accrued pair");
}

#[test]
fn a_zero_day_accrual_is_not_a_posting() {
    let terms = elected().fee_terms().unwrap();
    assert_eq!(accrue(Some(&terms), 365_000_000, 0).unwrap(), None);
}

#[test]
fn a_fee_accrual_over_negative_days_is_refused() {
    let terms = elected().fee_terms().unwrap();
    assert!(accrue(Some(&terms), 365_000_000, -1).is_err());
}

#[test]
fn receivable_stays_unset_until_an_accrual_posts() {
    let terms = elected().fee_terms();
    assert_eq!(fee_receivable(terms.as_ref(), &[]), None);
    assert_eq!(fee_receivable(terms.as_ref(), &[7_500]), Some(7_500));
    assert_eq!(fee_receivable(terms.as_ref(), &[7_500, -7_500]), Some(0), "paid in full is a real zero, not unset");
}
