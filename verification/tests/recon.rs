use ratio::recon::{
    cover, equity_long_only_single_ccy, render, split_csv_line, Break, BreakReport, Cause, Exception,
    Refusal, Scope, Txn,
};
use ratio::chart::{Account, AccountType};
use ratio::intake::{parse_minor, parse_reported, parse_transactions};
use ratio::rules::{DayCount, Leg, Rule, RuleKind, RuleSet};
use ratio::shadow::{balances, compare, reconcile, reconcile_with_entries, replay};

const DIGEST: &str = "4f9c2a1e";

fn chart() -> Vec<Account> {
    let acct = |dim: i64, name: &str, t: AccountType| Account { dim, display_name: name.into(), account_type: t };
    vec![
        acct(1, "Investments at fair value", AccountType::Asset),
        acct(2, "Cash and equivalents", AccountType::Asset),
        acct(10, "Management fee expense", AccountType::Expense),
        acct(20, "Dividend income", AccountType::Income),
        acct(30, "Realized gain on investments", AccountType::Income),
        acct(40, "Management fee payable", AccountType::Liability),
    ]
}

fn get(m: &[(i64, i64)], d: i64) -> Option<i64> {
    m.iter().find(|(k, _)| *k == d).map(|(_, v)| *v)
}

fn rule(id: &str, kind: RuleKind, debit: i64, credit: i64) -> Rule {
    Rule {
        id: id.into(),
        kind,
        description: String::new(),
        legs: vec![
            Leg { account: debit, weight: 1, per_instrument: false },
            Leg { account: credit, weight: -1, per_instrument: false },
        ],
        rate_bp: None,
        day_count: None,
    }
}

/// The configuration a human would have approved for this scope.
fn rules() -> RuleSet {
    let mut fee = rule("management_fee_accrual", RuleKind::Accrual, 10, 40);
    fee.rate_bp = Some(75);
    fee.day_count = Some(DayCount::Act365);
    RuleSet {
        rules: vec![
            rule("equity_purchase", RuleKind::Trade, 1, 2),
            rule("disposal_proceeds", RuleKind::Trade, 2, 30),
            rule("disposal_basis", RuleKind::Trade, 30, 1),
            rule("cash_dividend", RuleKind::Dividend, 2, 20),
            fee,
        ],
        ..RuleSet::default()
    }
}

fn scope() -> Scope {
    equity_long_only_single_ccy("USD")
}

fn txn(id: &str, kind: &str, amount: i64, currency: &str, basis: Option<i64>) -> Txn {
    Txn {
        id: id.into(),
        date: "2026-01-02".into(),
        kind: kind.into(),
        security: String::new(),
        amount,
        basis,
        currency: currency.into(),
        days: None,
    }
}

fn report(breaks: Vec<Break>, exceptions: Vec<Exception>) -> BreakReport {
    BreakReport {
        config_digest: "abc123".into(),
        scope: scope(),
        transactions_replayed: if exceptions.is_empty() { 1 } else { 0 },
        entries_posted: if exceptions.is_empty() { 1 } else { 0 },
        breaks,
        exceptions,
        book_ties: true,
    }
}

#[test]
fn a_quoted_field_containing_a_comma_is_one_field() {
    let f = split_csv_line(r#"a,"b,c",d"#).unwrap();
    assert_eq!(f, vec!["a", "b,c", "d"]);
    let f = split_csv_line(r#""say ""hi""",x"#).unwrap();
    assert_eq!(f, vec![r#"say "hi""#, "x"]);
}

#[test]
fn an_unterminated_quote_is_an_error_not_a_misread() {
    assert!(split_csv_line(r#"a,"b,c"#).is_err());
}

#[test]
fn an_empty_line_is_one_empty_field() {
    assert_eq!(split_csv_line("").unwrap(), vec![""]);
    assert_eq!(split_csv_line("a,,b").unwrap(), vec!["a", "", "b"]);
}

#[test]
fn the_narrow_scope_names_what_it_covers_and_excludes() {
    let s = scope();
    assert_eq!(s.label, "equity-long-only-single-ccy");
    assert_eq!(s.base_currency, "USD");
    let names: Vec<&str> = s.types.iter().map(|(n, _)| n.as_str()).collect();
    assert_eq!(names, vec!["buy", "dividend", "fee", "sell"]);
    assert!(s.exclusions.iter().any(|e| e.contains("corporate actions")));
}

#[test]
fn a_foreign_currency_row_refuses_the_whole_file() {
    let txns = vec![txn("t1", "buy", 10_000, "USD", None), txn("t2", "buy", 10_000, "GBP", None)];
    let e = cover(&txns, &scope(), &rules()).unwrap_err();
    assert_eq!(e.len(), 1);
    assert_eq!(e[0].refusal, Refusal::ForeignCurrency);
    assert_eq!(e[0].transaction_id, "t2");
}

#[test]
fn one_bad_row_yields_no_events_at_all() {
    let txns = vec![txn("t1", "buy", 10_000, "USD", None), txn("t2", "merger", 10_000, "USD", None)];
    assert!(cover(&txns, &scope(), &rules()).is_err());
}

#[test]
fn every_bad_row_is_reported() {
    let txns = vec![
        txn("t1", "merger", 1, "USD", None),
        txn("t2", "buy", 1, "USD", None),
        txn("t3", "sell", 1, "USD", None),
    ];
    let e = cover(&txns, &scope(), &rules()).unwrap_err();
    assert_eq!(e.len(), 2);
    assert_eq!(e[0].transaction_id, "t1");
    assert_eq!(e[1].transaction_id, "t3");
}

#[test]
fn a_corporate_action_is_named_rather_than_guessed_at() {
    let e = cover(&[txn("t1", "split", 0, "USD", None)], &scope(), &rules()).unwrap_err();
    assert_eq!(e[0].refusal, Refusal::UnknownTransactionType);
    assert!(e[0].detail.contains("split"), "{}", e[0].detail);
    assert!(e[0].detail.contains("buy"), "the refusal should say what it does cover");
}

#[test]
fn a_disposal_without_a_basis_is_refused() {
    let e = cover(&[txn("t1", "sell", 10_000, "USD", None)], &scope(), &rules()).unwrap_err();
    assert_eq!(e[0].refusal, Refusal::DisposalWithoutBasis);
    assert!(e[0].detail.contains("basis"), "{}", e[0].detail);
}

#[test]
fn a_scope_naming_a_rule_the_configuration_lacks_is_refused() {
    let thin = RuleSet { rules: vec![rule("cash_dividend", RuleKind::Dividend, 2, 20)], ..RuleSet::default() };
    let e = cover(&[txn("t1", "buy", 10_000, "USD", None)], &scope(), &thin).unwrap_err();
    assert_eq!(e[0].refusal, Refusal::NoRuleForType);
    assert!(e[0].detail.contains("equity_purchase"), "{}", e[0].detail);
}

#[test]
fn a_disposal_becomes_two_events_at_proceeds_and_at_basis() {
    let events = cover(&[txn("t1", "sell", 15_000, "USD", Some(10_000))], &scope(), &rules()).unwrap();
    assert_eq!(events.len(), 2, "a disposal is two rule applications");
    assert_eq!(events[0].rule, "disposal_proceeds");
    assert_eq!(events[0].id, "t1-proceeds");
    assert_eq!(events[0].amount, 15_000);
    assert_eq!(events[1].rule, "disposal_basis");
    assert_eq!(events[1].id, "t1-basis");
    assert_eq!(events[1].amount, 10_000);
}

#[test]
fn a_covered_file_becomes_one_event_per_simple_row() {
    let txns = vec![txn("t1", "buy", -25_000, "USD", None), txn("t2", "dividend", 120, "USD", None)];
    let events = cover(&txns, &scope(), &rules()).unwrap();
    assert_eq!(events.len(), 2);
    assert_eq!(events[0].rule, "equity_purchase");
    assert_eq!(events[0].amount, 25_000, "a magnitude, whatever the sign");
    assert_eq!(events[1].rule, "cash_dividend");
    assert_eq!(events[1].id, "t2");
}

#[test]
fn a_refusal_reads_as_a_refusal_and_never_as_a_clean_run() {
    let e = cover(&[txn("t1", "merger", 100, "USD", None)], &scope(), &rules()).unwrap_err();
    let r = report(vec![], e);
    assert!(!r.was_reconciled());
    assert!(!r.is_clean());
    let text = render(&r);
    assert!(text.starts_with("NOT RECONCILED"), "{text}");
    assert!(!text.contains("RECONCILED — no differences"), "{text}");
    assert!(text.contains("merger") || text.contains("not a transaction type"), "{text}");
}

#[test]
fn a_clean_report_still_states_what_it_did_not_cover() {
    let r = report(vec![], vec![]);
    assert!(r.was_reconciled());
    assert!(r.is_clean());
    let text = render(&r);
    assert!(text.starts_with("RECONCILED — no differences"), "{text}");
    assert!(text.contains("excludes"), "{text}");
    assert!(text.contains("corporate actions"), "{text}");
}

#[test]
fn a_report_with_a_break_is_not_clean() {
    let b = Break {
        account: 2,
        display_name: "Cash and equivalents".into(),
        ratio_amount: 100,
        reported_amount: 0,
        difference: 100,
        cause: Cause::AbsentFromReport,
        ratio_basis: "cfg".into(),
    };
    let r = report(vec![b], vec![]);
    assert!(r.was_reconciled());
    assert!(!r.is_clean());
    let text = render(&r);
    assert!(text.starts_with("BREAKS"), "{text}");
    assert!(text.contains("Cash and equivalents"), "{text}");
}

#[test]
fn amounts_are_exact_and_never_touch_a_float() {
    assert_eq!(parse_minor("0.10").unwrap(), 10);
    assert_eq!(parse_minor("0.1").unwrap(), 10);
    assert_eq!(parse_minor("25000.00").unwrap(), 2_500_000);
    assert_eq!(parse_minor("-25,000.00").unwrap(), -2_500_000);
    assert_eq!(parse_minor("$1,204,880.11").unwrap(), 120_488_011);
    assert_eq!(parse_minor("7").unwrap(), 700);
    assert_eq!(parse_minor(".5").unwrap(), 50);
    assert!(parse_minor("1.005").is_err());
    assert!(parse_minor("abc").is_err());
    assert!(parse_minor("").is_err());
}

#[test]
fn an_amount_too_large_for_64_bits_is_refused_as_such() {
    let e = parse_minor("100000000000000000").unwrap_err();
    assert_eq!(e.reason, ratio::config::Reason::AmountTooLarge);
    let e = parse_minor("1.2.3").unwrap_err();
    assert_eq!(e.reason, ratio::config::Reason::NotAnAmount);
    assert_eq!(parse_minor("  -$3.07 ").unwrap(), -307);
    assert_eq!(parse_minor("92233720368547758.07").unwrap(), i64::MAX);
    assert_eq!(parse_minor("-92233720368547758.08").unwrap(), i64::MIN);
    assert!(parse_minor("92233720368547758.08").is_err());
}

#[test]
fn columns_are_found_by_name_not_position() {
    let a = "id,date,type,amount,currency\nt1,2026-01-02,buy,100.00,USD\n";
    let b = "currency,amount,type,date,id\nUSD,100.00,buy,2026-01-02,t1\n";
    assert_eq!(parse_transactions(a).unwrap(), parse_transactions(b).unwrap());
}

#[test]
fn a_blank_optional_column_is_absent_not_zero() {
    let t = parse_transactions("id,date,type,amount,currency,basis\nt1,2026-01-02,sell,100.00,USD,\n").unwrap();
    assert_eq!(t[0].basis, None);
}

#[test]
fn a_transactions_file_reads_case_blank_lines_and_optional_columns() {
    let t = parse_transactions(
        "ID, Date ,TYPE,Amount,Currency,Security,Basis,Days\r\n\r\nt1,2026-01-02, SELL ,150.00,usd,VTI,100.00,3\r\n",
    )
    .unwrap();
    assert_eq!(t.len(), 1);
    assert_eq!(t[0].id, "t1");
    assert_eq!(t[0].kind, "sell");
    assert_eq!(t[0].currency, "USD");
    assert_eq!(t[0].security, "VTI");
    assert_eq!(t[0].amount, 15_000);
    assert_eq!(t[0].basis, Some(10_000));
    assert_eq!(t[0].days, Some(3));
}

#[test]
fn a_transactions_file_names_what_it_cannot_read() {
    assert!(parse_transactions("").unwrap_err().message().contains("empty"));
    assert!(parse_transactions("id,date,type,amount\n").unwrap_err().message().contains("`currency`"));
    let e = parse_transactions("id,date,type,amount,currency\nt1,2026-01-02\n").unwrap_err();
    assert_eq!(e.message(), "row 2 has 2 fields, needs 3");
    let e = parse_transactions("id,date,type,amount,currency\nt1,2026-01-02,buy,ten,USD\n").unwrap_err();
    assert!(e.message().starts_with("row 2 amount: "), "{}", e.message());
    let e = parse_transactions("id,date,type,amount,currency,days\nt1,2026-01-02,fee,1.00,USD,x\n").unwrap_err();
    assert!(e.message().contains("days"), "{}", e.message());
}

#[test]
fn reported_positions_accept_a_name_or_a_dimension() {
    let by_dim = parse_reported("account,amount\n2,100.00\n", &chart()).unwrap();
    let by_name = parse_reported("account,amount\nCash and equivalents,100.00\n", &chart()).unwrap();
    assert_eq!(by_dim, by_name);
    assert_eq!(get(&by_dim, 2), Some(10_000));
}

#[test]
fn reported_positions_come_back_in_dimension_order() {
    let r = parse_reported("account,balance\n30,1.00\n1,2.00\n  dividend income ,3.00\n", &chart()).unwrap();
    assert_eq!(r, vec![(1, 200), (20, 300), (30, 100)]);
    assert!(parse_reported("account,amount\nNo such account,1.00\n", &chart()).is_err());
    assert!(parse_reported("account,value\n1,1.00\n", &chart()).is_err());
}

#[test]
fn a_duplicated_account_in_the_report_is_an_error() {
    let r = parse_reported("account,amount\n2,100.00\n2,50.00\n", &chart());
    assert!(r.is_err(), "picking one would produce an unreproducible break");
    assert!(r.unwrap_err().message().contains("twice"));
}

#[test]
fn a_foreign_currency_row_refuses_the_file_when_read() {
    let txns = parse_transactions(
        "id,date,type,amount,currency\nt1,2026-01-02,buy,100.00,USD\nt2,2026-01-03,buy,100.00,GBP\n",
    )
    .unwrap();
    let e = cover(&txns, &scope(), &rules()).unwrap_err();
    assert_eq!(e.len(), 1);
    assert_eq!(e[0].refusal, Refusal::ForeignCurrency);
    assert_eq!(e[0].transaction_id, "t2");
}

#[test]
fn a_refused_file_replays_nothing_and_reports_no_breaks() {
    let txns = parse_transactions(
        "id,date,type,amount,currency\nt1,2026-01-02,buy,100.00,USD\nt2,2026-01-03,merger,100.00,USD\n",
    )
    .unwrap();
    let r = reconcile(&txns, &[], &scope(), &rules(), &chart(), DIGEST).unwrap();
    assert!(!r.was_reconciled());
    assert_eq!(r.transactions_replayed, 0, "nothing may be replayed");
    assert!(r.breaks.is_empty(), "a refused file must report no breaks");
    let (r2, entries) = reconcile_with_entries(&txns, &[], &scope(), &rules(), &chart(), DIGEST).unwrap();
    assert_eq!(r2, r);
    assert!(entries.is_empty());
}

#[test]
fn a_disposal_becomes_two_balanced_events_that_sum_correctly() {
    let txns = parse_transactions("id,date,type,amount,currency,basis\nt1,2026-02-01,sell,150.00,USD,100.00\n").unwrap();
    let events = cover(&txns, &scope(), &rules()).unwrap();
    assert_eq!(events.len(), 2, "a disposal is two rule applications");
    let entries = replay(&events, &rules(), DIGEST).unwrap();
    for e in &entries {
        assert_eq!(e.postings.iter().map(|p| p.amount).sum::<i64>(), 0, "{:?}", e.id);
        assert_eq!(e.config, DIGEST);
    }
    let b = balances(&entries);
    assert_eq!(get(&b, 2), Some(15_000), "cash");
    assert_eq!(get(&b, 1), Some(-10_000), "investments relieved at cost, not proceeds");
    assert_eq!(get(&b, 30), Some(-5_000), "realized gain");
    assert_eq!(b.iter().map(|(_, v)| v).sum::<i64>(), 0);
}

#[test]
fn a_replay_names_the_rule_it_does_not_have() {
    let events = cover(&[txn("t1", "buy", 100, "USD", None)], &scope(), &rules()).unwrap();
    let thin = RuleSet { rules: vec![rule("cash_dividend", RuleKind::Dividend, 2, 20)], ..RuleSet::default() };
    let e = replay(&events, &thin, DIGEST).unwrap_err();
    assert!(e.message().contains("equity_purchase"), "{}", e.message());
}

#[test]
fn a_period_that_agrees_reconciles_to_nothing() {
    let txns = parse_transactions(
        "id,date,type,security,amount,currency,basis\n\
         t1,2026-01-02,buy,VTI,25000.00,USD,\n\
         t2,2026-01-15,dividend,VTI,120.00,USD,\n\
         t3,2026-02-01,sell,VTI,15000.00,USD,10000.00\n",
    )
    .unwrap();
    let reported = parse_reported(
        "account,amount\n\
         Investments at fair value,15000.00\n\
         Cash and equivalents,-9880.00\n\
         Dividend income,-120.00\n\
         Realized gain on investments,-5000.00\n",
        &chart(),
    )
    .unwrap();
    let r = reconcile(&txns, &reported, &scope(), &rules(), &chart(), DIGEST).unwrap();
    assert!(r.was_reconciled());
    assert!(r.is_clean(), "{}", render(&r));
    assert!(r.book_ties);
    assert_eq!(r.transactions_replayed, 3);
    assert_eq!(r.entries_posted, 4, "the disposal contributes two");
}

#[test]
fn a_disagreement_is_reported_with_its_cause_and_the_config() {
    let txns = parse_transactions("id,date,type,amount,currency\nt1,2026-01-02,buy,25000.00,USD\n").unwrap();
    let reported = parse_reported(
        "account,amount\nInvestments at fair value,24000.00\nCash and equivalents,-25000.00\n",
        &chart(),
    )
    .unwrap();
    let r = reconcile(&txns, &reported, &scope(), &rules(), &chart(), DIGEST).unwrap();
    assert_eq!(r.breaks.len(), 1, "{}", render(&r));
    let b = &r.breaks[0];
    assert_eq!(b.account, 1);
    assert_eq!(b.ratio_amount, 2_500_000);
    assert_eq!(b.reported_amount, 2_400_000);
    assert_eq!(b.difference, 100_000);
    assert_eq!(b.cause, Cause::AmountDiffers);
    assert_eq!(b.display_name, "Investments at fair value");
    assert_eq!(b.ratio_basis, "1 posting(s) under this configuration");
    assert_eq!(r.config_digest, DIGEST);
    let text = render(&r);
    assert!(text.contains("1000.00"), "{text}");
    assert!(text.contains(DIGEST), "the report must cite the config");
}

#[test]
fn a_zero_balance_absent_from_the_report_is_not_a_break() {
    let ratio = vec![(1, 0i64), (2, 500i64)];
    let reported = vec![(2, 500i64)];
    assert!(compare(&ratio, &reported, &chart(), &[]).is_empty());
}

#[test]
fn an_account_only_the_report_carries_is_a_break() {
    let b = compare(&[], &[(30, 12_345i64)], &chart(), &[]);
    assert_eq!(b.len(), 1);
    assert_eq!(b[0].cause, Cause::AbsentFromRatio);
    assert_eq!(b[0].difference, -12_345);
    assert_eq!(b[0].ratio_basis, "0 posting(s) under this configuration");
}

#[test]
fn an_account_outside_the_chart_is_named_by_its_number() {
    let b = compare(&[(77, 5)], &[], &chart(), &[]);
    assert_eq!(b.len(), 1);
    assert_eq!(b[0].display_name, "dim 77");
    assert_eq!(b[0].cause, Cause::AbsentFromReport);
}

#[test]
fn breaks_are_ordered_by_how_much_they_matter() {
    let ratio = vec![(1, 100i64), (2, 10_000i64), (30, -50i64)];
    let reported = vec![(1, 0i64), (2, 0i64), (30, 0i64)];
    let b = compare(&ratio, &reported, &chart(), &[]);
    let diffs: Vec<i64> = b.iter().map(|x| x.difference.abs()).collect();
    assert_eq!(diffs, vec![10_000, 100, 50]);
}

#[test]
fn equal_differences_are_ordered_by_account() {
    let ratio = vec![(1, 100i64), (2, -100i64), (30, 100i64)];
    let b = compare(&ratio, &[], &chart(), &[]);
    let accounts: Vec<i64> = b.iter().map(|x| x.account).collect();
    assert_eq!(accounts, vec![1, 2, 30]);
}
