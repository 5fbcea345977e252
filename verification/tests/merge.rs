use ratio::chart::PostingRecord;
use ratio::config::Reason;
use ratio::merge::merge_postings;

fn leg(dim: i64, amount: i64, currency: Option<&str>, instrument: Option<&str>, quantity: Option<i64>) -> PostingRecord {
    PostingRecord {
        dim,
        amount,
        currency: currency.map(|c| c.to_string()),
        instrument: instrument.map(|i| i.to_string()),
        quantity,
    }
}

fn net(ps: &[PostingRecord]) -> i64 {
    ps.iter().map(|p| p.amount).sum()
}

#[test]
fn loan_payment_cash_legs_merge_into_one_credit() {
    // Interest and principal, each balanced, against the same cash account.
    let legs = vec![
        leg(10, 250, Some("USD"), None, None),
        leg(2, -250, Some("USD"), None, None),
        leg(40, 1_000, Some("USD"), None, None),
        leg(2, -1_000, Some("USD"), None, None),
    ];
    let out = merge_postings(legs.clone()).unwrap();
    assert_eq!(out.len(), 3);
    assert_eq!(out[0].dim, 2);
    assert_eq!(out[0].amount, -1_250);
    assert_eq!(out[1].dim, 10);
    assert_eq!(out[1].amount, 250);
    assert_eq!(out[2].dim, 40);
    assert_eq!(out[2].amount, 1_000);
    assert_eq!(net(&out), net(&legs));
    assert_eq!(net(&out), 0);
}

#[test]
fn merge_drops_a_leg_that_nets_to_zero() {
    let legs = vec![
        leg(5, 0, Some("USD"), None, None),
        leg(1, 300, Some("USD"), None, None),
        leg(1, -300, Some("USD"), None, None),
        leg(2, 7, Some("USD"), None, None),
    ];
    let out = merge_postings(legs).unwrap();
    assert_eq!(out.len(), 1);
    assert_eq!(out[0].dim, 2);
    assert_eq!(out[0].amount, 7);
}

#[test]
fn merge_orders_by_dimension_currency_then_instrument() {
    let legs = vec![
        leg(3, 1, Some("USD"), Some("MSFT"), None),
        leg(3, 2, Some("EUR"), None, None),
        leg(3, 3, None, None, None),
        leg(3, 4, Some("USD"), Some("AAPL"), None),
        leg(3, 5, Some("USD"), None, None),
        leg(1, 6, Some("USD"), None, None),
    ];
    let out = merge_postings(legs).unwrap();
    let keys: Vec<(i64, Option<String>, Option<String>)> =
        out.iter().map(|p| (p.dim, p.currency.clone(), p.instrument.clone())).collect();
    assert_eq!(
        keys,
        vec![
            (1, Some("USD".to_string()), None),
            (3, None, None),
            (3, Some("EUR".to_string()), None),
            (3, Some("USD".to_string()), None),
            (3, Some("USD".to_string()), Some("AAPL".to_string())),
            (3, Some("USD".to_string()), Some("MSFT".to_string())),
        ]
    );
    let amounts: Vec<i64> = out.iter().map(|p| p.amount).collect();
    assert_eq!(amounts, vec![6, 3, 2, 5, 4, 1]);
}

#[test]
fn merge_adds_units_where_both_carry_them() {
    let legs = vec![
        leg(1, 100, Some("USD"), Some("AAPL"), None),
        leg(1, 200, Some("USD"), Some("AAPL"), Some(3)),
        leg(1, 300, Some("USD"), Some("AAPL"), Some(4)),
        leg(1, 400, Some("USD"), Some("AAPL"), None),
    ];
    let out = merge_postings(legs).unwrap();
    assert_eq!(out.len(), 1);
    assert_eq!(out[0].amount, 1_000);
    assert_eq!(out[0].quantity, Some(7));
}

#[test]
fn merge_of_nothing_is_nothing() {
    assert!(merge_postings(Vec::new()).unwrap().is_empty());
}

#[test]
fn merge_refuses_an_amount_past_64_bits() {
    let legs = vec![leg(1, i64::MAX, Some("USD"), None, None), leg(1, 1, Some("USD"), None, None)];
    let e = merge_postings(legs).unwrap_err();
    assert_eq!(e.reason, Reason::Overflow);
    assert_eq!(e.text, "a merged posting does not fit in 64 bits");
}

#[test]
fn merge_refuses_units_past_64_bits() {
    let legs = vec![
        leg(1, 1, Some("USD"), Some("AAPL"), Some(i64::MAX)),
        leg(1, 1, Some("USD"), Some("AAPL"), Some(1)),
    ];
    let e = merge_postings(legs).unwrap_err();
    assert_eq!(e.reason, Reason::Overflow);
    assert_eq!(e.text, "a merged quantity does not fit in 64 bits");
}

#[test]
fn merge_keeps_apart_what_differs_in_instrument() {
    let legs = vec![
        leg(1, 5, Some("USD"), Some("AAPL"), Some(1)),
        leg(1, -5, Some("USD"), Some("MSFT"), Some(1)),
    ];
    let out = merge_postings(legs).unwrap();
    assert_eq!(out.len(), 2);
    assert_eq!(out[0].instrument.as_deref(), Some("AAPL"));
    assert_eq!(out[1].instrument.as_deref(), Some("MSFT"));
}
