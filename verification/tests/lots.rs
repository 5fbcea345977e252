use ratio::chart::PostingRecord;
use ratio::checkpoint::head_names_a_checkpoint;
use ratio::holding::Holding;
use ratio::lots::{classify, match_pending_washes, min_tax_sale, try_wash_sale, PendingWash};
use ratio::project::Terms;
use ratio::relief::{Lot, Method, Relief, Taken};
use ratio::rules::ChartRoles;

fn taken(seq: u64, units: i64, cost: i64, acquired: Option<i32>) -> Taken {
    Taken { seq, units, cost, acquired }
}

fn terms() -> Terms {
    Terms::under(Method::Fifo)
}

#[test]
fn the_gain_follows_the_proceeds_and_splits_by_holding_period() {
    // Sold 20 units for 400 that cost 300: a gain of 100, posted as a credit.
    let r = Relief { taken: vec![taken(1, 10, 100, Some(0)), taken(2, 10, 200, Some(400))], cost: 300 };
    let (short, long) = classify(&r, -100, Some(500), &terms()).expect("divides");
    assert_eq!(long, -100, "the old lot: 100 of cost against 200 of proceeds");
    assert_eq!(short, 0, "the young lot: 200 of cost against 200 of proceeds");
    assert_eq!(short + long, -100, "the parts are the gain");
}

#[test]
fn the_threshold_day_itself_is_long_term() {
    let r = Relief { taken: vec![taken(1, 10, 100, Some(0))], cost: 100 };
    let (short, long) = classify(&r, -50, Some(365), &terms()).unwrap();
    assert_eq!((short, long), (0, -50));
    let (short, long) = classify(&r, -50, Some(364), &terms()).unwrap();
    assert_eq!((short, long), (-50, 0));
}

#[test]
fn a_disposal_whose_proceeds_will_not_divide_is_left_unclassified() {
    let r = Relief { taken: vec![taken(1, 10, 100, Some(0)), taken(2, 10, 200, Some(400))], cost: 300 };
    assert_eq!(classify(&r, -101, Some(500), &terms()), None);
}

#[test]
fn an_undated_lot_or_an_undated_sale_leaves_the_gain_unclassified() {
    let r = Relief { taken: vec![taken(1, 10, 100, None)], cost: 100 };
    assert_eq!(classify(&r, -100, Some(500), &terms()), None);
    let r = Relief { taken: vec![taken(1, 10, 100, Some(0))], cost: 100 };
    assert_eq!(classify(&r, -100, None, &terms()), None);
    let empty = Relief { taken: vec![], cost: 0 };
    assert_eq!(classify(&empty, 0, Some(1), &terms()), None);
}

#[test]
fn a_loss_washes_onto_the_replacement_still_open() {
    let mut held = Holding::new(Method::Fifo);
    held.push(Lot { seq: 5, units: 10, cost: 100, acquired: Some(510) }).unwrap();
    let r = Relief { taken: vec![taken(1, 10, 300, Some(0))], cost: 300 };
    let t = Terms { wash_window_days: Some(30), ..terms() };
    let m = try_wash_sale(&mut held, &r, 10, Some(200), Some(500), &t).unwrap().expect("a loss in the window");
    assert_eq!(m.attached, 200);
    assert_eq!(m.remaining_units, 0);
    let lot = held.lots()[0];
    assert_eq!(lot.cost, 300, "the replacement carries the deferred loss");
    assert_eq!(lot.acquired, Some(0), "and the sold lot's date, unless the book keeps its own");
}

#[test]
fn no_window_no_loss_or_no_date_is_no_wash() {
    let r = Relief { taken: vec![taken(1, 10, 300, Some(0))], cost: 300 };
    let mut held = Holding::new(Method::Fifo);
    held.push(Lot { seq: 5, units: 10, cost: 100, acquired: Some(510) }).unwrap();
    assert_eq!(try_wash_sale(&mut held, &r, 10, Some(200), Some(500), &terms()).unwrap(), None);
    let t = Terms { wash_window_days: Some(30), ..terms() };
    assert_eq!(try_wash_sale(&mut held, &r, 10, Some(-200), Some(500), &t).unwrap(), None, "a gain is not washed");
    assert_eq!(try_wash_sale(&mut held, &r, 10, Some(200), None, &t).unwrap(), None);
    assert_eq!(try_wash_sale(&mut held, &r, 10, None, Some(500), &t).unwrap(), None);
    assert_eq!(held.lots()[0].cost, 100, "nothing was written");
}

#[test]
fn min_tax_ranks_at_the_sale_price() {
    let mut held = Holding::new(Method::Fifo);
    held.push(Lot { seq: 1, units: 10, cost: 300, acquired: Some(0) }).unwrap();
    held.push(Lot { seq: 2, units: 10, cost: 600, acquired: Some(400) }).unwrap();
    let roles = ChartRoles { investments: 1, cash: 2, realized_gain: 30, currency_conversion: None };
    let t = Terms { roles: Some(roles), min_tax_short_weight: Some(2), ..terms() };
    let postings = vec![PostingRecord::new(2, 500), PostingRecord::new(1, -600), PostingRecord::new(30, 100)];
    let r = min_tax_sale(&mut held, &postings, &t, Some(500), 10, 2).unwrap();
    assert_eq!(r.cost, 600, "the short-term loss costs least in tax at a price of 50");
    assert_eq!(held.lots().len(), 1);
    assert_eq!(held.lots()[0].seq, 1);
}

#[test]
fn min_tax_without_a_price_refuses_and_says_why() {
    let mut held = Holding::new(Method::Fifo);
    held.push(Lot { seq: 1, units: 10, cost: 300, acquired: Some(0) }).unwrap();
    let roles = ChartRoles { investments: 1, cash: 2, realized_gain: 30, currency_conversion: None };
    let with_roles = Terms { roles: Some(roles), ..terms() };
    let cash = vec![PostingRecord::new(2, 505)];
    let e = min_tax_sale(&mut held, &cash, &with_roles, None, 10, 2).unwrap_err();
    assert!(e.contains("trade date"), "{e}");
    let e = min_tax_sale(&mut held, &cash, &terms(), Some(500), 10, 2).unwrap_err();
    assert!(e.contains("chart roles"), "{e}");
    let e = min_tax_sale(&mut held, &[PostingRecord::new(1, -300)], &with_roles, Some(500), 10, 2).unwrap_err();
    assert!(e.contains("no cash posting"), "{e}");
    let e = min_tax_sale(&mut held, &cash, &with_roles, Some(500), 10, 2).unwrap_err();
    assert!(e.contains("does not divide"), "{e}");
    assert_eq!(held.lots().len(), 1, "a refusal gives nothing up");
}

#[test]
fn a_later_purchase_takes_the_leftover_wash_of_its_own_position() {
    let mut held = Holding::new(Method::Fifo);
    held.push(Lot { seq: 7, units: 10, cost: 100, acquired: Some(510) }).unwrap();
    let wash = |instrument: &str| PendingWash {
        dim: 1,
        instrument: instrument.into(),
        window: 30,
        sold_on: 500,
        remaining_units: 10,
        remaining_loss: -200,
        original_acquired: Some(0),
    };
    let mut pending = vec![wash("VTI"), wash("BND")];
    match_pending_washes(&mut held, &mut pending, 1, "VTI", 7, 10, Some(510)).unwrap();
    assert_eq!(pending.len(), 1, "the matched wash is spent");
    assert_eq!(pending[0].instrument, "BND", "another position's wash waits");
    assert_eq!(held.lots()[0].cost, 300);
}

#[test]
fn a_purchase_outside_the_window_or_undated_matches_nothing() {
    let mut held = Holding::new(Method::Fifo);
    held.push(Lot { seq: 7, units: 10, cost: 100, acquired: Some(600) }).unwrap();
    let w = PendingWash {
        dim: 1,
        instrument: "VTI".into(),
        window: 30,
        sold_on: 500,
        remaining_units: 10,
        remaining_loss: -200,
        original_acquired: Some(0),
    };
    let mut pending = vec![w];
    match_pending_washes(&mut held, &mut pending, 1, "VTI", 7, 10, Some(600)).unwrap();
    assert_eq!(pending.len(), 1);
    match_pending_washes(&mut held, &mut pending, 1, "VTI", 7, 10, None).unwrap();
    assert_eq!(pending.len(), 1);
    assert_eq!(held.lots()[0].cost, 100);
}

#[test]
fn a_partial_purchase_leaves_the_rest_of_the_wash_pending() {
    let mut held = Holding::new(Method::Fifo);
    held.push(Lot { seq: 7, units: 4, cost: 40, acquired: Some(505) }).unwrap();
    let mut pending = vec![PendingWash {
        dim: 1,
        instrument: "VTI".into(),
        window: 30,
        sold_on: 500,
        remaining_units: 10,
        remaining_loss: -200,
        original_acquired: Some(0),
    }];
    match_pending_washes(&mut held, &mut pending, 1, "VTI", 7, 4, Some(505)).unwrap();
    assert_eq!(pending.len(), 1);
    assert_eq!(pending[0].remaining_units, 6);
    assert_eq!(pending[0].remaining_loss, -120);
    assert_eq!(held.lots()[0].cost, 120);
}

#[test]
fn a_checkpoint_head_is_sixty_four_hex_digits() {
    let good = "0123456789abcdef0123456789ABCDEF0123456789abcdef0123456789abcdef";
    assert!(head_names_a_checkpoint(good));
    assert!(!head_names_a_checkpoint(&good[1..]));
    assert!(!head_names_a_checkpoint(&good.replace('a', "g")));
    assert!(!head_names_a_checkpoint(""));
}
