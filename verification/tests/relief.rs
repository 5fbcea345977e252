use std::cmp::Ordering;
use ratio::dates::days_from_iso_date;
use ratio::holding::Holding;
use ratio::per_unit::PerUnit;
use ratio::relief::{
    is_long_term, pooled_basis, relieve, relieve_average_cost, relieve_by, relieve_min_tax,
    relieve_spec_id, unit_price, Day, Lot, Method,
};
use ratio::rules::{ChartRoles, LotMethod};
use ratio::sale::sale_postings;
use ratio::wash::{
    acquired_for, acquired_write, attach_to, disallowed, in_wash_window, recognized_now,
    replacement_acquired, replacement_basis, restate, rewrite_in_place, says_so, strike_gain,
    wash_open, wash_purchase, window_still_open, Restatement, StrikeId, StruckGain,
};

fn l(seq: u64, units: i64, cost: i64) -> Lot {
    Lot { seq, units, cost, acquired: None }
}

fn iso(day: &str) -> Day {
    days_from_iso_date(day).unwrap() as Day
}

fn dated(seq: u64, units: i64, cost: i64, day: &str) -> Lot {
    Lot { seq, units, cost, acquired: Some(iso(day)) }
}

const ROLES: ChartRoles = ChartRoles { investments: 1, cash: 2, realized_gain: 30, currency_conversion: None };

fn sound(l: &Lot) -> bool {
    l.units > 0 || (l.units == 0 && l.cost == 0)
}

fn agree(method: Method, lots: &[Lot], want: i64) {
    let slow = relieve_by(method, lots, want);
    let mut h = Holding::new(method);
    let mut pushed = Ok(());
    for lot in lots {
        if pushed.is_ok() {
            pushed = h.push(*lot);
        }
    }
    let fast = match pushed {
        Ok(()) => h.relieve(method, want),
        Err(e) => Err(e),
    };
    match (slow, fast) {
        (Ok(s), Ok(f)) => {
            assert_eq!(s.cost, f.cost, "{method:?} cost, want {want}, {lots:?}");
            assert_eq!(s.taken, f.taken, "{method:?} taken, want {want}, {lots:?}");
            let mut left = s.left.clone();
            left.sort_by_key(|l| l.seq);
            assert_eq!(left, h.lots(), "{method:?} left, want {want}, {lots:?}");
        }
        (Err(_), Err(_)) => {
            let mut before = lots.to_vec();
            before.sort_by_key(|l| l.seq);
            let intact: Vec<Lot> = before.iter().filter(|l| sound(l)).cloned().collect();
            assert_eq!(h.lots(), intact, "{method:?} refused want {want} and did not put the holding back");
        }
        (s, f) => panic!("{method:?} want {want}: one path answered and the other did not\n slow={s:?}\n fast={f:?}\n lots={lots:?}"),
    }
}

#[test]
fn the_holding_gives_up_exactly_what_the_walk_would_have() {
    let mk = |seq, units, cost, day: Option<&str>| Lot { seq, units, cost, acquired: day.map(iso) };
    let holdings: Vec<Vec<Lot>> = vec![
        vec![],
        vec![mk(1, 10, 100, Some("2024-01-01"))],
        vec![mk(1, 10, 100, Some("2024-01-01")), mk(2, 20, 200, Some("2024-06-01")), mk(3, 5, 50, Some("2025-01-01"))],
        vec![mk(1, 10, 100, Some("2024-01-01")), mk(2, 1, 400, Some("2023-01-01")), mk(3, 10, 50, Some("2026-01-01"))],
        vec![mk(1, 1000, 1000, Some("2024-01-01")), mk(2, 1, 40, Some("2024-02-01"))],
        vec![mk(1, 10, 100, None), mk(2, 10, 300, None)],
        vec![mk(1, 10, 100, Some("2024-01-01")), mk(2, 10, 300, None)],
    ];
    let methods = [
        Method::Fifo,
        Method::Lifo,
        Method::Hifo,
        Method::Lofo,
        Method::LongestHeldFirst,
        Method::ShortestHeldFirst,
    ];
    for lots in &holdings {
        for m in methods {
            for want in 0..=32 {
                agree(m, lots, want);
            }
        }
    }
}

#[test]
fn per_unit_is_a_total_order() {
    let vals: Vec<PerUnit> = [(100, 10), (10, 1), (200, 20), (1, 1000), (0, 5), (-50, 10), (i64::MAX, 1), (i64::MIN, 1)]
        .iter()
        .map(|&(cost, units)| PerUnit::new(cost, units))
        .collect();
    for a in &vals {
        assert_eq!(a.partial_cmp(a), Some(Ordering::Equal), "reflexive");
        for b in &vals {
            assert_eq!(a.partial_cmp(b), b.partial_cmp(a).map(|o| o.reverse()), "{a:?} vs {b:?}");
            for c in &vals {
                if a <= b && b <= c {
                    assert!(a <= c, "transitivity: {a:?} <= {b:?} <= {c:?}");
                }
            }
        }
    }
    assert_eq!(PerUnit::new(100, 10), PerUnit::new(200, 20));
}

#[test]
fn changing_the_method_reorders_the_holding_once() {
    let mut h = Holding::new(Method::Fifo);
    for (seq, cost) in [(1u64, 100i64), (2, 400), (3, 50)] {
        h.push(Lot { seq, units: 10, cost, acquired: None }).unwrap();
    }
    assert_eq!(h.relieve(Method::Fifo, 10).unwrap().cost, 100, "oldest");
    assert_eq!(h.relieve(Method::Hifo, 10).unwrap().cost, 400, "then dearest");
    assert_eq!(h.relieve(Method::Lofo, 10).unwrap().cost, 50, "then cheapest");
    assert!(h.is_empty());
}

#[test]
fn a_husk_is_refused_when_it_is_offered() {
    let mut h = Holding::new(Method::Fifo);
    let err = h.push(Lot { seq: 1, units: 0, cost: 500, acquired: None }).unwrap_err();
    assert!(err.message().contains("holding of nothing"), "{}", err.message());
    assert!(h.is_empty(), "and it did not enter the holding");
}

#[test]
fn a_sale_posts_three_legs_and_conserves() {
    let ps = sale_postings(ROLES, Some("USD"), "VTI", 10, 100, 150).unwrap();
    assert_eq!(ps.len(), 3);
    assert_eq!(ps.iter().map(|p| p.amount).sum::<i64>(), 0, "it conserves");
    assert_eq!(ps[2].amount, -50, "the gain, credit-normal");
    assert_eq!(ps[0].quantity, Some(-10), "the units leave with the value");
    assert_eq!(ps[..2].iter().map(|p| p.amount).sum::<i64>(), 50);
}

#[test]
fn a_loss_needs_no_separate_account() {
    let ps = sale_postings(ROLES, Some("USD"), "VTI", 10, 150, 100).unwrap();
    assert_eq!(ps[2].amount, 50, "a debit, which is what a loss is");
    assert_eq!(ps.iter().map(|p| p.amount).sum::<i64>(), 0);
}

#[test]
fn a_sale_at_cost_still_posts_three_legs() {
    let ps = sale_postings(ROLES, Some("USD"), "VTI", 10, 100, 100).unwrap();
    assert_eq!(ps.len(), 3);
    assert_eq!(ps[2].amount, 0, "a zero leg, deliberately present");
}

#[test]
fn a_collided_chart_is_refused_before_it_posts() {
    let bad = ChartRoles { investments: 1, cash: 2, realized_gain: 1, currency_conversion: None };
    let err = sale_postings(bad, Some("USD"), "VTI", 10, 100, 150).unwrap_err();
    assert!(err.message().contains("net against the disposal"), "{}", err.message());
}

#[test]
fn every_leg_carries_the_currency_of_the_sale() {
    let ps = sale_postings(ROLES, Some("EUR"), "VWRL", 5, 100, 120).unwrap();
    assert!(ps.iter().all(|p| p.currency.as_deref() == Some("EUR")));
}

#[test]
fn a_sale_costs_what_it_consumes() {
    let r = relieve(&[l(1, 10, 200), l(2, 5, 50)], 10).unwrap();
    assert_eq!(r.cost, 200);
    assert_eq!(r.left, vec![l(2, 5, 50)], "and leaves the rest alone");
}

#[test]
fn what_was_taken_plus_what_remains_is_what_was_there() {
    let lots = [l(1, 10, 200), l(2, 5, 50), l(3, 8, 400)];
    for want in 0..=23i64 {
        let r = relieve(&lots, want).unwrap();
        assert_eq!(r.cost + r.left.iter().map(|x| x.cost).sum::<i64>(), 650, "cost, at want={want}");
        assert_eq!(
            r.taken.iter().map(|t| t.units).sum::<i64>() + r.left.iter().map(|x| x.units).sum::<i64>(),
            23,
            "units, at want={want}"
        );
        assert_eq!(r.taken.iter().map(|t| t.units).sum::<i64>(), want, "sold exactly {want}");
    }
}

#[test]
fn a_partial_relief_is_exactly_pro_rata() {
    let r = relieve(&[l(1, 10, 200)], 4).unwrap();
    assert_eq!(r.cost, 80);
    assert_eq!(r.left, vec![l(1, 6, 120)]);
}

#[test]
fn a_partial_relief_that_would_round_is_refused() {
    let err = relieve(&[l(1, 7, 100)], 3).unwrap_err();
    assert!(err.message().contains("term of an administration agreement"), "{}", err.message());
}

#[test]
fn a_husk_is_refused_rather_than_consumed() {
    let err = relieve(&[l(1, 0, 100), l(2, 10, 200)], 5).unwrap_err();
    assert!(err.message().contains("give away its basis"), "{}", err.message());
    assert_eq!(relieve(&[l(2, 10, 200)], 5).unwrap().cost, 100);
}

#[test]
fn a_fully_relieved_lot_is_not_a_husk() {
    let r = relieve(&[l(1, 0, 0), l(2, 10, 200)], 5).unwrap();
    assert_eq!(r.cost, 100);
}

#[test]
fn fifo_is_the_sequence_not_the_vector_order() {
    let jumbled = [l(9, 1, 90), l(1, 1, 10), l(5, 1, 50)];
    let r = relieve(&jumbled, 1).unwrap();
    assert_eq!(r.taken[0].seq, 1, "the OLDEST lot");
    assert_eq!(r.cost, 10, "not 90");
}

#[test]
fn the_configured_method_reaches_the_engine() {
    let lots = [l(1, 1, 10), l(2, 1, 40)];
    for (declared, expect) in [(LotMethod::Fifo, 10i64), (LotMethod::Lifo, 40), (LotMethod::Hifo, 40), (LotMethod::Lofo, 10)] {
        let m: Method = declared.into();
        assert_eq!(relieve_by(m, &lots, 1).unwrap().cost, expect, "{declared:?} did not reach the engine as itself");
    }
    assert_eq!(Method::from(LotMethod::default()), Method::Fifo);
    let dated_lots = [dated(1, 1, 10, "2026-01-01"), dated(2, 1, 40, "2024-01-01")];
    for (declared, expect) in [(LotMethod::LongestHeldFirst, 40i64), (LotMethod::ShortestHeldFirst, 10)] {
        let m: Method = declared.into();
        assert!(m.needs_acquisition_dates(), "{declared:?} needs dates");
        assert_eq!(relieve_by(m, &dated_lots, 1).unwrap().cost, expect, "{declared:?}");
    }
}

#[test]
fn the_method_decides_the_taxable_gain() {
    let lots = [l(1, 1, 10), l(2, 1, 40)];
    let g = |m| relieve_by(m, &lots, 1).unwrap().gain(50).unwrap();
    assert_eq!(g(Method::Fifo), 40, "gives up the OLD lot");
    assert_eq!(g(Method::Lifo), 10, "gives up the NEW lot");
    assert_eq!(g(Method::Hifo), 10, "gives up the DEAR lot");
    assert_eq!(g(Method::Lofo), 40, "gives up the CHEAP lot");
}

#[test]
fn hifo_is_per_unit_not_per_lot() {
    let lots = [l(1, 100, 1_000), l(2, 1, 50)];
    let r = relieve_by(Method::Hifo, &lots, 1).unwrap();
    assert_eq!(r.cost, 50, "the small DEAR lot, not the large cheap one");
    assert_eq!(r.taken[0].seq, 2);
}

#[test]
fn the_tiebreak_does_not_override_the_method() {
    let lots = [l(1, 1, 10), l(2, 1, 40)];
    assert_eq!(relieve_by(Method::Hifo, &lots, 1).unwrap().cost, 40, "the dear lot");
    assert_eq!(relieve_by(Method::Fifo, &lots, 1).unwrap().cost, 10, "the old lot");
}

#[test]
fn every_method_conserves_whatever_it_chooses() {
    let lots = [l(1, 10, 200), l(2, 5, 50), l(3, 8, 400)];
    for m in [Method::Fifo, Method::Lifo, Method::Hifo, Method::Lofo] {
        for want in 0..=23i64 {
            let r = relieve_by(m, &lots, want).unwrap();
            assert_eq!(r.cost + r.left.iter().map(|x| x.cost).sum::<i64>(), 650, "{m:?} at want={want}");
            assert_eq!(r.taken.iter().map(|t| t.units).sum::<i64>(), want, "{m:?}");
        }
    }
}

#[test]
fn a_holding_period_method_refuses_a_lot_with_no_date() {
    let lots = [dated(1, 1, 10, "2024-01-01"), l(2, 1, 40)];
    let err = relieve_by(Method::LongestHeldFirst, &lots, 1).unwrap_err();
    let msg = err.message();
    assert!(msg.contains("no acquisition date"), "{msg}");
    assert!(msg.contains("wrong in opposite directions"), "names why: {msg}");
    assert!(relieve_by(Method::Fifo, &lots, 1).is_ok());
    assert!(relieve_by(Method::Hifo, &lots, 1).is_ok());
}

#[test]
fn holding_period_orders_by_date_not_by_sequence() {
    let lots = [dated(1, 1, 10, "2026-01-01"), dated(2, 1, 40, "2024-01-01")];
    let long = relieve_by(Method::LongestHeldFirst, &lots, 1).unwrap();
    assert_eq!(long.taken[0].seq, 2, "the one held longest, not the first ordinal");
    let short = relieve_by(Method::ShortestHeldFirst, &lots, 1).unwrap();
    assert_eq!(short.taken[0].seq, 1);
}

#[test]
fn equal_dates_fall_back_to_acquisition_order() {
    let lots = [dated(2, 1, 40, "2025-06-01"), dated(1, 1, 10, "2025-06-01")];
    let r = relieve_by(Method::LongestHeldFirst, &lots, 1).unwrap();
    assert_eq!(r.taken[0].seq, 1);
}

#[test]
fn the_gain_is_proceeds_less_what_it_cost() {
    let r = relieve(&[l(1, 1, 10), l(2, 1, 40)], 1).unwrap();
    assert_eq!(r.gain(50).unwrap(), 40, "FIFO gives up the cheap lot");
    assert_eq!(r.gain(50).unwrap() + r.cost, 50, "and the two are the proceeds");
}

#[test]
fn selling_more_than_the_holding_is_refused() {
    let err = relieve(&[l(1, 10, 200)], 11).unwrap_err();
    assert!(err.message().contains("1 units short"), "{}", err.message());
    assert!(relieve(&[l(1, 10, 200)], -1).is_err(), "and a negative sale is not a sale");
}

#[test]
fn selling_everything_leaves_nothing() {
    let r = relieve(&[l(1, 10, 200), l(2, 5, 50)], 15).unwrap();
    assert!(r.left.is_empty());
    assert_eq!(r.cost, 250);
}

#[test]
fn a_sale_of_nothing_disturbs_nothing() {
    let lots = [l(1, 10, 200), l(2, 5, 50)];
    let r = relieve(&lots, 0).unwrap();
    assert!(r.taken.is_empty());
    assert_eq!(r.left, lots.to_vec());
    assert_eq!(r.gain(0).unwrap(), 0);
}

#[test]
fn an_overflowing_pro_rata_split_is_refused() {
    let err = relieve(&[l(1, 1_000_000, i64::MAX / 2)], 999_999).unwrap_err();
    assert!(err.message().contains("64 bits"), "{}", err.message());
}

#[test]
fn the_window_reaches_backwards_too() {
    assert!(in_wash_window(30, 100, 95));
    assert!(in_wash_window(30, 100, 105));
    assert!(!in_wash_window(30, 100, 69));
    assert!(!in_wash_window(30, 100, 131));
    assert!(in_wash_window(30, 0, 25));
    assert!(!in_wash_window(10, 0, 25));
}

#[test]
fn a_gain_is_never_washed() {
    assert_eq!(disallowed(40, 100, 100).unwrap(), 0);
    assert_eq!(disallowed(40, 1, 1_000).unwrap(), 0);
}

#[test]
fn repurchasing_everything_defers_the_whole_loss() {
    assert_eq!(disallowed(-1000, 100, 100).unwrap(), 1000);
}

#[test]
fn repurchasing_more_than_was_sold_defers_no_more() {
    assert_eq!(disallowed(-1000, 100, 250).unwrap(), 1000);
}

#[test]
fn repurchasing_part_defers_exactly_that_part() {
    assert_eq!(disallowed(-1000, 100, 40).unwrap(), 400);
}

#[test]
fn a_wash_split_that_does_not_divide_is_refused() {
    let err = disallowed(-1000, 3, 1).unwrap_err();
    assert!(err.message().contains("administration agreement"), "{}", err.message());
}

#[test]
fn the_wash_rule_moves_a_loss_it_does_not_remove_it() {
    let loss = -1000i64;
    let d = 1000i64;
    let replacement_cost = 5000i64;
    let later_proceeds = 5000i64;
    let now = recognized_now(loss, d).unwrap();
    let later = later_proceeds - replacement_basis(replacement_cost, d).unwrap();
    assert_eq!(now + later, loss + (later_proceeds - replacement_cost));
    assert_ne!(now + (later_proceeds - replacement_cost), loss + (later_proceeds - replacement_cost));
}

#[test]
fn attaching_cannot_write_a_lot_the_sale_took() {
    let r = relieve(&[l(1, 1, 10), l(2, 1, 40)], 1).unwrap();
    let err = attach_to(&r.left, 1, 100).unwrap_err();
    assert!(err.message().contains("not open"), "{}", err.message());
    assert_eq!(attach_to(&r.left, 2, 100).unwrap(), vec![l(2, 1, 140)]);

    let mut h = Holding::new(Method::Fifo);
    h.push(l(1, 1, 10)).unwrap();
    h.push(l(2, 1, 40)).unwrap();
    h.relieve(Method::Fifo, 1).unwrap();
    let err = h.attach(1, 100, None).unwrap_err();
    assert!(err.message().contains("not open"), "{}", err.message());
    h.attach(2, 100, None).unwrap();
    assert_eq!(h.get(2).unwrap().cost, 140);
}

#[test]
fn a_negative_deferral_is_refused() {
    assert!(attach_to(&[l(1, 1, 10)], 1, -1).is_err());
    let mut h = Holding::new(Method::Fifo);
    h.push(l(1, 1, 10)).unwrap();
    let err = h.attach(1, -1, None).unwrap_err();
    assert!(err.message().contains("washing a gain"), "{}", err.message());
    assert_eq!(h.lots()[0].cost, 10, "and it did not write");
}

#[test]
fn a_later_sale_of_the_replacement_takes_the_adjusted_basis() {
    let held = attach_to(&[l(2, 1, 40)], 2, 1000).unwrap();
    let r = relieve(&held, 1).unwrap();
    assert_eq!(r.cost, 1040);
}

#[test]
fn a_wash_write_changes_what_a_later_method_gives_up() {
    let lots = [l(1, 1, 25), l(2, 1, 10)];
    assert_eq!(relieve_by(Method::Hifo, &lots, 1).unwrap().cost, 25);
    let washed = attach_to(&lots, 2, 20).unwrap();
    assert_eq!(relieve_by(Method::Hifo, &washed, 1).unwrap().cost, 30);
    let mut h = Holding::new(Method::Hifo);
    h.push(l(1, 1, 25)).unwrap();
    h.push(l(2, 1, 10)).unwrap();
    h.attach(2, 20, None).unwrap();
    assert_eq!(h.relieve(Method::Hifo, 1).unwrap().cost, 30);
}

#[test]
fn the_method_decides_whether_there_is_a_loss_to_wash() {
    let lots = [l(1, 1, 10), l(2, 1, 40)];
    let fifo = relieve_by(Method::Fifo, &lots, 1).unwrap();
    let lifo = relieve_by(Method::Lifo, &lots, 1).unwrap();
    assert_eq!(disallowed(fifo.gain(20).unwrap(), 1, 1).unwrap(), 0);
    assert_eq!(disallowed(lifo.gain(20).unwrap(), 1, 1).unwrap(), 20);
}

#[test]
fn the_transferred_period_decides_the_rate() {
    let transferred = replacement_acquired(Some(0), Some(300));
    assert_eq!(transferred, Some(0));
    assert!(400 - transferred.unwrap() as i64 >= 365);
    assert!(400 - 300 < 365);
}

#[test]
fn choosing_the_wrong_rule_flips_the_rate() {
    let transfer = acquired_for(false, Some(0), Some(300)).unwrap();
    let keep = acquired_for(true, Some(0), Some(300)).unwrap();
    assert_eq!(transfer, 0);
    assert_eq!(keep, 300);
    assert!(is_long_term(365, transfer, 400));
    assert!(!is_long_term(365, keep, 400));
    assert_eq!(replacement_basis(500, 1000).unwrap(), 1500);
}

#[test]
fn assuming_us_transfer_when_the_election_is_keep_is_the_wrong_rate() {
    let usurped = replacement_acquired(Some(0), Some(300)).unwrap();
    let elected = acquired_for(true, Some(0), Some(300)).unwrap();
    assert!(is_long_term(365, usurped, 400));
    assert!(!is_long_term(365, elected, 400));
}

#[test]
fn a_keep_write_leaves_the_repurchase_date() {
    assert_eq!(acquired_write(true, Some(0)), None);
    assert_eq!(acquired_write(false, Some(0)), Some(0));

    let mut h = Holding::new(Method::Fifo);
    h.push(dated(1, 100, 2000, "2026-01-01")).unwrap();
    h.push(dated(2, 40, 500, "2026-06-10")).unwrap();
    let taken = h.relieve(Method::Fifo, 100).unwrap();
    let loss = taken.gain(1000).unwrap();
    let sale = iso("2026-06-15");
    let write = acquired_write(true, taken.taken[0].acquired);
    let w = wash_open(&mut h, loss, 100, sale, 30, write, &taken.taken).unwrap();
    assert_eq!(w.attached, 400);
    assert_eq!(h.get(2).unwrap().cost, 900, "the write is still the write");
    assert_eq!(h.get(2).unwrap().acquired, Some(iso("2026-06-10")), "keep leaves the repurchase's own date");
    assert_eq!(h.relieve(Method::Fifo, 40).unwrap().cost, 900);
}

#[test]
fn an_in_window_repurchase_raises_the_replacement_basis() {
    let mut h = Holding::new(Method::Fifo);
    h.push(dated(1, 100, 2000, "2026-01-01")).unwrap();
    h.push(dated(2, 40, 500, "2026-06-10")).unwrap();
    let taken = h.relieve(Method::Fifo, 100).unwrap();
    assert_eq!(taken.cost, 2000);
    let loss = taken.gain(1000).unwrap();
    let sale = iso("2026-06-15");
    let w = wash_open(&mut h, loss, 100, sale, 30, taken.taken[0].acquired, &taken.taken).unwrap();
    assert_eq!(w.attached, 400, "forty of a hundred, pro rata");
    assert_eq!(h.get(2).unwrap().cost, 900, "500 + 400");
    assert_eq!(h.get(2).unwrap().acquired, taken.taken[0].acquired, "the period transfers with the basis");
    assert_eq!(h.relieve(Method::Fifo, 40).unwrap().cost, 900);
}

#[test]
fn an_out_of_window_repurchase_does_not_raise_the_replacement_basis() {
    let mut h = Holding::new(Method::Fifo);
    h.push(dated(1, 100, 2000, "2026-01-01")).unwrap();
    h.push(dated(2, 40, 500, "2026-04-01")).unwrap();
    let taken = h.relieve(Method::Fifo, 100).unwrap();
    let loss = taken.gain(1000).unwrap();
    let sale = iso("2026-06-15");
    let w = wash_open(&mut h, loss, 100, sale, 30, taken.taken[0].acquired, &taken.taken).unwrap();
    assert_eq!(w.attached, 0);
    assert_eq!(h.get(2).unwrap().cost, 500, "untouched");
    assert_eq!(h.get(2).unwrap().acquired, dated(2, 40, 500, "2026-04-01").acquired);
}

#[test]
fn a_partial_remainder_of_the_sold_lot_is_not_a_replacement() {
    let mut h = Holding::new(Method::Fifo);
    h.push(dated(1, 100, 2000, "2026-06-01")).unwrap();
    let taken = h.relieve(Method::Fifo, 40).unwrap();
    assert_eq!(taken.cost, 800);
    let loss = taken.gain(200).unwrap();
    let sale = iso("2026-06-15");
    let w = wash_open(&mut h, loss, 40, sale, 30, taken.taken[0].acquired, &taken.taken).unwrap();
    assert_eq!(w.attached, 0);
    assert_eq!(h.get(1).unwrap().cost, 1200, "the remainder is untouched");
}

#[test]
fn a_forward_repurchase_attaches_when_the_replacement_opens() {
    let mut h = Holding::new(Method::Fifo);
    h.push(dated(1, 100, 2000, "2026-01-01")).unwrap();
    let taken = h.relieve(Method::Fifo, 100).unwrap();
    let loss = taken.gain(1000).unwrap();
    h.push(dated(2, 40, 500, "2026-06-20")).unwrap();
    let (d, remaining_units, remaining_loss) = wash_purchase(&mut h, 2, 40, loss, 100, taken.taken[0].acquired).unwrap();
    assert_eq!(d, 400);
    assert_eq!(remaining_units, 60);
    assert_eq!(remaining_loss, -600);
    assert_eq!(h.get(2).unwrap().cost, 900);
}

#[test]
fn an_overflowing_wash_split_is_refused() {
    let err = disallowed(i64::MIN, 2, 1).unwrap_err();
    assert!(err.message().contains("64 bits"), "{}", err.message());
}

fn struck(prefix: u64, sold_on: Day, day: Day, figure: i64) -> StruckGain {
    strike_gain(StrikeId { prefix }, 30, sold_on, day, figure).unwrap()
}

#[test]
fn a_closed_window_is_not_qualified() {
    assert!(!struck(7, 100, 131, -1000).qualified);
    assert!(struck(7, 100, 105, -1000).qualified);
    assert!(window_still_open(30, 100, 130).unwrap());
    assert!(!window_still_open(30, 100, 131).unwrap());
}

#[test]
fn restatement_cites_the_strike_it_supersedes() {
    let s = struck(7, 100, 105, -1000);
    let r = restate(&s, 30, 110, -600).expect("an in-window move restates");
    assert_eq!(s.figure, -1000, "the strike was not rewritten");
    assert_eq!(r.cites, StrikeId { prefix: 7 });
    assert_eq!(r.original, -1000);
    assert_eq!(r.moved_to, -600);
}

#[test]
fn a_wash_that_does_not_change_the_figure_does_not_restate() {
    let s = struck(7, 100, 105, -1000);
    assert!(restate(&s, 30, 110, -1000).is_none());
    assert!(restate(&s, 30, 200, -600).is_none(), "outside the window");
}

#[test]
fn a_silent_strike_that_was_restated_says_so() {
    let s = StruckGain { id: StrikeId { prefix: 7 }, sold_on: 100, figure: -1000, qualified: false };
    let r = restate(&s, 30, 110, -600);
    assert!(says_so(&s, r.as_ref()));
    assert!(says_so(&struck(7, 100, 105, -1000), None));
    assert!(!says_so(&s, None), "the third case: struck clean, nothing said");
}

#[test]
fn rewriting_in_place_keeps_the_id_and_changes_the_figure() {
    let s = StruckGain { id: StrikeId { prefix: 7 }, sold_on: 100, figure: -1000, qualified: false };
    let s = rewrite_in_place(s, -600);
    assert_eq!(s.id, StrikeId { prefix: 7 });
    assert_eq!(s.figure, -600);
    assert!(!s.qualified);
    assert_ne!(s, StruckGain { id: StrikeId { prefix: 7 }, sold_on: 100, figure: -1000, qualified: false });
}

#[test]
fn restatement_and_rewrite_are_not_the_same_operation() {
    let s = StruckGain { id: StrikeId { prefix: 7 }, sold_on: 100, figure: -1000, qualified: false };
    assert_eq!(
        restate(&s, 30, 110, -600),
        Some(Restatement { cites: StrikeId { prefix: 7 }, original: -1000, moved_to: -600 })
    );
    assert_eq!(
        rewrite_in_place(s, -600),
        StruckGain { id: StrikeId { prefix: 7 }, sold_on: 100, figure: -600, qualified: false }
    );
}

#[test]
fn an_overflowing_window_close_is_refused() {
    let err = window_still_open(i64::MAX, 1, 0).unwrap_err();
    assert!(err.message().contains("64 bits"), "{}", err.message());
}

fn close_bases() -> [Lot; 2] {
    [dated(1, 1, 10, "2025-10-01"), dated(2, 1, 12, "2023-01-01")]
}

fn as_of() -> Day {
    iso("2026-01-01")
}

#[test]
fn a_price_that_does_not_divide_is_refused() {
    let err = unit_price(100, 3).unwrap_err();
    assert!(err.message().contains("does not divide"), "{}", err.message());
    assert_eq!(unit_price(150, 3).unwrap(), 50);
}

#[test]
fn mintax_takes_different_lots_at_the_two_prices() {
    let lots = close_bases();
    let at_50 = relieve_min_tax(&lots, 1, 50, 2, 365, as_of()).unwrap();
    let at_5 = relieve_min_tax(&lots, 1, 5, 2, 365, as_of()).unwrap();
    assert_eq!(at_50.cost, 12, "at a gain the long lot costs less");
    assert_eq!(at_5.cost, 10, "at a loss the short lot is worth more");
}

#[test]
fn equal_tax_falls_back_to_acquisition_order() {
    let lots = [dated(2, 1, 10, "2025-10-01"), dated(1, 1, 10, "2025-10-01")];
    let r = relieve_min_tax(&lots, 1, 50, 2, 365, as_of()).unwrap();
    assert_eq!(r.taken[0].seq, 1);
}

#[test]
fn mintax_is_not_a_method_variant() {
    match Method::Fifo {
        Method::Fifo | Method::Lifo | Method::Hifo | Method::Lofo | Method::LongestHeldFirst | Method::ShortestHeldFirst => {}
    }
}

#[test]
fn holding_relieve_min_tax_takes_the_long_lot_at_a_gain() {
    let mut h = Holding::new(Method::Fifo);
    h.push(dated(1, 1, 10, "2025-10-01")).unwrap();
    h.push(dated(2, 1, 12, "2023-01-01")).unwrap();
    let r = h.relieve_min_tax(1, 50, 2, 365, as_of()).unwrap();
    assert_eq!(r.cost, 12);
    assert_eq!(h.lots().len(), 1);
    assert_eq!(h.lots()[0].seq, 1);
}

#[test]
fn an_overflowing_mintax_rank_is_refused() {
    let lots = [dated(1, i64::MAX, i64::MAX / 2, "2023-01-01")];
    let err = relieve_min_tax(&lots, 1, i64::MAX, 2, 365, as_of()).unwrap_err();
    assert!(err.message().contains("64 bits"), "{}", err.message());
}

fn spec_holding() -> [Lot; 3] {
    [l(1, 1, 10), l(2, 1, 40), l(3, 1, 70)]
}

#[test]
fn specid_takes_from_the_middle() {
    let r = relieve_spec_id(&spec_holding(), 1, &[2]).unwrap();
    assert_eq!(r.cost, 40);
    assert_eq!(r.taken[0].seq, 2);
    let left: Vec<u64> = r.left.iter().map(|l| l.seq).collect();
    assert_eq!(left, vec![1, 3]);
}

#[test]
fn no_ordering_takes_the_middle_lot() {
    let lots = spec_holding();
    let named = relieve_spec_id(&lots, 1, &[2]).unwrap().cost;
    assert_eq!(named, 40);
    for m in [Method::Fifo, Method::Lifo, Method::Hifo, Method::Lofo] {
        assert_ne!(relieve_by(m, &lots, 1).unwrap().cost, named, "{m:?} took the middle lot from the holding alone");
    }
}

#[test]
fn an_unknown_lot_is_refused() {
    let err = relieve_spec_id(&spec_holding(), 1, &[9]).unwrap_err();
    assert!(err.message().contains("not in this holding"), "{}", err.message());
}

#[test]
fn an_overspecified_selection_is_refused() {
    let err = relieve_spec_id(&spec_holding(), 1, &[2, 3]).unwrap_err();
    assert!(err.message().contains("more lots than the sale"), "{}", err.message());
}

#[test]
fn an_insufficient_selection_is_refused() {
    let err = relieve_spec_id(&spec_holding(), 2, &[2]).unwrap_err();
    assert!(err.message().contains("short") || err.message().contains("units short"), "{}", err.message());
}

#[test]
fn an_unnamed_selection_is_refused() {
    let err = relieve_spec_id(&spec_holding(), 1, &[]).unwrap_err();
    assert!(err.message().contains("no lots were named"), "{}", err.message());
}

#[test]
fn a_duplicate_name_is_refused() {
    let err = relieve_spec_id(&spec_holding(), 1, &[2, 2]).unwrap_err();
    assert!(err.message().contains("named twice"), "{}", err.message());
}

#[test]
fn specid_partial_relief_is_exactly_pro_rata() {
    let err = relieve_spec_id(&[l(1, 7, 100)], 3, &[1]).unwrap_err();
    assert!(err.message().contains("does not divide"), "{}", err.message());
}

#[test]
fn specid_inherits_the_husk() {
    let r = relieve_spec_id(&[l(1, 0, 40), l(2, 1, 10)], 1, &[1, 2]).unwrap();
    assert_eq!(r.cost, 50);
}

#[test]
fn a_husk_that_was_not_named_stays() {
    let r = relieve_spec_id(&[l(1, 0, 40), l(2, 1, 10)], 1, &[2]).unwrap();
    assert_eq!(r.cost, 10);
    assert_eq!(r.left.iter().map(|l| l.seq).collect::<Vec<_>>(), vec![1]);
}

#[test]
fn specid_is_not_a_method_variant() {
    match Method::Fifo {
        Method::Fifo | Method::Lifo | Method::Hifo | Method::Lofo | Method::LongestHeldFirst | Method::ShortestHeldFirst => {}
    }
}

#[test]
fn holding_relieve_spec_id_takes_the_named_lot() {
    let mut h = Holding::new(Method::Fifo);
    h.push(l(1, 1, 10)).unwrap();
    h.push(l(2, 1, 40)).unwrap();
    h.push(l(3, 1, 70)).unwrap();
    let r = h.relieve_spec_id(1, &[2]).unwrap();
    assert_eq!(r.cost, 40);
    let left: Vec<u64> = h.lots().iter().map(|l| l.seq).collect();
    assert_eq!(left, vec![1, 3]);
}

fn pool_holding() -> [Lot; 3] {
    [l(1, 1, 10), l(2, 1, 20), l(3, 1, 60)]
}

#[test]
fn the_pooled_basis_is_not_any_lots_basis() {
    assert_eq!(pooled_basis(&pool_holding()).unwrap(), 30);
    let r = relieve_average_cost(&pool_holding(), 1).unwrap();
    assert_eq!(r.cost, 30);
    assert_eq!(r.taken[0].seq, 0, "the pool is the holding, not a lot");
    assert_eq!(r.left.len(), 1);
    assert_eq!(r.left[0].seq, 0);
    assert_eq!(r.left[0].units, 2);
    assert_eq!(r.left[0].cost, 60);
}

#[test]
fn no_ordering_gives_up_the_pooled_basis() {
    let lots = pool_holding();
    let pooled = relieve_average_cost(&lots, 1).unwrap().cost;
    assert_eq!(pooled, 30);
    for m in [Method::Fifo, Method::Lifo, Method::Hifo, Method::Lofo] {
        assert_ne!(relieve_by(m, &lots, 1).unwrap().cost, pooled, "{m:?} gave up the pooled basis from the lots alone");
    }
}

#[test]
fn an_ordering_leaves_the_other_lots() {
    let r = relieve_by(Method::Fifo, &pool_holding(), 1).unwrap();
    assert_eq!(r.cost, 10);
    let left: Vec<i64> = r.left.iter().map(|l| l.cost).collect();
    assert_eq!(left, vec![20, 60]);
}

#[test]
fn the_pooled_remainder_is_not_the_unnamed_lots() {
    let lots = [l(1, 1, 10), l(2, 1, 40), l(3, 1, 70)];
    let pooled = relieve_average_cost(&lots, 1).unwrap();
    let named = relieve_spec_id(&lots, 1, &[2]).unwrap();
    assert_eq!(pooled.cost, 40);
    assert_eq!(named.cost, 40);
    assert_eq!(pooled.left.len(), 1);
    assert_eq!(pooled.left[0].units, 2);
    assert_eq!(pooled.left[0].cost, 80);
    let named_left: Vec<i64> = named.left.iter().map(|l| l.cost).collect();
    assert_eq!(named_left, vec![10, 70]);
}

#[test]
fn an_average_that_does_not_divide_is_refused() {
    let err = relieve_average_cost(&[l(1, 1, 12), l(2, 1, 13)], 1).unwrap_err();
    assert!(err.message().contains("does not divide"), "{}", err.message());
}

#[test]
fn a_sale_bigger_than_the_pool_is_refused() {
    let err = relieve_average_cost(&pool_holding(), 4).unwrap_err();
    assert!(err.message().contains("short"), "{}", err.message());
}

#[test]
fn a_zero_unit_holding_has_no_pooled_basis() {
    let err = relieve_average_cost(&[], 1).unwrap_err();
    assert!(err.message().contains("no pooled basis"), "{}", err.message());
}

#[test]
fn a_partial_pool_is_still_the_unit_basis() {
    let r = relieve_average_cost(&pool_holding(), 2).unwrap();
    assert_eq!(r.cost, 60);
    assert_eq!(r.left[0].units, 1);
    assert_eq!(r.left[0].cost, 30);
}

#[test]
fn average_cost_absorbs_the_husk() {
    let r = relieve_average_cost(&[l(1, 0, 40), l(2, 1, 10)], 1).unwrap();
    assert_eq!(r.cost, 50);
    assert!(r.left.is_empty());
}

#[test]
fn average_cost_is_not_a_method_variant() {
    match Method::Fifo {
        Method::Fifo | Method::Lifo | Method::Hifo | Method::Lofo | Method::LongestHeldFirst | Method::ShortestHeldFirst => {}
    }
}

#[test]
fn holding_relieve_average_cost_leaves_a_pool() {
    let mut h = Holding::new(Method::Fifo);
    h.push(l(1, 1, 10)).unwrap();
    h.push(l(2, 1, 20)).unwrap();
    h.push(l(3, 1, 60)).unwrap();
    let r = h.relieve_average_cost(1).unwrap();
    assert_eq!(r.cost, 30);
    assert_eq!(h.lots().len(), 1);
    assert_eq!(h.lots()[0].seq, 0);
    assert_eq!(h.lots()[0].units, 2);
    assert_eq!(h.lots()[0].cost, 60);
}

#[test]
fn an_overflowing_pool_sum_is_refused() {
    let lots = [l(1, 1, i64::MAX), l(2, 1, 1)];
    let err = relieve_average_cost(&lots, 1).unwrap_err();
    assert!(err.message().contains("64 bits"), "{}", err.message());
}

#[test]
fn far_bases_do_not_flip() {
    let lots = [dated(1, 1, 10, "2025-10-01"), dated(2, 1, 40, "2023-01-01")];
    assert_eq!(relieve_min_tax(&lots, 1, 50, 2, 365, as_of()).unwrap().taken[0].seq, 2);
    assert_eq!(relieve_min_tax(&lots, 1, 5, 2, 365, as_of()).unwrap().taken[0].seq, 2);
}

#[test]
fn no_ordering_reproduces_both_mintax_answers() {
    let lots = close_bases();
    let mintax_gain = relieve_min_tax(&lots, 1, 50, 2, 365, as_of()).unwrap().cost;
    let mintax_loss = relieve_min_tax(&lots, 1, 5, 2, 365, as_of()).unwrap().cost;
    assert_eq!(mintax_gain, 12);
    assert_eq!(mintax_loss, 10);
    for m in [Method::Fifo, Method::Lifo, Method::Hifo, Method::Lofo] {
        let cost = relieve_by(m, &lots, 1).unwrap().cost;
        assert!(cost != mintax_gain || cost != mintax_loss, "{m:?} reproduced both MinTax answers from lots alone");
    }
}

#[test]
fn preferring_long_term_is_not_minimising_tax() {
    let lots = close_bases();
    let long = relieve_by(Method::LongestHeldFirst, &lots, 1).unwrap();
    let min_at_5 = relieve_min_tax(&lots, 1, 5, 2, 365, as_of()).unwrap();
    assert_eq!(long.taken[0].seq, 2, "prefer-long always takes B");
    assert_eq!(min_at_5.taken[0].seq, 1, "min-tax at 5 takes A");
}

#[test]
fn a_missing_acquisition_date_refuses_mintax() {
    let lots = [l(1, 1, 10)];
    let err = relieve_min_tax(&lots, 1, 50, 2, 365, as_of()).unwrap_err();
    assert!(err.message().contains("no acquisition date"), "{}", err.message());
}

#[test]
fn mintax_partial_relief_is_exactly_pro_rata() {
    let lots = [dated(1, 7, 100, "2023-01-01")];
    let err = relieve_min_tax(&lots, 3, 50, 2, 365, as_of()).unwrap_err();
    assert!(err.message().contains("does not divide"), "{}", err.message());
}


#[test]
fn the_lot_peeked_is_the_lot_the_next_relief_gives_up() {
    for m in [Method::Fifo, Method::Lifo, Method::Hifo, Method::Lofo, Method::LongestHeldFirst, Method::ShortestHeldFirst] {
        let mut h = Holding::new(m);
        h.push(dated(1, 10, 100, "2024-01-01")).unwrap();
        h.push(dated(2, 1, 400, "2023-01-01")).unwrap();
        h.push(dated(3, 10, 50, "2026-01-01")).unwrap();
        let next = *h.peek().unwrap();
        let r = h.clone().relieve(m, next.units).unwrap();
        assert_eq!(r.taken.len(), 1, "{m:?}");
        assert_eq!((r.taken[0].seq, r.taken[0].units, r.taken[0].cost), (next.seq, next.units, next.cost), "{m:?}");
        assert_eq!(r.cost, next.cost);
    }
}
