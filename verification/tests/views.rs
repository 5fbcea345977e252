use ratio::dates::days_from_iso_date;
use ratio::relief::Day;
use ratio::rules::{Basis, Calendar, RuleSet, View};
use ratio::views::{Placement, ViewDef};

fn day(s: &str) -> Day {
    days_from_iso_date(s).unwrap() as Day
}

fn settled(days: i64, weekend: Vec<i64>, holidays: &[&str]) -> ViewDef {
    ViewDef {
        id: "ibor".into(),
        display_name: "IBOR".into(),
        basis: Basis::Settlement,
        settles_in: days,
        holidays: holidays.iter().map(|d| day(d)).collect(),
        weekend,
        declared: true,
    }
}

#[test]
fn a_settlement_view_skips_the_weekend() {
    let v = settled(2, vec![0, 6], &[]);
    assert_eq!(v.placement("e1", Some(day("2026-02-27"))), Placement::On(day("2026-03-03")));
}

#[test]
fn a_holiday_pushes_the_settlement_a_day_further() {
    let v = settled(2, vec![0, 6], &["2026-03-02"]);
    assert_eq!(v.placement("e1", Some(day("2026-02-27"))), Placement::On(day("2026-03-04")));
}

#[test]
fn a_calendar_that_never_opens_refuses_rather_than_looping() {
    let mut v = settled(1, vec![0, 1, 2, 3, 4, 5], &[]);
    let start = day("2026-02-27");
    v.holidays = (0..80).map(|i| start + i).collect();
    match v.placement("e1", Some(start)) {
        Placement::Unplaceable(why) => assert!(why.contains("e1"), "{why}"),
        other => panic!("a calendar that never opens placed the entry as {other:?}"),
    }
}

#[test]
fn an_undated_entry_is_refused_by_an_election_and_placed_by_the_default() {
    let recorded = ViewDef::undeclared();
    assert_eq!(recorded.placement("e1", None), Placement::Always);
    assert!(!recorded.declared, "nobody said");

    for basis in [Basis::Trade, Basis::Settlement] {
        let mut v = settled(2, vec![0, 6], &[]);
        v.basis = basis;
        match v.placement("e1", None) {
            Placement::Unplaceable(why) => {
                assert!(why.contains("e1"), "the refusal must name the entry: {why}")
            }
            other => panic!("{basis:?} placed an undated entry as {other:?}"),
        }
    }
}

#[test]
fn the_settlement_day_itself_is_recognised() {
    let v = settled(2, vec![0, 6], &[]);
    let p = v.placement("e1", Some(day("2026-02-27")));
    assert!(v.recognises(&p, Some(day("2026-03-03"))), "the day itself is in");
    assert!(!v.recognises(&p, Some(day("2026-03-02"))), "the day before is not");
}

#[test]
fn a_fold_with_no_cut_recognises_everything_either_view_can_place() {
    let mut trade = settled(0, vec![], &[]);
    trade.basis = Basis::Trade;
    let settle = settled(2, vec![0, 6], &[]);
    let d = Some(day("2026-02-27"));
    assert!(trade.recognises(&trade.placement("e1", d), None));
    assert!(settle.recognises(&settle.placement("e1", d), None));
}

#[test]
fn an_unplaceable_entry_is_never_recognised() {
    let v = settled(2, vec![0, 6], &[]);
    let p = v.placement("e1", None);
    assert!(!v.recognises(&p, None));
    assert!(!v.recognises(&p, Some(day("2030-01-01"))));
}

#[test]
fn a_trade_view_places_on_the_trade_date() {
    let mut v = settled(0, vec![], &[]);
    v.basis = Basis::Trade;
    assert_eq!(v.placement("e1", Some(day("2026-02-28"))), Placement::On(day("2026-02-28")));
}

#[test]
fn a_settlement_date_is_never_before_the_trade() {
    let v = settled(3, vec![0, 6], &["2026-03-02", "2026-03-03"]);
    for offset in 0..40 {
        let t = day("2026-02-01") + offset;
        match v.placement("e1", Some(t)) {
            Placement::On(s) => assert!(s > t, "settled {s} on a trade of {t}"),
            other => panic!("unexpected {other:?}"),
        }
    }
}

#[test]
fn a_book_that_declares_no_views_has_the_journal_order() {
    let defs = ViewDef::of(&RuleSet::default());
    assert_eq!(defs.len(), 1);
    assert_eq!(defs[0], ViewDef::undeclared());
    assert_eq!(defs[0].id, "book");
}

#[test]
fn a_declared_view_carries_its_calendar() {
    let set = RuleSet {
        views: vec![View {
            id: "ibor".into(),
            display_name: "IBOR".into(),
            basis: Basis::Settlement,
            settles_in: Some(2),
            calendar: Some("nyse".into()),
        }],
        calendars: vec![Calendar {
            id: "nyse".into(),
            holidays: vec!["2026-03-02".into()],
            weekend: vec![0, 6],
        }],
        ..RuleSet::default()
    };
    let defs = ViewDef::of(&set);
    assert_eq!(defs.len(), 1);
    assert!(defs[0].declared);
    assert_eq!(defs[0].settles_in, 2);
    assert_eq!(defs[0].holidays, vec![day("2026-03-02")]);
    assert_eq!(defs[0].weekend, vec![0, 6]);
    assert_eq!(defs[0].placement("e1", Some(day("2026-02-27"))), Placement::On(day("2026-03-04")));
}
