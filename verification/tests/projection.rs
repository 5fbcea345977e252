use ratio::chart::PostingRecord;
use ratio::dates::days_from_iso_date;
use ratio::project::{AsOf, Rates, Terms, RATE_SCALE};
use ratio::projection::Projection;
use ratio::relief::{relieve_average_cost, relieve_by, relieve_min_tax, relieve_spec_id, unit_price, Day, Lot, Method};
use ratio::wash::{restate, strike_gain, StrikeId};
use ratio::rules::{Basis, Calendar, ChartRoles, LotMethod, RuleSet, View, UNDECLARED_VIEW};
use ratio::views::ViewDef;
use ratio::sale::sale_postings;
use ratio::shadow::JournalEntry;

const B: &str = UNDECLARED_VIEW;
const FIFO: Method = Method::Fifo;
const ROLES: ChartRoles = ChartRoles { investments: 1, cash: 2, realized_gain: 30, currency_conversion: None };

fn day(iso: &str) -> Day {
    days_from_iso_date(iso).unwrap() as Day
}

fn entry(id: &str, memo: &str, postings: Vec<PostingRecord>, trade_date: Option<&str>) -> JournalEntry {
    JournalEntry {
        id: id.to_string(),
        memo: memo.to_string(),
        config: "cfg".to_string(),
        postings,
        trade_date: trade_date.map(|d| d.to_string()),
        announcement: None,
        identified_lots: None,
    }
}

fn leg(dim: i64, amount: i64, instrument: &str, quantity: i64) -> PostingRecord {
    PostingRecord { dim, amount, currency: None, instrument: Some(instrument.to_string()), quantity: Some(quantity) }
}

fn in_currency(dim: i64, amount: i64, currency: &str) -> PostingRecord {
    PostingRecord { dim, amount, currency: Some(currency.to_string()), instrument: None, quantity: None }
}

/// Purchases of one unit count each, in order, on an undated book.
fn book(trades: &[(&str, i64, i64)]) -> Vec<JournalEntry> {
    trades
        .iter()
        .enumerate()
        .map(|(n, (inst, cost, qty))| {
            entry(&format!("t{n}"), "buy", vec![leg(1, *cost, inst, *qty), PostingRecord::new(2, -*cost)], None)
        })
        .collect()
}

fn sell(id: &str, inst: &str, units: i64, cost: i64) -> JournalEntry {
    entry(id, "sell", vec![leg(1, -cost, inst, -units), PostingRecord::new(2, cost)], None)
}

fn buy_dated(id: &str, inst: &str, units: i64, cost: i64, day: &str) -> JournalEntry {
    entry(id, "buy", vec![leg(1, cost, inst, units), PostingRecord::new(2, -cost)], Some(day))
}

fn fold(js: &[JournalEntry]) -> Projection {
    Projection::rebuild(js, FIFO)
}

/// A book whose configuration names chart roles and a holding period.
struct GainBook {
    entries: Vec<JournalEntry>,
    terms: Terms,
}

impl GainBook {
    fn new(long_term_days: i64) -> GainBook {
        GainBook {
            entries: Vec::new(),
            terms: Terms {
                method: FIFO,
                roles: Some(ROLES),
                long_term_days,
                wash_window_days: None,
                min_tax_short_weight: None,
                average_cost: None,
                wash_keep_holding_period: None,
            },
        }
    }

    fn project(&self) -> Projection {
        let mut p = Projection::new();
        p.resolve_terms("cfg", Ok(self.terms));
        for e in &self.entries {
            p.fold_next(e);
        }
        p
    }

    fn buy_on(&mut self, id: &str, units: i64, cost: i64, day: &str) {
        self.entries.push(buy_dated(id, "vti", units, cost, day));
    }

    /// A disposal posted the way the engine posts one: investments out at
    /// the basis the elected method gives up, cash in at proceeds, the
    /// difference to realized gain.
    fn dispose(&mut self, id: &str, units: i64, proceeds: i64, day: &str) {
        let held = self.project().lots_of(B, 1, "vti").unwrap().value;
        let as_of = days_from_iso_date(day).unwrap() as Day;
        let r = if let Some(w) = self.terms.min_tax_short_weight {
            let price = unit_price(proceeds, units).unwrap();
            relieve_min_tax(&held, units, price, w, self.terms.long_term_days, as_of).unwrap()
        } else if self.terms.average_cost == Some(true) {
            relieve_average_cost(&held, units).unwrap()
        } else {
            relieve_by(self.terms.method, &held, units).unwrap()
        };
        let postings = sale_postings(ROLES, None, "vti", units, r.cost, proceeds).unwrap();
        self.entries.push(entry(id, "sell", postings, Some(day)));
    }

    /// A book whose configuration is the rule set given.
    fn of(set: RuleSet) -> GainBook {
        GainBook { entries: Vec::new(), terms: Terms::of(&set) }
    }

    fn dispose_identified(&mut self, id: &str, units: i64, proceeds: i64, day: &str, named: &[u64]) {
        let held = self.project().lots_of(B, 1, "vti").unwrap().value;
        let r = relieve_spec_id(&held, units, named).unwrap();
        let postings = sale_postings(ROLES, None, "vti", units, r.cost, proceeds).unwrap();
        let mut e = entry(id, "sell", postings, Some(day));
        e.identified_lots = Some(named.to_vec());
        self.entries.push(e);
    }

    fn left(&self) -> Vec<Lot> {
        self.project().lots_of(B, 1, "vti").unwrap().value
    }
}

fn gains_set(extra: RuleSet) -> RuleSet {
    RuleSet { chart_roles: Some(ROLES), ..extra }
}

fn wash_book(window: i64, method: LotMethod, keep: bool) -> GainBook {
    GainBook::of(gains_set(RuleSet {
        lot_method: Some(method),
        wash_window_days: Some(window),
        wash_keep_holding_period: if keep { Some(true) } else { None },
        ..RuleSet::default()
    }))
}

#[test]
fn a_lot_carries_the_trade_date_of_the_entry_that_opened_it() {
    let js = vec![buy_dated("b1", "vti", 10, 100, "2024-03-01"), buy_dated("b2", "vti", 10, 400, "2026-01-15")];
    let p = fold(&js);

    let lots = p.lots_of(B, 1, "vti").unwrap().value;
    assert_eq!(lots.len(), 2);
    assert_eq!(lots[0].acquired, Some(day("2024-03-01")));
    assert_eq!(lots[1].acquired, Some(day("2026-01-15")));

    let r = relieve_by(Method::LongestHeldFirst, &lots, 10).unwrap();
    assert_eq!(r.cost, 100, "the lot held longest, not the cheapest or the first");
    assert_eq!(r.taken[0].acquired, Some(day("2024-03-01")), "and it says when");
}

#[test]
fn an_undated_holding_refuses_a_holding_period_method() {
    let p = fold(&book(&[("vti", 100, 10)]));
    let lots = p.lots_of(B, 1, "vti").unwrap().value;
    assert!(lots[0].acquired.is_none());
    assert!(relieve_by(Method::LongestHeldFirst, &lots, 5).is_err());
    assert!(relieve_by(Method::Fifo, &lots, 5).is_ok(), "FIFO still works");
}

#[test]
fn buys_open_lots_and_sales_relieve_them_oldest_first() {
    let mut js = book(&[("vti", 10, 1), ("vti", 40, 1)]);
    js.push(sell("s1", "vti", 1, 10));
    let p = fold(&js);

    assert_eq!(p.open_lots(B).unwrap(), 1, "one lot left");
    let left = p.lots_of(B, 1, "vti").unwrap();
    assert_eq!(left.value[0].units, 1);
    assert_eq!(left.value[0].cost, 40, "the DEAR lot survives, not the cheap one");
    assert_eq!(p.relieved_cost(B).unwrap(), 10, "and 10 of basis was given up");
    assert!(p.lot_breaks(B).unwrap().is_empty());
}

#[test]
fn an_entry_posting_a_basis_fifo_disagrees_with_is_a_break() {
    let mut js = book(&[("vti", 10, 1), ("vti", 40, 1)]);
    js.push(sell("s1", "vti", 1, 40));
    let p = fold(&js);

    assert_eq!(p.lot_breaks(B).unwrap().len(), 1, "{:?}", p.lot_breaks(B).unwrap());
    let b = &p.lot_breaks(B).unwrap()[0];
    assert!(b.contains("posted 40 of basis"), "{b}");
    assert!(b.contains("costs 10"), "{b}");
    assert!(b.contains("disagree by 30"), "names the gap: {b}");
    assert!(p.nav(B, &[1, 2], &Rates::none()).is_ok(), "and the fund still values");
}

#[test]
fn the_lots_reconcile_with_the_position_they_belong_to() {
    let mut js = book(&[("vti", 100, 10), ("vti", 250, 20), ("voo", 60, 6)]);
    js.push(sell("s1", "vti", 12, 125));
    let p = fold(&js);

    for (key, held) in &p.positions(B).unwrap().value.held {
        let lots = p.lots_of(B, key.0, &key.1).unwrap();
        assert_eq!(lots.value.iter().map(|l| l.units).sum::<i64>(), held.1, "units disagree for {key:?}");
        assert_eq!(lots.value.iter().map(|l| l.cost).sum::<i64>(), held.0, "cost disagrees for {key:?}");
    }
}

#[test]
fn a_sale_that_cannot_be_relieved_is_a_break_not_a_failure() {
    let mut js = book(&[("vti", 100, 7)]);
    js.push(sell("s1", "vti", 3, 45));
    let p = fold(&js);

    assert_eq!(p.lot_breaks(B).unwrap().len(), 1, "{:?}", p.lot_breaks(B).unwrap());
    assert!(p.lot_breaks(B).unwrap()[0].contains("administration agreement"), "{:?}", p.lot_breaks(B).unwrap());
    assert_eq!(p.open_lots(B).unwrap(), 1, "and the lot is untouched, not half-relieved");
    assert_eq!(p.lots_of(B, 1, "vti").unwrap().value[0].units, 7);
    assert!(p.nav(B, &[1, 2], &Rates::none()).is_ok());
}

#[test]
fn the_lot_book_advances_with_everything_else() {
    let mut js = book(&[("vti", 10, 1), ("vti", 40, 1), ("voo", 20, 2)]);
    js.push(sell("s1", "vti", 1, 50));

    let mut piecemeal = Projection::new();
    for n in 1..=js.len() {
        piecemeal.advance(&js[..n], FIFO);
    }
    let cold = Projection::rebuild(&js, FIFO);
    assert_eq!(piecemeal.open_lots(B).unwrap(), cold.open_lots(B).unwrap());
    assert_eq!(piecemeal.relieved_cost(B).unwrap(), cold.relieved_cost(B).unwrap());
    assert_eq!(piecemeal.lots_of(B, 1, "vti").unwrap().value, cold.lots_of(B, 1, "vti").unwrap().value);
}

#[test]
fn a_projection_holds_the_one_view_every_book_has() {
    let p = Projection::new();
    assert_eq!(p.views().len(), 1, "{:?}", p.views());
    assert!(p.views().contains(&UNDECLARED_VIEW.to_string()));
    assert_eq!(p.prefix(), 0);
}

#[test]
fn the_nav_ignores_dimensions_that_are_not_assets_or_liabilities() {
    let p = fold(&book(&[("vti", 25_000, 100)]));
    assert_eq!(p.nav(B, &[1, 2], &Rates::none()).unwrap().value.0, 0, "buy: asset in, cash out");
    assert_eq!(p.nav(B, &[1], &Rates::none()).unwrap().value.0, 25_000, "investments alone");
}

#[test]
fn totals_advance_rather_than_being_recomputed() {
    let js = book(&[("vti", 10, 1), ("voo", 20, 2), ("vti", 30, 3)]);
    let mut piecemeal = Projection::new();
    for n in 1..=js.len() {
        piecemeal.advance(&js[..n], FIFO);
    }
    assert_eq!(piecemeal.nav(B, &[1, 2], &Rates::none()).unwrap(), Projection::rebuild(&js, FIFO).nav(B, &[1, 2], &Rates::none()).unwrap());
}

#[test]
fn advancing_twice_folds_each_entry_once() {
    let js = book(&[("vti", 25_000, 100), ("vti", 5_000, 20)]);

    let mut p = Projection::new();
    p.advance(&js, FIFO);
    let once = p.cost_of(B, "vti").unwrap();
    p.advance(&js, FIFO);
    let twice = p.cost_of(B, "vti").unwrap();

    assert_eq!(once.value, 30_000);
    assert_eq!(twice, once, "a second advance over the same journal folds nothing");
    assert_eq!(p.prefix(), 2);
}

#[test]
fn advancing_incrementally_equals_rebuilding() {
    let js = book(&[("vti", 10, 1), ("voo", 20, 2), ("vti", 30, 3), ("bnd", 40, 4)]);

    let mut piecemeal = Projection::new();
    for n in 1..=js.len() {
        piecemeal.advance(&js[..n], FIFO);
    }
    assert_eq!(piecemeal.positions(B).unwrap().value, Projection::rebuild(&js, FIFO).positions(B).unwrap().value);
    assert_eq!(piecemeal.prefix(), js.len());
}

#[test]
fn a_maintained_projection_folds_only_the_delta() {
    let js = book(&[("vti", 10, 1), ("voo", 20, 2), ("vti", 30, 3)]);

    let mut p = Projection::new();
    assert_eq!(p.advance(&js, FIFO), 3, "the first pass folds everything");
    assert_eq!(p.advance(&js, FIFO), 0, "and a second folds nothing at all");
    assert_eq!(p.advance(&js[..2], FIFO), 0, "a SHORTER journal folds nothing either");

    let mut grown = js.clone();
    grown.push(js[0].clone());
    assert_eq!(p.advance(&grown, FIFO), 1, "only the new entry");
    assert_eq!(p.prefix(), 4);
}

#[test]
fn a_read_carries_the_prefix_it_was_folded_from() {
    let js = book(&[("vti", 10, 1), ("vti", 20, 2), ("vti", 30, 3)]);

    let mut p = Projection::new();
    p.advance(&js[..1], FIFO);

    let read = p.cost_of(B, "vti").unwrap();
    assert_eq!(read.prefix, 1, "what it folded");
    assert_eq!(read.value, 10, "and the value agrees with that prefix, not the journal");
    assert_ne!(read.prefix, js.len(), "the journal has moved on, and the read has not");
    assert!(!p.is_current_with(js.len()));
}

#[test]
fn map_cannot_change_the_prefix() {
    let p = fold(&book(&[("vti", 10, 1)]));
    let doubled = p.cost_of(B, "vti").unwrap().map(|v| v * 2);
    assert_eq!(doubled, AsOf { value: 20, prefix: 1, view: B.to_string(), through: None });
}

#[test]
fn an_empty_journal_projects_to_nothing_at_position_zero() {
    let p = Projection::rebuild(&[], FIFO);
    assert_eq!(p.prefix(), 0);
    assert_eq!(p.cost_of(B, "vti").unwrap(), AsOf { value: 0, prefix: 0, view: B.to_string(), through: None });
    assert!(p.is_current_with(0), "current with an empty journal, not stale");
}

#[test]
fn a_gain_is_split_by_how_long_the_lot_was_actually_held() {
    let mut b = GainBook::new(365);
    b.buy_on("b-old", 1, 100, "2024-01-10");
    b.buy_on("b-new", 1, 100, "2026-06-01");
    b.dispose("s-old", 1, 300, "2026-06-30");
    b.dispose("s-new", 1, 150, "2026-06-30");

    let p = b.project();
    let r = p.realized(B, Some(ROLES), &Rates::none()).unwrap().value.unwrap();
    assert_eq!(r.gain, -250);
    assert_eq!(r.long_term, -200, "the lot held since 2024");
    assert_eq!(r.short_term, -50, "the one bought this month");
    assert_eq!(r.unclassified(), 0);
    assert_eq!(r.basis, 200);
}

#[test]
fn the_threshold_is_the_configured_number_and_the_boundary_day_is_long() {
    let mut b = GainBook::new(365);
    b.buy_on("b", 1, 100, "2025-06-30");
    b.dispose("s", 1, 300, "2026-06-30");
    let r = b.project().realized(B, Some(ROLES), &Rates::none()).unwrap().value.unwrap();
    assert_eq!(r.long_term, -200, "the threshold day is long-term");
    assert_eq!(r.short_term, 0);

    let mut b = GainBook::new(365);
    b.buy_on("b", 1, 100, "2025-07-01");
    b.dispose("s", 1, 300, "2026-06-30");
    let r = b.project().realized(B, Some(ROLES), &Rates::none()).unwrap().value.unwrap();
    assert_eq!(r.short_term, -200);
    assert_eq!(r.long_term, 0);

    let mut b = GainBook::new(730);
    b.buy_on("b", 1, 100, "2025-06-30");
    b.dispose("s", 1, 300, "2026-06-30");
    let r = b.project().realized(B, Some(ROLES), &Rates::none()).unwrap().value.unwrap();
    assert_eq!(r.short_term, -200, "365 days is short-term at a 730-day threshold");
    assert_eq!(r.long_term, 0);
}

#[test]
fn a_disposal_whose_proceeds_do_not_divide_is_left_wholly_unclassified() {
    let mut b = GainBook::new(365);
    b.buy_on("b1", 1, 40, "2024-01-10");
    b.buy_on("b2", 1, 40, "2026-06-01");
    b.dispose("s", 2, 101, "2026-06-30");

    let r = b.project().realized(B, Some(ROLES), &Rates::none()).unwrap().value.unwrap();
    assert_eq!(r.gain, -21, "the total is exact and ties to the chart");
    assert_eq!(r.short_term, 0);
    assert_eq!(r.long_term, 0);
    assert_eq!(r.unclassified(), -21, "all of it, named rather than rounded");
}

#[test]
fn a_lot_with_no_acquisition_date_leaves_its_gain_unclassified() {
    let mut b = GainBook::new(365);
    b.entries.push(entry("b-undated", "buy", vec![leg(1, 100, "vti", 1), PostingRecord::new(2, -100)], None));
    b.dispose("s", 1, 300, "2026-06-30");

    let r = b.project().realized(B, Some(ROLES), &Rates::none()).unwrap().value.unwrap();
    assert_eq!(r.gain, -200);
    assert_eq!(r.unclassified(), -200);
    assert_eq!(r.short_term + r.long_term, 0);
}

#[test]
fn the_split_always_sums_to_the_total_the_chart_reports() {
    let mut b = GainBook::new(365);
    b.buy_on("b1", 2, 200, "2024-01-10");
    b.buy_on("b2", 1, 90, "2026-05-01");
    b.dispose("s1", 1, 250, "2026-06-30");
    b.dispose("s2", 2, 401, "2026-06-30");

    let r = b.project().realized(B, Some(ROLES), &Rates::none()).unwrap().value.unwrap();
    assert_eq!(r.short_term + r.long_term + r.unclassified(), r.gain);
    assert!(r.unclassified() != 0, "the indivisible disposal is in there");
}

#[test]
fn realized_carries_the_prefix_and_says_nothing_without_a_chart() {
    let mut b = GainBook::new(365);
    b.buy_on("b", 1, 100, "2025-01-10");
    b.dispose("s", 1, 300, "2026-06-30");
    let p = b.project();

    assert_eq!(p.realized(B, Some(ROLES), &Rates::none()).unwrap().prefix, p.prefix());
    assert_eq!(p.realized(B, None, &Rates::none()).unwrap().value, None, "no chart, no attribution");
}

/// One hundred of the base and ninety of a foreign currency, in one asset
/// dimension.
fn two_currency_book() -> Vec<JournalEntry> {
    [("usd", "USD", 10_000i64), ("eur", "EUR", 9_000)]
        .iter()
        .map(|(id, ccy, amount)| {
            entry(id, "subscription", vec![in_currency(1, *amount, ccy), in_currency(20, -*amount, ccy)], None)
        })
        .collect()
}

#[test]
fn a_nav_over_several_currencies_is_refused_without_a_rate_for_each() {
    let p = fold(&two_currency_book());
    let msg = p.nav(B, &[1], &Rates::of("USD", vec![])).unwrap_err();
    assert!(msg.contains("EUR"), "{msg}");
    assert!(msg.contains("mixing denominations"), "{msg}");
}

#[test]
fn given_a_rate_the_nav_is_translated_rather_than_added_up() {
    let p = fold(&two_currency_book());
    let rates = Rates::of("USD", vec![("EUR".to_string(), 120)]);
    assert_eq!(p.nav(B, &[1], &rates).unwrap().value.0, 20_800);

    let par = Rates::of("USD", vec![("EUR".to_string(), RATE_SCALE)]);
    assert_eq!(p.nav(B, &[1], &par).unwrap().value.0, 19_000);
}

#[test]
fn the_base_currency_needs_no_rate_and_an_untyped_book_still_values() {
    let p = fold(&two_currency_book());
    let rates = Rates::of("USD", vec![("EUR".to_string(), 100)]);
    assert!(p.nav(B, &[20], &rates).is_ok());

    let p = fold(&book(&[("vti", 10, 1)]));
    assert!(p.nav(B, &[1], &Rates::none()).is_ok());
}

#[test]
fn a_trade_date_that_is_not_a_date_is_a_break_rather_than_an_absence() {
    let js = vec![entry(
        "b0",
        "buy",
        vec![leg(1, 100, "vti", 1), PostingRecord::new(2, -100)],
        Some("the fifth of March"),
    )];
    let p = fold(&js);
    let breaks = p.lot_breaks(B).unwrap();
    assert_eq!(breaks.len(), 1, "{breaks:?}");
    assert!(breaks[0].contains("is not a date"), "{}", breaks[0]);
    assert_eq!(p.lots_of(B, 1, "vti").unwrap().value[0].acquired, None);
}

// ------------------------------------------------------------ further cases

#[test]
fn a_view_the_book_does_not_keep_is_refused_by_name() {
    let p = fold(&book(&[("vti", 10, 1)]));
    let e = p.positions("settled").unwrap_err();
    assert_eq!(e, "no view \"settled\" on this book. It keeps: book");
}

#[test]
fn the_trial_balance_difference_is_every_debit_less_every_credit() {
    let p = fold(&book(&[("vti", 10, 1), ("voo", 20, 2)]));
    assert_eq!(p.nav(B, &[1, 2], &Rates::none()).unwrap().value, (0, 0));
    let rows = p.balances(B).unwrap().value.clone();
    assert_eq!(rows.len(), 2);
    assert_eq!(rows[0].0, (1, None));
    assert_eq!(rows[0].1.debit, 30);
    assert_eq!(rows[0].1.postings, 2);
    assert_eq!(rows[1].0, (2, None));
    assert_eq!(rows[1].1.credit, 30);
    assert_eq!(p.total_rows(B).unwrap(), 2);
    assert_eq!(p.currency_count(B).unwrap(), 1, "the untyped balance counts as one");
}

#[test]
fn translation_rounds_toward_zero_once_per_row() {
    let js = vec![entry("eur", "subscription", vec![in_currency(1, -333, "EUR"), in_currency(20, 333, "EUR")], None)];
    let p = fold(&js);
    let rates = Rates::of("USD", vec![("EUR".to_string(), 150)]);
    assert_eq!(p.nav(B, &[1], &rates).unwrap().value.0, -499, "-333 x 1.50 = -499.5, toward zero");
}

#[test]
fn a_sale_of_a_position_never_bought_is_a_break() {
    let p = fold(&[sell("s1", "vti", 1, 10)]);
    let b = p.lot_breaks(B).unwrap();
    assert_eq!(b.len(), 1, "{b:?}");
    assert!(b[0].starts_with("s1: selling 1 of vti could not be relieved"), "{}", b[0]);
}

#[test]
fn an_unresolved_configuration_refuses_the_relief_and_not_the_fold() {
    let mut p = Projection::new();
    let js = vec![buy_dated("b", "vti", 1, 10, "2026-01-02"), sell("s", "vti", 1, 10)];
    for e in &js {
        p.fold_next(e);
    }
    let b = p.lot_breaks(B).unwrap();
    assert_eq!(b.len(), 1, "{b:?}");
    assert!(b[0].contains("the lot method is not known: the configuration was not resolved before folding"), "{}", b[0]);
    assert_eq!(p.cost_of(B, "vti").unwrap().value, 0, "the positions still fold");
    assert_eq!(p.prefix(), 2);
}

// ------------------------------------------------------------ two books of record

const ASSETS: [i64; 2] = [1, 2];

fn view(id: &str, name: &str, basis: Basis, settles_in: Option<i64>, calendar: Option<&str>) -> View {
    View {
        id: id.to_string(),
        display_name: name.to_string(),
        basis,
        settles_in,
        calendar: calendar.map(|c| c.to_string()),
    }
}

/// ABOR on the trade date, IBOR two open days later over a weekend calendar.
fn dual_set() -> RuleSet {
    RuleSet {
        views: vec![
            view("abor", "ABOR", Basis::Trade, None, None),
            view("ibor", "IBOR", Basis::Settlement, Some(2), Some("wk")),
        ],
        calendars: vec![Calendar { id: "wk".to_string(), holidays: vec![], weekend: vec![0, 6] }],
        ..RuleSet::default()
    }
}

fn fifo_terms() -> Terms {
    Terms {
        method: FIFO,
        roles: None,
        long_term_days: 365,
        wash_window_days: None,
        min_tax_short_weight: None,
        average_cost: None,
        wash_keep_holding_period: None,
    }
}

/// A projection seeded with the active configuration's views, each
/// configuration an entry may pin resolved up front.
fn seeded(active: &RuleSet, configs: &[(&str, &RuleSet)], js: &[JournalEntry]) -> Projection {
    let mut p = Projection::new();
    p.seed_views(active);
    for (digest, set) in configs {
        p.resolve_terms(digest, Ok(fifo_terms()));
        p.resolve_views(digest, Ok(ViewDef::of(set)));
    }
    for e in js {
        assert!(p.can_fold(e));
        p.fold_next(e);
    }
    p
}

fn pinned(mut e: JournalEntry, config: &str) -> JournalEntry {
    e.config = config.to_string();
    e
}

fn dual(js: &[JournalEntry]) -> Projection {
    let set = dual_set();
    let js: Vec<JournalEntry> = js.iter().cloned().map(|e| pinned(e, "dual")).collect();
    seeded(&set, &[("dual", &set)], &js)
}

/// A subscription: cash in against capital, the shape that moves a NAV.
fn subscribe_dated(id: &str, amount: i64, day: &str) -> JournalEntry {
    entry(id, "subscription", vec![PostingRecord::new(2, amount), PostingRecord::new(3, -amount)], Some(day))
}

fn subscribe_dated_currency(id: &str, amount: i64, day: &str, currency: &str) -> JournalEntry {
    entry(id, "subscription", vec![in_currency(2, amount, currency), in_currency(3, -amount, currency)], Some(day))
}

/// The ISO date of a day since the epoch.
fn iso(days: i64) -> String {
    let z = days + 719_468;
    let era = z.div_euclid(146_097);
    let doe = z - era * 146_097;
    let yoe = (doe - doe / 1460 + doe / 36_524 - doe / 146_096) / 365;
    let doy = doe - (365 * yoe + yoe / 4 - yoe / 100);
    let mp = (5 * doy + 2) / 153;
    let d = doy - (153 * mp + 2) / 5 + 1;
    let m = if mp < 10 { mp + 3 } else { mp - 9 };
    let y = yoe + era * 400 + if m <= 2 { 1 } else { 0 };
    format!("{y:04}-{m:02}-{d:02}")
}

#[test]
fn one_pass_advances_every_view_and_every_view_reads_the_same_prefix() {
    let p = dual(&[
        buy_dated("t1", "vti", 10, 1_000, "2026-03-02"),
        subscribe_dated("s1", 5_000, "2026-03-03"),
        buy_dated("t2", "voo", 5, 500, "2026-03-04"),
    ]);
    let a = p.positions("abor").unwrap();
    let i = p.positions("ibor").unwrap();
    assert_eq!(a.prefix, 3);
    assert_eq!(a.prefix, i.prefix, "one pass feeds every view");
    assert_eq!(a.view, "abor");
    assert_eq!(i.view, "ibor");
    assert!(p.positions(B).is_err(), "a declared book keeps no journal-order view");
}

#[test]
fn two_views_disagree_about_the_nav_and_the_difference_is_a_list_of_entries() {
    let mut js = vec![
        buy_dated("t1", "vti", 10, 1_000, "2026-03-02"),
        subscribe_dated("s1", 5_000, "2026-03-03"),
        buy_dated("t2", "voo", 5, 500, "2026-03-04"),
    ];
    let p = dual(&js);

    let nav_a = p.nav("abor", &ASSETS, &Rates::none()).unwrap();
    let nav_i = p.nav("ibor", &ASSETS, &Rates::none()).unwrap();
    assert_eq!(nav_a.value.1, 0, "abor ties");
    assert_eq!(nav_i.value.1, 0, "ibor ties");
    assert_eq!(nav_a.value.0 - nav_i.value.0, 5_000, "the settlement gap is the figure");
    assert_eq!(nav_i.through, Some(day("2026-03-04")));

    let rec = p.reconcile("abor", "ibor", &ASSETS, &Rates::none()).unwrap();
    assert_eq!(rec.value.difference, 5_000);
    assert_eq!(rec.value.entries.len(), 2, "{:?}", rec.value.entries);
    let sum: i64 = rec.value.entries.iter().map(|e| e.effect).sum();
    assert_eq!(sum, rec.value.difference, "the entries account for the difference");
    let s1 = rec.value.entries.iter().find(|e| e.id == "s1").unwrap();
    assert_eq!(s1.effect, 5_000);
    assert_eq!(s1.recognised_here, Some(day("2026-03-03")), "abor: the trade day");
    assert_eq!(s1.recognised_there, Some(day("2026-03-05")), "ibor: T+2");
    let t2 = rec.value.entries.iter().find(|e| e.id == "t2").unwrap();
    assert_eq!(t2.effect, 0, "a purchase moves cash into investments — both assets");

    js.push(buy_dated("t3", "vti", 1, 100, "2026-03-16"));
    let p = dual(&js);
    assert_eq!(
        p.nav("abor", &ASSETS, &Rates::none()).unwrap().value,
        p.nav("ibor", &ASSETS, &Rates::none()).unwrap().value,
        "with nothing in flight the views agree"
    );
}

#[test]
fn a_view_a_configuration_does_not_declare_refuses_rather_than_falling_back() {
    let p = dual(&[buy_dated("t1", "vti", 10, 1_000, "2026-03-02")]);
    let e = p.nav("emir", &ASSETS, &Rates::none()).unwrap_err();
    assert!(e.contains("no view \"emir\""), "{e}");
    assert!(e.contains("abor") && e.contains("ibor"), "the refusal names what it keeps: {e}");

    let plain = RuleSet::default();
    let set = dual_set();
    let js = vec![
        pinned(buy_dated("old", "vti", 10, 1_000, "2026-03-02"), "plain"),
        pinned(buy_dated("new", "vti", 5, 500, "2026-03-03"), "dual"),
    ];
    let p = seeded(&set, &[("plain", &plain), ("dual", &set)], &js);
    let refused = p.unplaceable("ibor").unwrap();
    assert_eq!(refused.len(), 1, "{refused:?}");
    assert_eq!(refused[0].id, "old");
    assert!(refused[0].why.contains("declares no view"), "{}", refused[0].why);

    let rec = p.reconcile("abor", "ibor", &ASSETS, &Rates::none()).unwrap();
    assert_eq!(rec.value.unplaceable.len(), 1);
    assert_eq!(rec.value.unplaceable[0].id, "old");

    let abor_only = RuleSet { views: vec![view("abor", "ABOR", Basis::Trade, None, None)], ..RuleSet::default() };
    let mut js = js;
    js.push(pinned(buy_dated("half", "vti", 1, 100, "2026-03-04"), "abor-only"));
    let p = seeded(&set, &[("plain", &plain), ("dual", &set), ("abor-only", &abor_only)], &js);
    let e = p.reconcile("abor", "ibor", &ASSETS, &Rates::none()).unwrap_err();
    assert!(e.contains("\"half\"") && e.contains("cannot place"), "{e}");
}

#[test]
fn the_pending_queue_is_bounded_by_the_settlement_lag_not_by_the_journal() {
    let mut dy: i64 = day("2026-03-02") as i64;
    let mut js = Vec::new();
    let mut n = 0;
    while n < 60 {
        let dow = (dy + 4).rem_euclid(7);
        if dow != 0 && dow != 6 {
            js.push(buy_dated(&format!("t{n}"), "vti", 1, 100, &iso(dy)));
            n += 1;
        }
        dy += 1;
    }
    let p = dual(&js);
    assert_eq!(p.prefix(), 60);
    let banded = p.in_flight("ibor").unwrap();
    assert!(banded > 0, "a T+2 view with nothing in flight at the head folded everything");
    assert!(banded <= 4, "sixty days of history left {banded} entries in the band");
    assert_eq!(p.in_flight("abor").unwrap(), 0, "trade basis holds nothing back");
}

#[test]
fn a_translation_residue_refuses_rather_than_publishing_a_silent_zero() {
    let p = dual(&[
        subscribe_dated_currency("s1", 1, "2026-03-03", "EUR"),
        subscribe_dated_currency("s2", 1, "2026-03-04", "EUR"),
    ]);
    let rates = Rates::of("USD", vec![("EUR".to_string(), 150)]);

    let nav_a = p.nav("abor", &ASSETS, &rates).unwrap().value.0;
    let nav_i = p.nav("ibor", &ASSETS, &rates).unwrap().value.0;
    assert_eq!(nav_a, 3, "2 EUR at 1.50 rounds once: 3");
    assert_eq!(nav_i, 0, "neither subscription has settled");

    let e = p.reconcile("abor", "ibor", &ASSETS, &rates).unwrap_err();
    assert!(e.contains("translation residue"), "{e}");
    assert!(e.contains("differ by 3"), "{e}");
    assert!(e.contains("sum to 2"), "{e}");
    assert!(!e.contains("difference of 0"), "a silent zero would look like agreement: {e}");
}

#[test]
fn a_missing_rate_refuses_reconcile_rather_than_agreeing_at_zero() {
    let p = dual(&[
        subscribe_dated_currency("s1", 1, "2026-03-03", "EUR"),
        subscribe_dated_currency("s2", 1, "2026-03-04", "EUR"),
    ]);
    let e = p.reconcile("abor", "ibor", &ASSETS, &Rates::of("USD", vec![])).unwrap_err();
    assert!(e.contains("EUR"), "{e}");
    assert!(
        e.contains("mixing denominations") || e.contains("no rate"),
        "the refusal must name the missing rate, not invent 0: {e}"
    );
}

#[test]
fn a_view_declared_after_the_fold_refuses_reconcile_rather_than_a_zero_gap() {
    let mut p = dual(&[subscribe_dated("s1", 5_000, "2026-03-03")]);
    let mut extra = dual_set();
    extra.views.push(view("emir", "EMIR", Basis::Trade, None, None));
    p.seed_views(&extra);

    let e = p.reconcile("emir", "abor", &ASSETS, &Rates::none()).unwrap_err();
    assert!(e.contains("declared after"), "{e}");
    assert!(e.contains("cannot place") || e.contains("already read past"), "{e}");
}

#[test]
fn reconcile_lists_entries_in_journal_order_with_signs_by_side() {
    // Here holds a subscription there has not recognised: it adds. There
    // cannot hold anything here has not, on a trade-date view against a
    // settlement view, so the other side is exercised by swapping the views.
    let p = dual(&[
        subscribe_dated("s1", 700, "2026-03-03"),
        subscribe_dated("s2", 300, "2026-03-04"),
    ]);
    let rec = p.reconcile("abor", "ibor", &ASSETS, &Rates::none()).unwrap().value;
    let ids: Vec<&str> = rec.entries.iter().map(|e| e.id.as_str()).collect();
    assert_eq!(ids, vec!["s1", "s2"], "journal order");
    assert!(rec.entries.iter().all(|e| e.in_here));
    assert_eq!(rec.difference, 1_000);

    let back = p.reconcile("ibor", "abor", &ASSETS, &Rates::none()).unwrap().value;
    assert_eq!(back.difference, -1_000);
    let effects: Vec<i64> = back.entries.iter().map(|e| e.effect).collect();
    assert_eq!(effects, vec![-700, -300], "recognised only by the other view: it subtracts");
    assert!(back.entries.iter().all(|e| !e.in_here));
    assert_eq!(back.here, "ibor");
    assert_eq!(back.there, "abor");
}

#[test]
fn reconciling_a_view_with_itself_finds_nothing_in_flight() {
    let p = dual(&[subscribe_dated("s1", 700, "2026-03-03")]);
    let rec = p.reconcile("ibor", "ibor", &ASSETS, &Rates::none()).unwrap().value;
    assert!(rec.entries.is_empty());
    assert_eq!(rec.difference, 0);
    let e = p.reconcile("abor", "settled", &ASSETS, &Rates::none()).unwrap_err();
    assert_eq!(e, "no view \"settled\" on this book. It keeps: abor, ibor");
}

// ------------------------------------------------------------ the elected method, on a book

/// Two one-unit lots far apart in cost, under a configuration electing a method.
fn electing(method: LotMethod) -> (Vec<(&'static str, Result<Terms, String>)>, Vec<JournalEntry>) {
    let terms = Terms::of(&RuleSet { lot_method: Some(method), ..RuleSet::default() });
    (vec![("cfg", Ok(terms))], book(&[("vti", 10, 1), ("vti", 40, 1)]))
}

fn under(configs: &[(&str, Result<Terms, String>)], js: &[JournalEntry]) -> Projection {
    let mut p = Projection::new();
    for (digest, terms) in configs {
        p.resolve_terms(digest, terms.clone());
    }
    for e in js {
        assert!(p.can_fold(e));
        p.fold_next(e);
    }
    p
}

#[test]
fn the_declared_method_is_the_method_the_fold_relieves_under() {
    let (configs, mut js) = electing(LotMethod::Hifo);
    js.push(sell("s1", "vti", 1, 40));
    let p = under(&configs, &js);
    assert_eq!(p.relieved_cost(B).unwrap(), 40, "HIFO gives up the DEAR lot, not the old one");
    let left = p.lots_of(B, 1, "vti").unwrap().value;
    assert_eq!(left.len(), 1);
    assert_eq!(left[0].cost, 10, "the cheap lot is what remains");
    assert!(p.lot_breaks(B).unwrap().is_empty(), "{:?}", p.lot_breaks(B).unwrap());
}

#[test]
fn electing_a_different_method_relieves_a_different_lot() {
    let (configs, mut js) = electing(LotMethod::Fifo);
    js.push(sell("s1", "vti", 1, 10));
    let p = under(&configs, &js);
    assert_eq!(p.relieved_cost(B).unwrap(), 10, "FIFO gives up the OLD lot");
    assert_eq!(p.lots_of(B, 1, "vti").unwrap().value[0].cost, 40);
}

#[test]
fn a_method_change_applies_to_the_entries_posted_after_it() {
    let (mut configs, mut js) = electing(LotMethod::Fifo);
    js.push(sell("s-under-fifo", "vti", 1, 10));
    configs.push(("hifo", Ok(Terms::of(&RuleSet { lot_method: Some(LotMethod::Hifo), ..RuleSet::default() }))));
    for (n, cost) in [(0usize, 30i64), (1, 60)] {
        let mut e = entry(&format!("b-after-{n}"), "buy", vec![leg(1, cost, "vti", 1), PostingRecord::new(2, -cost)], None);
        e.config = "hifo".to_string();
        js.push(e);
    }
    let mut s = sell("s-under-hifo", "vti", 1, 60);
    s.config = "hifo".to_string();
    js.push(s);
    let p = under(&configs, &js);
    assert_eq!(p.relieved_cost(B).unwrap(), 70);
    let left: Vec<i64> = p.lots_of(B, 1, "vti").unwrap().value.iter().map(|l| l.cost).collect();
    assert_eq!(left, vec![40, 30], "the dear lot went, the cheap ones stayed");
    assert!(p.lot_breaks(B).unwrap().is_empty(), "{:?}", p.lot_breaks(B).unwrap());
}

#[test]
fn a_configuration_that_is_not_a_rule_set_refuses_the_relief() {
    let configs = vec![("cfg", Err("unknown variant `not-a-method` for the lot method".to_string()))];
    let js = vec![
        entry("b0", "trade", vec![leg(1, 10, "vti", 1), PostingRecord::new(2, -10)], None),
        entry("s0", "trade", vec![leg(1, -10, "vti", -1), PostingRecord::new(2, 10)], None),
    ];
    let p = under(&configs, &js);
    let breaks = p.lot_breaks(B).unwrap();
    assert_eq!(breaks.len(), 1, "{breaks:?}");
    assert!(breaks[0].contains("lot method is not known"), "{}", breaks[0]);
    assert_eq!(p.relieved_cost(B).unwrap(), 0, "nothing was relieved under a guess");
    assert_eq!(p.lots_of(B, 1, "vti").unwrap().value.len(), 1, "the lot is still open");
}

#[test]
fn the_drift_break_names_the_method_it_actually_used() {
    let (configs, mut js) = electing(LotMethod::Hifo);
    js.push(sell("s1", "vti", 1, 25));
    let p = under(&configs, &js);
    let breaks = p.lot_breaks(B).unwrap();
    assert_eq!(breaks.len(), 1, "{breaks:?}");
    assert!(breaks[0].contains("dearest-per-unit-first"), "{}", breaks[0]);
    assert!(!breaks[0].contains("oldest-first"), "{}", breaks[0]);
}

// ------------------------------------------------------------ wash sales, on a book

#[test]
fn an_in_window_wash_raises_the_replacement_basis_on_the_book() {
    let mut g = wash_book(30, LotMethod::Fifo, false);
    g.buy_on("orig", 100, 2000, "2026-01-01");
    g.buy_on("repl", 40, 500, "2026-06-10");
    g.dispose("s", 100, 1000, "2026-06-15");
    let p = g.project();
    let left = p.lots_of(B, 1, "vti").unwrap().value;
    assert_eq!(left.len(), 1);
    assert_eq!(left[0].cost, 900, "500 + 400 of deferred loss");
    assert_eq!(left[0].acquired, Some(day("2026-01-01")), "the period transferred");
    assert!(p.lot_breaks(B).unwrap().is_empty(), "{:?}", p.lot_breaks(B).unwrap());

    g.dispose("s2", 40, 500, "2026-07-01");
    let p = g.project();
    assert_eq!(p.relieved_cost(B).unwrap(), 2000 + 900);
    assert!(p.lots_of(B, 1, "vti").unwrap().value.is_empty());
}

#[test]
fn an_out_of_window_repurchase_does_not_raise_the_book() {
    let mut g = wash_book(30, LotMethod::Fifo, false);
    g.buy_on("orig", 100, 2000, "2026-01-01");
    g.buy_on("repl", 40, 500, "2026-04-01");
    g.dispose("s", 100, 1000, "2026-06-15");
    let left = g.left();
    assert_eq!(left[0].cost, 500, "untouched — outside the window");
    assert_eq!(left[0].acquired, Some(day("2026-04-01")), "and the period did not transfer");
}

#[test]
fn a_narrower_window_is_a_different_answer() {
    let mut wide = wash_book(30, LotMethod::Fifo, false);
    wide.buy_on("orig", 100, 2000, "2026-01-01");
    wide.dispose("s", 100, 1000, "2026-06-15");
    wide.buy_on("repl", 100, 1000, "2026-07-10");
    assert_eq!(wide.left()[0].cost, 2000, "the whole loss attached under a 30-day window");

    let mut narrow = wash_book(10, LotMethod::Fifo, false);
    narrow.buy_on("orig", 100, 2000, "2026-01-01");
    narrow.dispose("s", 100, 1000, "2026-06-15");
    narrow.buy_on("repl", 100, 1000, "2026-07-10");
    assert_eq!(narrow.left()[0].cost, 1000, "twenty-five days is outside a ten-day window");
}

#[test]
fn choosing_the_wrong_wash_period_rule_flips_the_later_rate() {
    let mut us = wash_book(30, LotMethod::Fifo, false);
    us.buy_on("orig", 1, 2000, "2026-01-01");
    us.dispose("s", 1, 1000, "2026-10-28");
    us.buy_on("repl", 1, 1000, "2026-11-01");
    let left = us.left();
    assert_eq!(left[0].cost, 2000, "1000 + 1000 of deferred loss");
    assert_eq!(left[0].acquired, Some(day("2026-01-01")), "the period transferred");
    us.dispose("s2", 1, 1500, "2027-02-05");
    let p = us.project();
    assert!(p.lot_breaks(B).unwrap().is_empty(), "{:?}", p.lot_breaks(B).unwrap());
    let r = p.realized(B, Some(ROLES), &Rates::none()).unwrap().value.unwrap();
    assert_eq!(r.long_term, 500, "the later loss is long under US transfer");
    assert_eq!(r.short_term, 1000, "the first sale was short either way");

    let mut keep = wash_book(30, LotMethod::Fifo, true);
    keep.buy_on("orig", 1, 2000, "2026-01-01");
    keep.dispose("s", 1, 1000, "2026-10-28");
    keep.buy_on("repl", 1, 1000, "2026-11-01");
    let left = keep.left();
    assert_eq!(left[0].cost, 2000, "the write is still the write");
    assert_eq!(left[0].acquired, Some(day("2026-11-01")), "keep leaves the repurchase's own date");
    keep.dispose("s2", 1, 1500, "2027-02-05");
    let p = keep.project();
    assert!(p.lot_breaks(B).unwrap().is_empty(), "{:?}", p.lot_breaks(B).unwrap());
    let r = p.realized(B, Some(ROLES), &Rates::none()).unwrap().value.unwrap();
    assert_eq!(r.short_term, 1500, "both losses are short when the period is kept");
    assert_eq!(r.long_term, 0, "assuming US transfer here would have put 500 long");
    assert_eq!(r.gain, 1500, "the total is the same under either rule");
}

#[test]
fn a_forward_repurchase_washes_once_the_replacement_opens() {
    let mut g = wash_book(30, LotMethod::Fifo, false);
    g.buy_on("orig", 100, 2000, "2026-01-01");
    g.dispose("s", 100, 1000, "2026-06-15");
    g.buy_on("repl", 40, 500, "2026-06-20");
    let left = g.left();
    assert_eq!(left.len(), 1);
    assert_eq!(left[0].cost, 900, "the write landed after the repurchase opened");
    assert_eq!(left[0].acquired, Some(day("2026-01-01")));
}

#[test]
fn a_strike_day_reads_whether_a_wash_window_is_still_open() {
    let mut g = wash_book(30, LotMethod::Fifo, false);
    g.buy_on("orig", 100, 2000, "2026-01-01");
    g.dispose("s", 100, 1000, "2026-06-15");

    let p = g.project();
    let open = p.open_wash_windows(B, day("2026-06-20")).unwrap();
    assert_eq!(open.value.len(), 1, "the window is still open");
    assert_eq!(open.value[0].sold_on, day("2026-06-15"));
    assert_eq!(open.value[0].remaining_loss, -1000);
    assert!(p.open_wash_windows(B, day("2026-07-16")).unwrap().value.is_empty(), "day 31 is outside a 30-day window");

    let s = strike_gain(StrikeId { prefix: open.prefix as u64 }, 30, open.value[0].sold_on, day("2026-06-20"),
        open.value[0].remaining_loss)
    .unwrap();
    assert!(s.qualified);
    let r = restate(&s, 30, day("2026-06-20"), -600).expect("moved");
    assert_eq!(r.cites.prefix, open.prefix as u64);
    assert_eq!(s.figure, -1000);
    assert_eq!(r.original, -1000);
    assert_eq!(r.moved_to, -600);

    g.buy_on("repl", 100, 1000, "2026-06-20");
    let p = g.project();
    assert!(p.open_wash_windows(B, day("2026-06-20")).unwrap().value.is_empty(), "the write landed; nothing is still pending");
}

#[test]
fn a_wash_write_changes_what_a_later_hifo_sale_gives_up() {
    let mut g = wash_book(30, LotMethod::Hifo, false);
    g.buy_on("dear", 1, 25, "2026-06-01");
    g.buy_on("cheap", 1, 10, "2026-06-10");
    g.dispose("s", 1, 5, "2026-06-15");
    let left = g.left();
    assert_eq!(left.len(), 1);
    assert_eq!(left[0].cost, 30, "10 + 20 of deferred loss");
    g.dispose("s2", 1, 30, "2026-06-20");
    assert_eq!(g.project().relieved_cost(B).unwrap(), 25 + 30);
}

// ------------------------------------------------------------ min-tax, spec-id and pools, on a book

fn mintax_book() -> GainBook {
    let mut g = GainBook::of(gains_set(RuleSet { min_tax_short_weight: Some(2), ..RuleSet::default() }));
    g.buy_on("a", 1, 10, "2025-10-01");
    g.buy_on("b", 1, 12, "2023-01-01");
    g
}

#[test]
fn mintax_on_the_book_takes_the_long_lot_at_a_gain() {
    let mut g = mintax_book();
    g.dispose("s", 1, 50, "2026-01-01");
    let left = g.left();
    assert_eq!(left.len(), 1);
    assert_eq!(left[0].cost, 10, "gave up B at 12; A remains");
    assert_eq!(left[0].acquired, Some(day("2025-10-01")));
}

#[test]
fn mintax_on_the_book_takes_the_short_lot_at_a_loss() {
    let mut g = mintax_book();
    g.dispose("s", 1, 5, "2026-01-01");
    let left = g.left();
    assert_eq!(left.len(), 1);
    assert_eq!(left[0].cost, 12, "gave up A at 10; B remains");
    assert_eq!(left[0].acquired, Some(day("2023-01-01")));
}

#[test]
fn a_silent_book_does_not_rank_at_a_price() {
    let mut g = GainBook::new(365);
    g.buy_on("a", 1, 10, "2025-10-01");
    g.buy_on("b", 1, 12, "2023-01-01");
    g.dispose("s", 1, 5, "2026-01-01");
    let left = g.left();
    assert_eq!(left.len(), 1);
    assert_eq!(left[0].cost, 12, "FIFO took A; B remains — no price ranking");
}

fn spec_book() -> GainBook {
    let mut g = GainBook::new(365);
    g.buy_on("a", 1, 10, "2026-01-01");
    g.buy_on("b", 1, 40, "2026-01-02");
    g.buy_on("c", 1, 70, "2026-01-03");
    g
}

#[test]
fn specid_on_the_book_takes_the_named_lot() {
    let mut g = spec_book();
    let seqs: Vec<u64> = g.left().iter().map(|l| l.seq).collect();
    assert_eq!(seqs.len(), 3);
    g.dispose_identified("s", 1, 50, "2026-06-01", &[seqs[1]]);
    let left = g.left();
    assert_eq!(left.len(), 2);
    let costs: Vec<i64> = left.iter().map(|l| l.cost).collect();
    assert_eq!(costs, vec![10, 70], "named the middle; ends remain");
}

#[test]
fn specid_unnamed_on_the_book_is_a_break_not_fifo() {
    let mut g = spec_book();
    let postings = sale_postings(ROLES, None, "vti", 1, 10, 50).unwrap();
    let mut e = entry("s", "sell", postings, Some("2026-06-01"));
    e.identified_lots = Some(vec![]);
    g.entries.push(e);
    let p = g.project();
    let breaks = p.lot_breaks(B).unwrap();
    assert!(!breaks.is_empty(), "unnamed SpecID must break, not walk FIFO");
    let msg = breaks.join("\n");
    assert!(msg.contains("no lots were named") || msg.contains("unnamed"), "{msg}");
    assert_eq!(p.lots_of(B, 1, "vti").unwrap().value.len(), 3, "the holding is untouched");
}

fn pool_book() -> GainBook {
    GainBook::of(gains_set(RuleSet { average_cost: Some(true), ..RuleSet::default() }))
}

fn pool_holding(g: &mut GainBook) {
    g.buy_on("a", 1, 10, "2026-01-01");
    g.buy_on("b", 1, 20, "2026-01-02");
    g.buy_on("c", 1, 60, "2026-01-03");
}

#[test]
fn average_cost_on_the_book_leaves_a_pool() {
    let mut g = pool_book();
    pool_holding(&mut g);
    g.dispose("s", 1, 50, "2026-06-01");
    let left = g.left();
    assert_eq!(left.len(), 1, "the remainder is a pool, not the other lots");
    assert_eq!(left[0].units, 2);
    assert_eq!(left[0].cost, 60);
    assert_eq!(left[0].seq, 0);
}

#[test]
fn a_silent_book_does_not_pool() {
    let mut g = GainBook::new(365);
    pool_holding(&mut g);
    g.dispose("s", 1, 50, "2026-06-01");
    let costs: Vec<i64> = g.left().iter().map(|l| l.cost).collect();
    assert_eq!(costs, vec![20, 60], "FIFO took 10; the other lots remain");
}

#[test]
fn a_pool_that_does_not_divide_is_a_break_not_a_round() {
    let mut g = pool_book();
    g.buy_on("a", 1, 12, "2026-01-01");
    g.buy_on("b", 1, 13, "2026-01-02");
    let postings = sale_postings(ROLES, None, "vti", 1, 12, 50).unwrap();
    g.entries.push(entry("s", "sell", postings, Some("2026-06-01")));
    let p = g.project();
    let breaks = p.lot_breaks(B).unwrap();
    assert!(!breaks.is_empty(), "a non-dividing pool must break, not round");
    let msg = breaks.join("\n");
    assert!(msg.contains("does not divide"), "{msg}");
    assert_eq!(p.lots_of(B, 1, "vti").unwrap().value.len(), 2, "the holding is untouched");
}

#[test]
fn a_pool_with_a_shared_date_classifies() {
    let mut g = pool_book();
    g.buy_on("a", 1, 10, "2024-01-01");
    g.buy_on("b", 1, 10, "2024-01-01");
    g.dispose("s", 1, 50, "2026-06-30");
    let p = g.project();
    let r = p.realized(B, Some(ROLES), &Rates::none()).unwrap().value.unwrap();
    assert_eq!(r.gain, -40);
    assert_eq!(r.long_term, -40, "the shared date is long");
    assert_eq!(r.short_term, 0);
    assert_eq!(r.unclassified(), 0);
    assert_eq!(p.lots_of(B, 1, "vti").unwrap().value[0].acquired, Some(day("2024-01-01")));
}

#[test]
fn a_pool_with_mixed_dates_stays_unclassified() {
    let mut g = pool_book();
    g.buy_on("a", 1, 10, "2024-01-01");
    g.buy_on("b", 1, 10, "2026-06-01");
    g.dispose("s", 1, 50, "2026-06-30");
    let p = g.project();
    let r = p.realized(B, Some(ROLES), &Rates::none()).unwrap().value.unwrap();
    assert_eq!(r.gain, -40, "the total is exact and ties to the chart");
    assert_eq!(r.short_term, 0);
    assert_eq!(r.long_term, 0);
    assert_eq!(r.unclassified(), -40, "no category was invented");
    assert_eq!(p.lots_of(B, 1, "vti").unwrap().value[0].acquired, None, "the remainder stays unset too");
}
