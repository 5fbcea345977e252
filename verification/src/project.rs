//! The figures a projection reads out, and the terms it folds under.
//!
//! A figure travels with the journal prefix, the view and the day it was read
//! at. Translation into one currency is kept apart from conservation: a
//! missing rate refuses rather than assuming par, and the base currency is at
//! par without a rate of its own.

use vstd::prelude::*;
use vstd::string::*;
use crate::relief::{Day, Method, method_of};
use crate::rules::{ChartRoles, RuleSet, effective_lot_method_of};

verus! {

/// A value read from a projection, with the journal prefix it was folded
/// from, the view it was read under and the day that view had reached.
#[derive(Clone, Debug, PartialEq, Eq)]
pub struct AsOf<T> {
    pub value: T,
    /// Entries folded: the position a figure built from this must pin.
    pub prefix: usize,
    /// The book of record this figure is read under.
    pub view: String,
    /// The day the view had recognised through.
    pub through: Option<Day>,
}

impl<T> AsOf<T> {
    /// Transform the value, keeping the prefix, the view and the cut.
    pub fn map<U, F: FnOnce(T) -> U>(self, f: F) -> (r: AsOf<U>)
        requires
            f.requires((self.value,)),
        ensures
            f.ensures((self.value,), r.value),
            r.prefix == self.prefix,
            r.view == self.view,
            r.through == self.through,
    {
        AsOf { value: f(self.value), prefix: self.prefix, view: self.view, through: self.through }
    }
}

/// One (dimension, currency) row of a view's fold: both sides, and how many
/// postings landed there.
#[derive(Clone, Copy, Debug, Default, PartialEq, Eq)]
pub struct DimTotal {
    pub debit: i128,
    pub credit: i128,
    pub postings: i64,
}

impl DimTotal {
    /// Debits less credits.
    pub fn net(&self) -> (r: i128)
        requires
            i128::MIN <= self.debit - self.credit <= i128::MAX,
        ensures
            r == self.debit - self.credit,
    {
        self.debit - self.credit
    }
}

/// Hundredths of the base currency: the scale a rate is quoted in.
pub const RATE_SCALE: i64 = 100;

/// What each currency is worth, for translating a book into one figure.
#[derive(Clone, Debug, PartialEq, Eq)]
pub struct Rates {
    /// The currency everything is translated into.
    base: Option<String>,
    /// Currency code and hundredths of the base, one row per code.
    per: Vec<(String, i64)>,
}

/// A rate table as values.
pub open spec fn table_view(s: Seq<(String, i64)>) -> Seq<(Seq<char>, i64)>
    decreases s.len(),
{
    if s.len() == 0 {
        Seq::empty()
    } else {
        table_view(s.drop_last()).push((s.last().0@, s.last().1))
    }
}

/// The row of a table for a code.
pub open spec fn row_of(t: Seq<(Seq<char>, i64)>, code: Seq<char>) -> Option<int> {
    if exists|j: int| 0 <= j < t.len() && t[j].0 == code && forall|k: int| 0 <= k < j ==> t[k].0 != code {
        Some(choose|j: int| 0 <= j < t.len() && t[j].0 == code && forall|k: int| 0 <= k < j ==> t[k].0 != code)
    } else {
        None
    }
}

/// A rate recorded in a table: a later rate for a code replaces an earlier.
pub open spec fn record_rate(t: Seq<(Seq<char>, i64)>, code: Seq<char>, rate: i64) -> Seq<(Seq<char>, i64)> {
    match row_of(t, code) {
        Some(j) => t.update(j, (code, rate)),
        None => t.push((code, rate)),
    }
}

/// Rates given in order, recorded one at a time.
pub open spec fn rates_table(given: Seq<(String, i64)>) -> Seq<(Seq<char>, i64)>
    decreases given.len(),
{
    if given.len() == 0 {
        Seq::empty()
    } else {
        record_rate(rates_table(given.drop_last()), given.last().0@, given.last().1)
    }
}

/// The factor for a currency: par where none is named, par for the base, and
/// otherwise the recorded rate, if any.
pub open spec fn factor_spec(base: Option<Seq<char>>, table: Seq<(Seq<char>, i64)>, currency: Option<Seq<char>>) -> Option<i64> {
    match currency {
        None => Some(RATE_SCALE),
        Some(c) => if base == Some(c) {
            Some(RATE_SCALE)
        } else {
            match row_of(table, c) {
                Some(j) => Some(table[j].1),
                None => None,
            }
        },
    }
}

proof fn lemma_table_view_len(s: Seq<(String, i64)>)
    ensures
        table_view(s).len() == s.len(),
    decreases s.len(),
{
    if s.len() > 0 {
        lemma_table_view_len(s.drop_last());
    }
}

proof fn lemma_table_view_at(s: Seq<(String, i64)>, k: int)
    requires
        0 <= k < s.len(),
    ensures
        table_view(s)[k] == (s[k].0@, s[k].1),
    decreases s.len(),
{
    lemma_table_view_len(s);
    if k < s.len() - 1 {
        lemma_table_view_at(s.drop_last(), k);
        lemma_table_view_len(s.drop_last());
    }
}

proof fn lemma_table_view_update(s: Seq<(String, i64)>, j: int, e: (String, i64))
    requires
        0 <= j < s.len(),
    ensures
        table_view(s.update(j, e)) == table_view(s).update(j, (e.0@, e.1)),
    decreases s.len(),
{
    lemma_table_view_len(s);
    lemma_table_view_len(s.update(j, e));
    if j < s.len() - 1 {
        lemma_table_view_update(s.drop_last(), j, e);
        assert(s.update(j, e).drop_last() =~= s.drop_last().update(j, e));
    } else {
        assert(s.update(j, e).drop_last() =~= s.drop_last());
        lemma_table_view_len(s.drop_last());
    }
    assert(table_view(s.update(j, e)) =~= table_view(s).update(j, (e.0@, e.1)));
}

fn find_row(t: &Vec<(String, i64)>, code: &str) -> (r: Option<usize>)
    ensures
        match r {
            Some(j) => row_of(table_view(t@), code@) == Some(j as int) && j < t@.len(),
            None => row_of(table_view(t@), code@) is None,
        },
{
    proof { lemma_table_view_len(t@); }
    let mut j: usize = 0;
    while j < t.len()
        invariant
            0 <= j <= t@.len(),
            table_view(t@).len() == t@.len(),
            forall|k: int| 0 <= k < j ==> table_view(t@)[k].0 != code@,
        decreases t@.len() - j,
    {
        proof { lemma_table_view_at(t@, j as int); }
        if crate::text::str_eq(t[j].0.as_str(), code) {
            proof {
                let m = table_view(t@);
                let k = j as int;
                let c = choose|c: int| 0 <= c < m.len() && m[c].0 == code@ && forall|i: int| 0 <= i < c ==> m[i].0 != code@;
                assert(c == k) by {
                    if c < k {
                    } else if c > k {
                    }
                }
            }
            return Some(j);
        }
        j = j + 1;
    }
    None
}

impl Rates {
    /// The base currency, and the table of rates, as values.
    pub closed spec fn base_view(&self) -> Option<Seq<char>> {
        match self.base {
            Some(b) => Some(b@),
            None => None,
        }
    }

    /// The table of rates, one row per code, as values.
    pub closed spec fn table(&self) -> Seq<(Seq<char>, i64)> {
        table_view(self.per@)
    }

    /// No rates at all: an untyped book translates at par, and a typed one is
    /// refused.
    pub fn none() -> (r: Rates)
        ensures
            r.base_view() is None,
            r.table().len() == 0,
    {
        Rates { base: None, per: Vec::new() }
    }

    /// Rates into a base currency: code to hundredths of the base, a later
    /// rate for a code replacing an earlier.
    pub fn of(base: &str, per: Vec<(String, i64)>) -> (r: Rates)
        ensures
            r.base_view() == Some(base@),
            r.table() == rates_table(per@),
    {
        let mut out: Vec<(String, i64)> = Vec::new();
        let mut i: usize = 0;
        while i < per.len()
            invariant
                0 <= i <= per@.len(),
                table_view(out@) == rates_table(per@.take(i as int)),
            decreases per@.len() - i,
        {
            proof {
                assert(per@.take(i + 1).drop_last() =~= per@.take(i as int));
                assert(per@.take(i + 1).last() == per@[i as int]);
            }
            let ghost before = out@;
            match find_row(&out, per[i].0.as_str()) {
                Some(j) => {
                    let code = per[i].0.clone();
                    out.set(j, (code, per[i].1));
                    proof {
                        lemma_table_view_update(before, j as int, (code, per@[i as int].1));
                    }
                },
                None => {
                    out.push((per[i].0.clone(), per[i].1));
                    assert(out@.drop_last() =~= before);
                },
            }
            i = i + 1;
        }
        assert(per@.take(per@.len() as int) =~= per@);
        Rates { base: Some(String::from_str(base)), per: out }
    }

    /// How many rates this carries: one per code, the base having none.
    pub fn len(&self) -> (r: usize)
        ensures
            r == self.table().len(),
    {
        proof { lemma_table_view_len(self.per@); }
        self.per.len()
    }

    /// Whether any rate was supplied.
    pub fn is_empty(&self) -> (r: bool)
        ensures
            r == (self.table().len() == 0),
    {
        proof { lemma_table_view_len(self.per@); }
        self.per.len() == 0
    }

    /// The factor for a named currency.
    pub fn factor_of(&self, currency: &str) -> (r: Option<i64>)
        ensures
            r == factor_spec(self.base_view(), self.table(), Some(currency@)),
    {
        self.factor(Some(currency))
    }

    /// The factor for a posting's currency, none included.
    pub fn factor_of_optional(&self, currency: Option<&str>) -> (r: Option<i64>)
        ensures
            r == factor_spec(self.base_view(), self.table(), match currency { Some(c) => Some(c@), None => None }),
    {
        self.factor(currency)
    }

    fn factor(&self, currency: Option<&str>) -> (r: Option<i64>)
        ensures
            r == factor_spec(self.base_view(), self.table(), match currency { Some(c) => Some(c@), None => None }),
    {
        match currency {
            None => Some(RATE_SCALE),
            Some(c) => {
                let at_par = match &self.base {
                    Some(b) => crate::text::str_eq(b.as_str(), c),
                    None => false,
                };
                if at_par {
                    return Some(RATE_SCALE);
                }
                match find_row(&self.per, c) {
                    Some(j) => {
                        proof { lemma_table_view_at(self.per@, j as int); }
                        Some(self.per[j].1)
                    },
                    None => None,
                }
            },
        }
    }
}

/// What one entry's configuration tells the lot engine.
#[derive(Clone, Copy, Debug, PartialEq, Eq, Structural)]
pub struct Terms {
    /// Which lots a sale gives up.
    pub method: Method,
    /// Which dimensions play which part.
    pub roles: Option<ChartRoles>,
    /// Days held for a gain to be long-term.
    pub long_term_days: i64,
    /// Days either side of a sale a repurchase washes the loss.
    pub wash_window_days: Option<i64>,
    /// Short-term tax weight for min-tax relief.
    pub min_tax_short_weight: Option<i64>,
    /// Whether the book pools the holding.
    pub average_cost: Option<bool>,
    /// Whether a wash replacement keeps its own acquisition date.
    pub wash_keep_holding_period: Option<bool>,
}

/// The terms a configuration sets.
pub open spec fn terms_of(set: RuleSet) -> Terms {
    Terms {
        method: method_of(effective_lot_method_of(set)),
        roles: set.chart_roles,
        long_term_days: set.long_term_days,
        wash_window_days: set.wash_window_days,
        min_tax_short_weight: set.min_tax_short_weight,
        average_cost: set.average_cost,
        wash_keep_holding_period: set.wash_keep_holding_period,
    }
}

impl Terms {
    /// The terms a rule set sets.
    pub fn of(set: &RuleSet) -> (r: Terms)
        ensures
            r == terms_of(*set),
    {
        Terms {
            method: Method::from(set.effective_lot_method()),
            roles: set.chart_roles,
            long_term_days: set.long_term_days,
            wash_window_days: set.wash_window_days,
            min_tax_short_weight: set.min_tax_short_weight,
            average_cost: set.average_cost,
            wash_keep_holding_period: set.wash_keep_holding_period,
        }
    }

    /// Terms for a caller folding entries without a chart: this method, and
    /// otherwise what a configuration that says nothing sets.
    pub fn under(method: Method) -> (r: Terms)
        ensures
            r == (Terms {
                method,
                roles: None,
                long_term_days: 365,
                wash_window_days: None,
                min_tax_short_weight: None,
                average_cost: None,
                wash_keep_holding_period: None,
            }),
    {
        let set = RuleSet::default();
        let t = Terms::of(&set);
        Terms { method, ..t }
    }
}

/// What a fold's effort went on: how many sales it tried to relieve.
#[derive(Clone, Copy, Debug, Default, PartialEq, Eq)]
pub struct FoldCost {
    /// How many reliefs the fold attempted.
    pub reliefs: u64,
}

/// What a fund has realized, and how much of it is classified. A gain reads
/// negative: the realized-gain account is credit-normal.
#[derive(Clone, Copy, Debug, Default, PartialEq, Eq)]
pub struct Realized {
    pub gain: i128,
    /// Cost given up by sales.
    pub basis: i128,
    /// The part of the gain on holdings held less than the threshold.
    pub short_term: i128,
    /// And at least the threshold.
    pub long_term: i128,
}

impl Realized {
    /// The part of the gain no holding period could be established for:
    /// derived, so the three parts sum to the total by construction.
    pub fn unclassified(&self) -> (r: i128)
        requires
            i128::MIN <= self.gain - self.short_term - self.long_term <= i128::MAX,
            i128::MIN <= self.gain - self.short_term <= i128::MAX,
        ensures
            r == self.gain - self.short_term - self.long_term,
            r + self.short_term + self.long_term == self.gain,
    {
        self.gain - self.short_term - self.long_term
    }
}

/// One entry in flight between two books of record.
#[derive(Clone, Debug, PartialEq, Eq)]
pub struct InFlightEntry {
    pub id: String,
    pub memo: String,
    /// The day the trade was struck.
    pub trade_day: Day,
    /// When `here` recognises it.
    pub recognised_here: Option<Day>,
    /// When `there` recognises it.
    pub recognised_there: Option<Day>,
    /// What recognising this entry moves the difference by, in minor units.
    pub effect: i64,
    /// Whether `here` has recognised it and `there` has not.
    pub in_here: bool,
}

/// One entry a view can never recognise, and why.
#[derive(Clone, Debug, PartialEq, Eq)]
pub struct Unplaced {
    pub id: String,
    pub memo: String,
    pub trade_day: Option<Day>,
    pub why: String,
}

/// What accounts for two views' NAVs differing, entry by entry.
#[derive(Clone, Debug, PartialEq, Eq)]
pub struct Reconciliation {
    pub here: String,
    pub there: String,
    /// Entries one view holds and the other does not, in journal order.
    pub entries: Vec<InFlightEntry>,
    /// Entries neither view can place.
    pub unplaceable: Vec<Unplaced>,
    /// `nav(here) − nav(there)`: the sum of the entries' signed effects.
    pub difference: i64,
}

/// A sale whose wash window is still open.
#[derive(Clone, Debug, PartialEq, Eq)]
pub struct OpenWashWindow {
    pub sold_on: Day,
    pub window: i64,
    pub remaining_units: i64,
    pub remaining_loss: i64,
}

} // verus!
