//! The chart of accounts, and the posting records a rule compiles to.
//!
//! An account's identity is its dimension; its name is for people. A posting
//! is an exact integer amount on a dimension, optionally in a currency and
//! held per instrument, with a count of units that is a measure rather than a
//! conserved quantity.

use vstd::prelude::*;
use vstd::string::*;

verus! {

/// What kind of thing an account is.
#[derive(Clone, Copy, Debug, PartialEq, Eq, Structural)]
pub enum AccountType {
    Asset,
    Liability,
    Equity,
    Income,
    Expense,
}

/// How an account type is written in a finding.
pub open spec fn account_type_name(t: AccountType) -> Seq<char> {
    match t {
        AccountType::Asset => "Asset"@,
        AccountType::Liability => "Liability"@,
        AccountType::Equity => "Equity"@,
        AccountType::Income => "Income"@,
        AccountType::Expense => "Expense"@,
    }
}

impl AccountType {
    /// The type's name, as a finding writes it.
    pub fn name(self) -> (r: &'static str)
        ensures
            r@ == account_type_name(self),
    {
        match self {
            AccountType::Asset => {
                proof { reveal_strlit("Asset"); }
                "Asset"
            },
            AccountType::Liability => {
                proof { reveal_strlit("Liability"); }
                "Liability"
            },
            AccountType::Equity => {
                proof { reveal_strlit("Equity"); }
                "Equity"
            },
            AccountType::Income => {
                proof { reveal_strlit("Income"); }
                "Income"
            },
            AccountType::Expense => {
                proof { reveal_strlit("Expense"); }
                "Expense"
            },
        }
    }
}

/// One account of a chart.
#[derive(Clone, Debug, PartialEq, Eq)]
pub struct Account {
    /// The dimension: what postings name.
    pub dim: i64,
    /// What a report calls it.
    pub display_name: String,
    pub account_type: AccountType,
}

/// The last account of a chart on a dimension: a chart read into a map by
/// dimension keeps the last row for each.
pub open spec fn account_at(chart: Seq<Account>, dim: i64) -> Option<int>
    decreases chart.len(),
{
    if chart.len() == 0 {
        None
    } else if chart.last().dim == dim {
        Some(chart.len() - 1)
    } else {
        account_at(chart.drop_last(), dim)
    }
}

/// Where `account_at` points, it points at an account on that dimension.
pub proof fn lemma_account_at(chart: Seq<Account>, dim: i64)
    ensures
        match account_at(chart, dim) {
            Some(i) => 0 <= i < chart.len() && chart[i].dim == dim
                && forall|j: int| i < j < chart.len() ==> chart[j].dim != dim,
            None => forall|j: int| 0 <= j < chart.len() ==> chart[j].dim != dim,
        },
    decreases chart.len(),
{
    if chart.len() > 0 && chart.last().dim != dim {
        lemma_account_at(chart.drop_last(), dim);
        assert forall|j: int| 0 <= j < chart.len() - 1 implies chart.drop_last()[j] == chart[j] by {}
    }
}

/// The index of the account a chart gives a dimension, if any.
pub fn find_account(chart: &[Account], dim: i64) -> (r: Option<usize>)
    ensures
        match r {
            Some(i) => i < chart@.len() && account_at(chart@, dim) == Some(i as int),
            None => account_at(chart@, dim) is None,
        },
{
    let mut k: usize = chart.len();
    assert(chart@.take(k as int) =~= chart@);
    while k > 0
        invariant
            k <= chart@.len(),
            account_at(chart@, dim) == account_at(chart@.take(k as int), dim),
        decreases k,
    {
        let ghost t = chart@.take(k as int);
        assert(t.last() == chart@[k - 1]);
        if chart[k - 1].dim == dim {
            return Some(k - 1);
        }
        assert(t.drop_last() =~= chart@.take(k - 1));
        k = k - 1;
    }
    None
}

/// One posting.
#[derive(Clone, Debug, PartialEq, Eq)]
pub struct PostingRecord {
    /// The dimension posted to.
    pub dim: i64,
    /// Minor units. Positive debits, negative credits.
    pub amount: i64,
    pub currency: Option<String>,
    /// The instrument a per-instrument leg carries.
    pub instrument: Option<String>,
    /// Whole units moved: a measure, not a conserved quantity.
    pub quantity: Option<i64>,
}

/// A posting as a value: optional texts taken by their characters.
pub struct PostingView {
    pub dim: i64,
    pub amount: i64,
    pub currency: Option<Seq<char>>,
    pub instrument: Option<Seq<char>>,
    pub quantity: Option<i64>,
}

/// An optional text, taken by its characters.
pub open spec fn text_of(o: Option<String>) -> Option<Seq<char>> {
    match o {
        Some(s) => Some(s@),
        None => None,
    }
}

impl View for PostingRecord {
    type V = PostingView;

    open spec fn view(&self) -> PostingView {
        PostingView {
            dim: self.dim,
            amount: self.amount,
            currency: text_of(self.currency),
            instrument: text_of(self.instrument),
            quantity: self.quantity,
        }
    }
}

/// Postings, each taken as a value.
pub open spec fn postings_view(s: Seq<PostingRecord>) -> Seq<PostingView> {
    s.map_values(|p: PostingRecord| p@)
}

/// The net of a run of postings.
pub open spec fn posted_net(s: Seq<PostingView>) -> int
    decreases s.len(),
{
    if s.len() == 0 {
        0
    } else {
        posted_net(s.drop_last()) + s.last().amount
    }
}

impl PostingRecord {
    /// A posting of `amount` on `dim`, in no currency and per no instrument.
    pub fn new(dim: i64, amount: i64) -> (r: PostingRecord)
        ensures
            r@ == (PostingView { dim, amount, currency: None, instrument: None, quantity: None }),
    {
        PostingRecord { dim, amount, currency: None, instrument: None, quantity: None }
    }

    /// A posting held per instrument, carrying the units moved.
    pub fn of(dim: i64, amount: i64, instrument: &str, quantity: Option<i64>) -> (r: PostingRecord)
        ensures
            r@ == (PostingView {
                dim,
                amount,
                currency: None,
                instrument: Some(instrument@),
                quantity,
            }),
    {
        PostingRecord {
            dim,
            amount,
            currency: None,
            instrument: Some(String::from_str(instrument)),
            quantity,
        }
    }
}

} // verus!
