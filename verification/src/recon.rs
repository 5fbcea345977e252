//! The shadow run: a period's transactions replayed through an approved
//! configuration, compared with what an incumbent reported.
//!
//! Coverage is a hard stop, not a best effort. A file with one row this run does
//! not model produces no breaks at all, only exceptions naming every such row:
//! a missed break costs a conversation, a false break costs the engagement.
//! A disposal needs the basis its source system relieved, and becomes two
//! balanced rule applications, at proceeds and at basis.

use vstd::prelude::*;
use vstd::string::*;
use vstd::view::View as _;
use crate::config::{Reason, Rejection};
use crate::rules::{Event, RuleSet, first_rule};
use crate::text::{chars_of, decimal, push_char, push_decimal, string_of};

verus! {

/// How one transaction type turns into rule applications.
#[derive(Clone, Debug, PartialEq, Eq)]
pub enum TypeHandling {
    /// One rule, applied at the row's amount.
    Simple { rule: String },
    /// A disposal: two rules, at proceeds and at basis.
    Disposal { proceeds_rule: String, basis_rule: String },
}

/// The rules a handling applies, in order.
pub open spec fn handling_rules(h: TypeHandling) -> Seq<Seq<char>> {
    match h {
        TypeHandling::Simple { rule } => seq![rule@],
        TypeHandling::Disposal { proceeds_rule, basis_rule } => seq![proceeds_rule@, basis_rule@],
    }
}

impl TypeHandling {
    /// The rules this handling applies.
    fn rules(&self) -> (r: Vec<&str>)
        ensures
            r@.len() == handling_rules(*self).len(),
            forall|i: int| 0 <= i < r@.len() ==> (#[trigger] r@[i])@ == handling_rules(*self)[i],
    {
        match self {
            TypeHandling::Simple { rule } => {
                let mut v: Vec<&str> = Vec::new();
                v.push(rule.as_str());
                v
            },
            TypeHandling::Disposal { proceeds_rule, basis_rule } => {
                let mut v: Vec<&str> = Vec::new();
                v.push(proceeds_rule.as_str());
                v.push(basis_rule.as_str());
                v
            },
        }
    }
}

/// What a run covers, declared up front so the coverage check has something to check a
/// file against. The types are held in name order.
#[derive(Clone, Debug, PartialEq, Eq)]
pub struct Scope {
    pub label: String,
    pub base_currency: String,
    /// Transaction type, and the rule or rules that handle it.
    pub types: Vec<(String, TypeHandling)>,
    pub exclusions: Vec<String>,
}

/// The one scope shipped: single currency, long-only equities, plain trades,
/// cash dividends, one management fee.
pub fn equity_long_only_single_ccy(base_currency: &str) -> (r: Scope)
    ensures
        r.label@ == "equity-long-only-single-ccy"@,
        r.base_currency@ == base_currency@,
        r.types@.len() == 4,
        r.types@[0].0@ == "buy"@,
        r.types@[0].1 matches TypeHandling::Simple { rule } && rule@ == "equity_purchase"@,
        r.types@[1].0@ == "dividend"@,
        r.types@[1].1 matches TypeHandling::Simple { rule } && rule@ == "cash_dividend"@,
        r.types@[2].0@ == "fee"@,
        r.types@[2].1 matches TypeHandling::Simple { rule } && rule@ == "management_fee_accrual"@,
        r.types@[3].0@ == "sell"@,
        r.types@[3].1 matches TypeHandling::Disposal { proceeds_rule, basis_rule }
            && proceeds_rule@ == "disposal_proceeds"@ && basis_rule@ == "disposal_basis"@,
        r.exclusions@.len() == 4,
        r.exclusions@[0]@ == "foreign currency and any FX translation"@,
        r.exclusions@[1]@ == "corporate actions — splits, mergers, spin-offs, returns of capital"@,
        r.exclusions@[2]@ == "tax-lot selection — a disposal must carry the basis the source system relieved"@,
        r.exclusions@[3]@ == "derivatives, short positions, and securities lending"@,
{
    let mut types: Vec<(String, TypeHandling)> = Vec::new();
    types.push((String::from_str("buy"), TypeHandling::Simple { rule: String::from_str("equity_purchase") }));
    types.push((String::from_str("dividend"), TypeHandling::Simple { rule: String::from_str("cash_dividend") }));
    types.push((String::from_str("fee"), TypeHandling::Simple { rule: String::from_str("management_fee_accrual") }));
    types.push((String::from_str("sell"), TypeHandling::Disposal {
        proceeds_rule: String::from_str("disposal_proceeds"),
        basis_rule: String::from_str("disposal_basis"),
    }));
    let mut exclusions: Vec<String> = Vec::new();
    exclusions.push(String::from_str("foreign currency and any FX translation"));
    exclusions.push(String::from_str("corporate actions — splits, mergers, spin-offs, returns of capital"));
    exclusions.push(String::from_str("tax-lot selection — a disposal must carry the basis the source system relieved"));
    exclusions.push(String::from_str("derivatives, short positions, and securities lending"));
    Scope {
        label: String::from_str("equity-long-only-single-ccy"),
        base_currency: String::from_str(base_currency),
        types,
        exclusions,
    }
}

/// Why a row was refused.
#[derive(Clone, Copy, Debug, PartialEq, Eq, Structural)]
pub enum Refusal {
    UnknownTransactionType,
    ForeignCurrency,
    DisposalWithoutBasis,
    NoRuleForType,
}

/// One row the run does not model.
#[derive(Clone, Debug, PartialEq, Eq)]
pub struct Exception {
    pub transaction_id: String,
    pub refusal: Refusal,
    pub detail: String,
}

/// A transaction as it appears in the customer's file.
#[derive(Clone, Debug, PartialEq, Eq)]
pub struct Txn {
    pub id: String,
    pub date: String,
    pub kind: String,
    pub security: String,
    /// Minor units. Sign is the file's; the rule decides the posting's sign.
    pub amount: i64,
    /// Minor units. Present only for a disposal.
    pub basis: Option<i64>,
    pub currency: String,
    /// Accruals only: days in the period.
    pub days: Option<i64>,
}

/// What kind of difference a break is.
#[derive(Clone, Copy, Debug, PartialEq, Eq, Structural)]
pub enum Cause {
    AmountDiffers,
    AbsentFromReport,
    AbsentFromRatio,
}

/// One difference.
#[derive(Clone, Debug, PartialEq, Eq)]
pub struct Break {
    pub account: i64,
    pub display_name: String,
    pub ratio_amount: i64,
    pub reported_amount: i64,
    pub difference: i64,
    pub cause: Cause,
    pub ratio_basis: String,
}

/// The result of a run.
#[derive(Clone, Debug, PartialEq, Eq)]
pub struct BreakReport {
    pub config_digest: String,
    pub scope: Scope,
    pub transactions_replayed: i64,
    pub entries_posted: i64,
    pub breaks: Vec<Break>,
    pub exceptions: Vec<Exception>,
    pub book_ties: bool,
}

impl BreakReport {
    /// True when the run produced a report rather than a refusal.
    pub fn was_reconciled(&self) -> (r: bool)
        ensures
            r == (self.exceptions@.len() == 0),
    {
        self.exceptions.len() == 0
    }

    /// True when it reconciled and found nothing.
    pub fn is_clean(&self) -> (r: bool)
        ensures
            r == (self.exceptions@.len() == 0 && self.breaks@.len() == 0),
    {
        self.was_reconciled() && self.breaks.len() == 0
    }
}

// ------------------------------------------------------------------- parsing

/// Texts, each taken by its characters.
pub open spec fn texts_view(s: Seq<String>) -> Seq<Seq<char>>
    decreases s.len(),
{
    if s.len() == 0 {
        Seq::empty()
    } else {
        texts_view(s.drop_last()).push(s.last()@)
    }
}

/// One CSV line read from position `i` on, with the fields so far, the field
/// being read, and whether a quote is open: the fields, or `None` where a
/// quote never closes. Inside quotes a doubled quote is a quote; a comma
/// outside quotes ends a field.
pub open spec fn csv_from(s: Seq<char>, i: int, fields: Seq<Seq<char>>, cur: Seq<char>, quoted: bool) -> Option<Seq<Seq<char>>>
    decreases s.len() - i,
{
    if i >= s.len() || i < 0 {
        if quoted { None } else { Some(fields.push(cur)) }
    } else {
        let c = s[i];
        if c == '"' && quoted {
            if i + 1 < s.len() && s[i + 1] == '"' {
                csv_from(s, i + 2, fields, cur.push('"'), true)
            } else {
                csv_from(s, i + 1, fields, cur, false)
            }
        } else if c == '"' {
            csv_from(s, i + 1, fields, cur, true)
        } else if c == ',' && !quoted {
            csv_from(s, i + 1, fields.push(cur), Seq::empty(), false)
        } else {
            csv_from(s, i + 1, fields, cur.push(c), quoted)
        }
    }
}

/// The fields of one CSV line, or `None` where a quote never closes.
pub open spec fn csv_fields(line: Seq<char>) -> Option<Seq<Seq<char>>> {
    csv_from(line, 0, Seq::empty(), Seq::empty(), false)
}

/// Split one CSV line, honoring double-quoted fields: commas inside them, and
/// `""` as an escaped quote. A quote that does not close on its line is an
/// error, never a silent misread.
pub fn split_csv_line(line: &str) -> (r: Result<Vec<String>, Rejection>)
    ensures
        match r {
            Ok(f) => csv_fields(line@) == Some(texts_view(f@)),
            Err(e) => csv_fields(line@) is None && e.reason == Reason::UnterminatedQuote
                && e.text@ == "unterminated quote — a field containing a newline is not supported"@,
        },
{
    let cs = chars_of(line);
    let n = cs.len();
    let mut fields: Vec<String> = Vec::new();
    let mut cur: Vec<char> = Vec::new();
    let mut quoted = false;
    let mut i: usize = 0;
    while i < n
        invariant
            0 <= i <= n,
            n == cs@.len(),
            cs@ == line@,
            csv_fields(line@) == csv_from(cs@, i as int, texts_view(fields@), cur@, quoted),
        decreases n - i,
    {
        let c = cs[i];
        if c == '"' && quoted {
            if i + 1 < n && cs[i + 1] == '"' {
                cur.push('"');
                i = i + 2;
            } else {
                quoted = false;
                i = i + 1;
            }
        } else if c == '"' {
            quoted = true;
            i = i + 1;
        } else if c == ',' && !quoted {
            let f = string_of(&cur);
            let ghost before = fields@;
            fields.push(f);
            assert(fields@.drop_last() =~= before);
            cur = Vec::new();
            assert(cur@ =~= Seq::<char>::empty());
            i = i + 1;
        } else {
            cur.push(c);
            i = i + 1;
        }
    }
    if quoted {
        return Err(Rejection {
            reason: Reason::UnterminatedQuote,
            text: String::from_str("unterminated quote — a field containing a newline is not supported"),
        });
    }
    let f = string_of(&cur);
    let ghost before = fields@;
    fields.push(f);
    assert(fields@.drop_last() =~= before);
    Ok(fields)
}

/// The memo a replayed entry carries: the date, the type, and the security
/// where there is one.
pub open spec fn memo_text(t: Txn) -> Seq<char> {
    if t.security@.len() == 0 {
        t.date@ + " "@ + t.kind@
    } else {
        t.date@ + " "@ + t.kind@ + " "@ + t.security@
    }
}

fn memo(t: &Txn) -> (r: String)
    ensures
        r@ == memo_text(*t),
{
    let mut s = String::from_str(t.date.as_str());
    s.append(" ");
    s.append(t.kind.as_str());
    if t.security.as_str().unicode_len() > 0 {
        s.append(" ");
        s.append(t.security.as_str());
    }
    s
}

/// Two decimal digits, zero-padded.
pub open spec fn two_digits(n: nat) -> Seq<char> {
    seq![crate::text::digit_char(n / 10), crate::text::digit_char(n % 10)]
}

/// An amount in minor units written in major units with two decimals.
pub open spec fn minor_text(v: int) -> Seq<char> {
    let a: nat = (if v < 0 { -v } else { v }) as nat;
    (if v < 0 { "-"@ } else { Seq::empty() }) + crate::text::digits(a / 100) + "."@ + two_digits(a % 100)
}

fn minor(v: i64) -> (r: String)
    ensures
        r@ == minor_text(v as int),
{
    let a: u64 = if v < 0 { ((-(v as i128)) as u64) } else { v as u64 };
    let mut s = String::new();
    if v < 0 {
        push_char(&mut s, '-');
    }
    push_decimal(&mut s, (a / 100) as i128);
    push_char(&mut s, '.');
    let c: u64 = a % 100;
    let tens: u8 = (c / 10) as u8;
    let ones: u8 = (c % 10) as u8;
    push_char(&mut s, (tens + 48u8) as char);
    push_char(&mut s, (ones + 48u8) as char);
    proof {
        let an: nat = (if v < 0 { -v } else { v as int }) as nat;
        assert(a as nat == an);
        assert(crate::text::decimal((a / 100) as int) == crate::text::digits(an / 100));
        assert(tens as nat == (an % 100) / 10);
        assert(ones as nat == (an % 100) % 10);
        assert((tens + 48u8) as char == crate::text::digit_char((an % 100) / 10));
        assert((ones + 48u8) as char == crate::text::digit_char((an % 100) % 10));
        reveal_strlit("-");
        reveal_strlit(".");
        let pre: Seq<char> = if v < 0 { "-"@ } else { Seq::empty() };
        assert(s@ =~= pre + crate::text::digits(an / 100) + "."@ + two_digits(an % 100));
    }
    s
}

// ------------------------------------------------------------------ coverage

/// An exception as a value: the row, why, and what to do about it.
pub type ExceptionView = (Seq<char>, Refusal, Seq<char>);

impl vstd::view::View for Exception {
    type V = ExceptionView;

    open spec fn view(&self) -> ExceptionView {
        (self.transaction_id@, self.refusal, self.detail@)
    }
}

/// Events, each taken as a value.
pub open spec fn events_view(s: Seq<Event>) -> Seq<crate::rules::EventView>
    decreases s.len(),
{
    if s.len() == 0 {
        Seq::empty()
    } else {
        events_view(s.drop_last()).push(s.last()@)
    }
}

/// Exceptions, each taken as a value.
pub open spec fn exceptions_view(s: Seq<Exception>) -> Seq<ExceptionView>
    decreases s.len(),
{
    if s.len() == 0 {
        Seq::empty()
    } else {
        exceptions_view(s.drop_last()).push(s.last()@)
    }
}

/// Borrowed texts, each taken by its characters.
pub open spec fn strs_view(s: Seq<&str>) -> Seq<Seq<char>>
    decreases s.len(),
{
    if s.len() == 0 {
        Seq::empty()
    } else {
        strs_view(s.drop_last()).push(s.last()@)
    }
}

/// The first type of a scope with this name.
pub open spec fn lookup_type(types: Seq<(String, TypeHandling)>, kind: Seq<char>) -> Option<int> {
    if exists|i: int| 0 <= i < types.len() && types[i].0@ == kind && forall|j: int| 0 <= j < i ==> types[j].0@ != kind {
        Some(choose|i: int| 0 <= i < types.len() && types[i].0@ == kind && forall|j: int| 0 <= j < i ==> types[j].0@ != kind)
    } else {
        None
    }
}

/// The names of a scope's types, in order.
pub open spec fn type_names(types: Seq<(String, TypeHandling)>) -> Seq<Seq<char>>
    decreases types.len(),
{
    if types.len() == 0 {
        Seq::empty()
    } else {
        type_names(types.drop_last()).push(types.last().0@)
    }
}

/// Texts joined by a separator.
pub open spec fn join(parts: Seq<Seq<char>>, sep: Seq<char>) -> Seq<char>
    decreases parts.len(),
{
    if parts.len() == 0 {
        Seq::empty()
    } else if parts.len() == 1 {
        parts[0]
    } else {
        join(parts.drop_last(), sep) + sep + parts.last()
    }
}

/// The rules, of those named, that a configuration does not carry, in order.
pub open spec fn missing_rules(names: Seq<Seq<char>>, set: RuleSet) -> Seq<Seq<char>>
    decreases names.len(),
{
    if names.len() == 0 {
        Seq::empty()
    } else if first_rule(set.rules@, names.last()) is None {
        missing_rules(names.drop_last(), set).push(names.last())
    } else {
        missing_rules(names.drop_last(), set)
    }
}

/// An event of the shadow run.
pub open spec fn run_event(rule: Seq<char>, id: Seq<char>, amount: int, days: Option<i64>, memo: Seq<char>) -> crate::rules::EventView {
    crate::rules::EventView { rule, id, amount: amount as i64, days, memo, instrument: None, quantity: None }
}

/// What one row of a file comes to under a scope and a configuration: the
/// events to replay, or why it cannot be.
pub open spec fn row_outcome(t: Txn, scope: Scope, set: RuleSet) -> Result<Seq<crate::rules::EventView>, ExceptionView> {
    let id = t.id@;
    if t.currency@ != scope.base_currency@ {
        Err((id, Refusal::ForeignCurrency, id + " is in "@ + t.currency@ + ", and this run covers "@ + scope.base_currency@
            + " only. Modeling it needs an FX rate and a translation policy; guessing either produces breaks that are Ratio's fault, not yours."@))
    } else {
        match lookup_type(scope.types@, t.kind@) {
            None => Err((id, Refusal::UnknownTransactionType, "`"@ + t.kind@
                + "` is not a transaction type this run covers. It handles: "@ + join(type_names(scope.types@), ", "@) + "."@)),
            Some(k) => {
                let h = scope.types@[k].1;
                let missing = missing_rules(handling_rules(h), set);
                if missing.len() > 0 {
                    Err((id, Refusal::NoRuleForType, "`"@ + t.kind@ + "` needs rule(s) "@ + join(missing, ", "@)
                        + " which the active configuration does not have. Approve them before running."@))
                } else {
                    let magnitude: int = if t.amount < 0 { -t.amount } else { t.amount as int };
                    match h {
                        TypeHandling::Simple { rule } => Ok(seq![run_event(rule@, id, magnitude, t.days, memo_text(t))]),
                        TypeHandling::Disposal { proceeds_rule, basis_rule } => match t.basis {
                            None => Err((id, Refusal::DisposalWithoutBasis, id
                                + " is a disposal with no basis. Relieving the investment at proceeds instead would balance the entry and still leave the investment figure wrong. Add the cost your system relieved."@)),
                            Some(b) => Ok(seq![
                                run_event(proceeds_rule@, id + "-proceeds"@, magnitude, None, memo_text(t)),
                                run_event(basis_rule@, id + "-basis"@, if b < 0 { -b } else { b as int }, None, memo_text(t)),
                            ]),
                        },
                    }
                }
            },
        }
    }
}

/// Whether a row's figures can be taken as magnitudes: where coverage would
/// pass it, its amount, and a disposal's basis, are not the one value whose
/// magnitude does not fit.
pub open spec fn magnitudes_fit(t: Txn, scope: Scope) -> bool {
    t.amount != i64::MIN && t.basis != Some(i64::MIN)
}

/// A file's rows folded in order into the events and the exceptions they
/// come to.
pub open spec fn cover_fold(txns: Seq<Txn>, scope: Scope, set: RuleSet) -> (Seq<crate::rules::EventView>, Seq<ExceptionView>)
    decreases txns.len(),
{
    if txns.len() == 0 {
        (Seq::empty(), Seq::empty())
    } else {
        let prev = cover_fold(txns.drop_last(), scope, set);
        match row_outcome(txns.last(), scope, set) {
            Ok(evs) => (prev.0 + evs, prev.1),
            Err(x) => (prev.0, prev.1.push(x)),
        }
    }
}

/// What coverage gives a file: the events to replay when every row is
/// covered, otherwise every exception and no events at all.
pub open spec fn cover_result(txns: Seq<Txn>, scope: Scope, set: RuleSet) -> Result<Seq<crate::rules::EventView>, Seq<ExceptionView>> {
    let f = cover_fold(txns, scope, set);
    if f.1.len() == 0 { Ok(f.0) } else { Err(f.1) }
}

proof fn lemma_events_view_concat(a: Seq<Event>, b: Seq<Event>)
    ensures
        events_view(a + b) == events_view(a) + events_view(b),
    decreases b.len(),
{
    if b.len() == 0 {
        assert(a + b =~= a);
        assert(events_view(a) + events_view(b) =~= events_view(a));
    } else {
        lemma_events_view_concat(a, b.drop_last());
        assert((a + b).drop_last() =~= a + b.drop_last());
        assert((a + b).last() == b.last());
        assert(events_view(a + b) =~= events_view(a) + events_view(b));
    }
}

fn find_type(types: &Vec<(String, TypeHandling)>, kind: &String) -> (r: Option<usize>)
    ensures
        match r {
            Some(k) => lookup_type(types@, kind@) == Some(k as int) && k < types@.len(),
            None => lookup_type(types@, kind@) is None,
        },
{
    let mut i: usize = 0;
    while i < types.len()
        invariant
            0 <= i <= types@.len(),
            forall|j: int| 0 <= j < i ==> types@[j].0@ != kind@,
        decreases types@.len() - i,
    {
        if types[i].0 == *kind {
            proof {
                let k = i as int;
                let c = choose|c: int| 0 <= c < types@.len() && types@[c].0@ == kind@
                    && forall|j: int| 0 <= j < c ==> types@[j].0@ != kind@;
                assert(c == k) by {
                    if c < k {
                    } else if c > k {
                    }
                }
            }
            return Some(i);
        }
        i = i + 1;
    }
    None
}

fn push_joined_names(s: &mut String, types: &Vec<(String, TypeHandling)>)
    ensures
        final(s)@ == old(s)@ + join(type_names(types@), ", "@),
{
    let ghost base = s@;
    let mut i: usize = 0;
    while i < types.len()
        invariant
            0 <= i <= types@.len(),
            s@ == base + join(type_names(types@.take(i as int)), ", "@),
            type_names(types@.take(i as int)).len() == i,
        decreases types@.len() - i,
    {
        proof {
            assert(types@.take(i + 1).drop_last() =~= types@.take(i as int));
        }
        if i > 0 {
            s.append(", ");
        }
        s.append(types[i].0.as_str());
        i = i + 1;
        proof {
            let names = type_names(types@.take(i as int));
            let prev = type_names(types@.take(i - 1));
            assert(types@.take(i as int).drop_last() =~= types@.take(i - 1));
            assert(types@.take(i as int).last() == types@[i - 1]);
            assert(names == prev.push(types@[i - 1].0@));
            assert(names.drop_last() =~= prev);
            if i == 1 {
                assert(names =~= seq![types@[0].0@]);
            }
            assert(s@ =~= base + join(names, ", "@));
        }
    }
    assert(types@.take(types@.len() as int) =~= types@);
}

proof fn lemma_strs_view_len(s: Seq<&str>)
    ensures
        strs_view(s).len() == s.len(),
    decreases s.len(),
{
    if s.len() > 0 {
        lemma_strs_view_len(s.drop_last());
    }
}

proof fn lemma_strs_view_at(s: Seq<&str>, k: int)
    requires
        0 <= k < s.len(),
    ensures
        strs_view(s)[k] == s[k]@,
    decreases s.len(),
{
    lemma_strs_view_len(s);
    if k < s.len() - 1 {
        lemma_strs_view_at(s.drop_last(), k);
        lemma_strs_view_len(s.drop_last());
    }
}

fn push_joined(s: &mut String, parts: &Vec<&str>)
    ensures
        final(s)@ == old(s)@ + join(strs_view(parts@), ", "@),
{
    let ghost base = s@;
    let ghost all = strs_view(parts@);
    proof { lemma_strs_view_len(parts@); }
    let mut i: usize = 0;
    while i < parts.len()
        invariant
            0 <= i <= parts@.len(),
            all == strs_view(parts@),
            all.len() == parts@.len(),
            s@ == base + join(all.take(i as int), ", "@),
        decreases parts@.len() - i,
    {
        proof {
            assert(all.take(i + 1).drop_last() =~= all.take(i as int));
        }
        if i > 0 {
            s.append(", ");
        }
        s.append(parts[i]);
        proof { lemma_strs_view_at(parts@, i as int); }
        i = i + 1;
        proof {
            if i == 1 {
                assert(all.take(1) =~= seq![all[0]]);
            }
            assert(s@ =~= base + join(all.take(i as int), ", "@));
        }
    }
    assert(all.take(all.len() as int) =~= all);
}

fn foreign(t: &Txn, scope: &Scope) -> (x: Exception)
    requires
        t.currency@ != scope.base_currency@,
    ensures
        x@ == (t.id@, Refusal::ForeignCurrency, t.id@ + " is in "@ + t.currency@ + ", and this run covers "@
            + scope.base_currency@
            + " only. Modeling it needs an FX rate and a translation policy; guessing either produces breaks that are Ratio's fault, not yours."@),
{
    let mut d = String::from_str(t.id.as_str());
    d.append(" is in ");
    d.append(t.currency.as_str());
    d.append(", and this run covers ");
    d.append(scope.base_currency.as_str());
    d.append(" only. Modeling it needs an FX rate and a translation policy; guessing either produces breaks that are Ratio's fault, not yours.");
    Exception { transaction_id: t.id.clone(), refusal: Refusal::ForeignCurrency, detail: d }
}

fn unknown(t: &Txn, scope: &Scope) -> (x: Exception)
    ensures
        x@ == (t.id@, Refusal::UnknownTransactionType, "`"@ + t.kind@
            + "` is not a transaction type this run covers. It handles: "@ + join(type_names(scope.types@), ", "@) + "."@),
{
    let mut d = String::from_str("`");
    d.append(t.kind.as_str());
    d.append("` is not a transaction type this run covers. It handles: ");
    push_joined_names(&mut d, &scope.types);
    d.append(".");
    Exception { transaction_id: t.id.clone(), refusal: Refusal::UnknownTransactionType, detail: d }
}

fn has_rule(set: &RuleSet, name: &str) -> (r: bool)
    ensures
        r == (first_rule(set.rules@, name@) is Some),
{
    set.rule(name).is_some()
}

fn missing_of<'a>(handling: &'a TypeHandling, set: &RuleSet) -> (r: Vec<&'a str>)
    ensures
        strs_view(r@) == missing_rules(handling_rules(*handling), *set),
{
    let mut missing: Vec<&str> = Vec::new();
    match handling {
        TypeHandling::Simple { rule } => {
            let present = has_rule(set, rule.as_str());
            if !present {
                missing.push(rule.as_str());
            }
            proof {
                let hn = seq![rule@];
                assert(hn.drop_last() =~= Seq::<Seq<char>>::empty());
                assert(missing_rules(Seq::<Seq<char>>::empty(), *set) == Seq::<Seq<char>>::empty());
                if !present {
                    assert(missing@.drop_last() =~= Seq::<&str>::empty());
                    assert(strs_view(Seq::<&str>::empty()) == Seq::<Seq<char>>::empty());
                    assert(strs_view(missing@) =~= seq![rule@]);
                } else {
                    assert(missing@ =~= Seq::<&str>::empty());
                }
                assert(strs_view(missing@) =~= missing_rules(hn, *set));
            }
        },
        TypeHandling::Disposal { proceeds_rule, basis_rule } => {
            let has_p = has_rule(set, proceeds_rule.as_str());
            if !has_p {
                missing.push(proceeds_rule.as_str());
            }
            let ghost m1 = missing@;
            let has_b = has_rule(set, basis_rule.as_str());
            if !has_b {
                missing.push(basis_rule.as_str());
            }
            proof {
                let hn = seq![proceeds_rule@, basis_rule@];
                let h1 = seq![proceeds_rule@];
                assert(hn.drop_last() =~= h1);
                assert(h1.drop_last() =~= Seq::<Seq<char>>::empty());
                assert(missing_rules(Seq::<Seq<char>>::empty(), *set) == Seq::<Seq<char>>::empty());
                assert(strs_view(Seq::<&str>::empty()) == Seq::<Seq<char>>::empty());
                let v1: Seq<Seq<char>> = if has_p { Seq::empty() } else { seq![proceeds_rule@] };
                if !has_p {
                    assert(m1.drop_last() =~= Seq::<&str>::empty());
                    assert(strs_view(m1) =~= v1);
                } else {
                    assert(m1 =~= Seq::<&str>::empty());
                }
                assert(missing_rules(h1, *set) =~= v1);
                if !has_b {
                    assert(missing@.drop_last() =~= m1);
                    assert(strs_view(missing@) == strs_view(m1).push(basis_rule@));
                } else {
                    assert(missing@ =~= m1);
                }
                assert(strs_view(missing@) =~= missing_rules(hn, *set));
            }
        },
    }
    missing
}

fn no_rule(t: &Txn, missing: &Vec<&str>) -> (x: Exception)
    ensures
        x@ == (t.id@, Refusal::NoRuleForType, "`"@ + t.kind@ + "` needs rule(s) "@ + join(strs_view(missing@), ", "@)
            + " which the active configuration does not have. Approve them before running."@),
{
    let mut d = String::from_str("`");
    d.append(t.kind.as_str());
    d.append("` needs rule(s) ");
    push_joined(&mut d, missing);
    d.append(" which the active configuration does not have. Approve them before running.");
    Exception { transaction_id: t.id.clone(), refusal: Refusal::NoRuleForType, detail: d }
}

/// The events a covered row comes to, given its handling.
pub open spec fn handled(t: Txn, h: TypeHandling) -> Result<Seq<crate::rules::EventView>, ExceptionView> {
    let id = t.id@;
    let magnitude: int = if t.amount < 0 { -t.amount } else { t.amount as int };
    match h {
        TypeHandling::Simple { rule } => Ok(seq![run_event(rule@, id, magnitude, t.days, memo_text(t))]),
        TypeHandling::Disposal { proceeds_rule, basis_rule } => match t.basis {
            None => Err((id, Refusal::DisposalWithoutBasis, id
                + " is a disposal with no basis. Relieving the investment at proceeds instead would balance the entry and still leave the investment figure wrong. Add the cost your system relieved."@)),
            Some(b) => Ok(seq![
                run_event(proceeds_rule@, id + "-proceeds"@, magnitude, None, memo_text(t)),
                run_event(basis_rule@, id + "-basis"@, if b < 0 { -b } else { b as int }, None, memo_text(t)),
            ]),
        },
    }
}

fn events_for(t: &Txn, handling: &TypeHandling) -> (r: Result<Vec<Event>, Exception>)
    requires
        t.amount != i64::MIN,
        t.basis != Some(i64::MIN),
    ensures
        match r {
            Ok(evs) => handled(*t, *handling) == Ok::<Seq<crate::rules::EventView>, ExceptionView>(events_view(evs@)),
            Err(x) => handled(*t, *handling) == Err::<Seq<crate::rules::EventView>, ExceptionView>(x@),
        },
{
    let magnitude: i64 = if t.amount < 0 { -t.amount } else { t.amount };
    let mut out: Vec<Event> = Vec::new();
    match handling {
        TypeHandling::Simple { rule } => {
            out.push(Event {
                rule: rule.clone(),
                id: t.id.clone(),
                amount: magnitude,
                days: t.days,
                memo: memo(t),
                instrument: None,
                quantity: None,
            });
            assert(out@.drop_last() =~= Seq::<Event>::empty());
            assert(events_view(out@.drop_last()) == Seq::<crate::rules::EventView>::empty());
            assert(events_view(out@) == events_view(out@.drop_last()).push(out@[0]@));
            assert(events_view(out@) =~= seq![out@[0]@]);
        },
        TypeHandling::Disposal { proceeds_rule, basis_rule } => {
            let b = match t.basis {
                Some(b) => b,
                None => {
                    let mut d = String::from_str(t.id.as_str());
                    d.append(" is a disposal with no basis. Relieving the investment at proceeds instead would balance the entry and still leave the investment figure wrong. Add the cost your system relieved.");
                    return Err(Exception { transaction_id: t.id.clone(), refusal: Refusal::DisposalWithoutBasis, detail: d });
                },
            };
            let bm: i64 = if b < 0 { -b } else { b };
            let mut pid = String::from_str(t.id.as_str());
            pid.append("-proceeds");
            let mut bid = String::from_str(t.id.as_str());
            bid.append("-basis");
            out.push(Event { rule: proceeds_rule.clone(), id: pid, amount: magnitude, days: None, memo: memo(t), instrument: None, quantity: None });
            out.push(Event { rule: basis_rule.clone(), id: bid, amount: bm, days: None, memo: memo(t), instrument: None, quantity: None });
            let ghost one = out@.drop_last();
            assert(one.drop_last() =~= Seq::<Event>::empty());
            assert(one =~= seq![out@[0]]);
            assert(events_view(one.drop_last()) == Seq::<crate::rules::EventView>::empty());
            assert(events_view(one) == events_view(one.drop_last()).push(out@[0]@));
            assert(events_view(out@) == events_view(one).push(out@[1]@));
            assert(events_view(out@) =~= seq![out@[0]@, out@[1]@]);
        },
    }
    Ok(out)
}

fn row_cover(t: &Txn, scope: &Scope, set: &RuleSet) -> (r: Result<Vec<Event>, Exception>)
    requires
        magnitudes_fit(*t, *scope),
    ensures
        match r {
            Ok(evs) => row_outcome(*t, *scope, *set) == Ok::<Seq<crate::rules::EventView>, ExceptionView>(events_view(evs@)),
            Err(x) => row_outcome(*t, *scope, *set) == Err::<Seq<crate::rules::EventView>, ExceptionView>(x@),
        },
{
    if t.currency != scope.base_currency {
        return Err(foreign(t, scope));
    }
    let k = match find_type(&scope.types, &t.kind) {
        Some(k) => k,
        None => return Err(unknown(t, scope)),
    };
    let handling = &scope.types[k].1;
    let missing = missing_of(handling, set);
    if missing.len() > 0 {
        return Err(no_rule(t, &missing));
    }
    events_for(t, handling)
}

/// Check every row against the scope and the active configuration: the
/// events to replay, or every reason the file cannot be, never both.
pub fn cover(txns: &[Txn], scope: &Scope, set: &RuleSet) -> (r: Result<Vec<Event>, Vec<Exception>>)
    requires
        forall|i: int| 0 <= i < txns@.len() ==> magnitudes_fit(#[trigger] txns@[i], *scope),
    ensures
        match r {
            Ok(evs) => cover_result(txns@, *scope, *set) == Ok::<Seq<crate::rules::EventView>, Seq<ExceptionView>>(events_view(evs@)),
            Err(xs) => cover_result(txns@, *scope, *set) == Err::<Seq<crate::rules::EventView>, Seq<ExceptionView>>(exceptions_view(xs@)),
        },
{
    let mut events: Vec<Event> = Vec::new();
    let mut exceptions: Vec<Exception> = Vec::new();
    let mut i: usize = 0;
    while i < txns.len()
        invariant
            0 <= i <= txns@.len(),
            forall|k: int| 0 <= k < txns@.len() ==> magnitudes_fit(#[trigger] txns@[k], *scope),
            cover_fold(txns@.take(i as int), *scope, *set) == (events_view(events@), exceptions_view(exceptions@)),
        decreases txns@.len() - i,
    {
        proof {
            assert(txns@.take(i + 1).drop_last() =~= txns@.take(i as int));
            assert(txns@.take(i + 1).last() == txns@[i as int]);
        }
        match row_cover(&txns[i], scope, set) {
            Ok(evs) => {
                let ghost before = events@;
                let mut evs = evs;
                let ghost added = evs@;
                events.append(&mut evs);
                proof {
                    lemma_events_view_concat(before, added);
                }
            },
            Err(x) => {
                let ghost before = exceptions@;
                exceptions.push(x);
                assert(exceptions@.drop_last() =~= before);
            },
        }
        i = i + 1;
    }
    assert(txns@.take(txns@.len() as int) =~= txns@);
    if exceptions.len() == 0 {
        Ok(events)
    } else {
        Err(exceptions)
    }
}

// ----------------------------------------------------------------- rendering

/// A run of spaces.
pub open spec fn spaces(n: int) -> Seq<char> {
    Seq::new(if n > 0 { n as nat } else { 0 }, |i: int| ' ')
}

/// Text left-aligned in a column of a width, in characters.
pub open spec fn pad_right(s: Seq<char>, width: int) -> Seq<char> {
    s + spaces(width - s.len())
}

/// Text right-aligned in a column of a width, in characters.
pub open spec fn pad_left(s: Seq<char>, width: int) -> Seq<char> {
    spaces(width - s.len()) + s
}

fn push_spaces(out: &mut String, n: usize)
    ensures
        final(out)@ == old(out)@ + spaces(n as int),
{
    let mut k: usize = 0;
    while k < n
        invariant
            0 <= k <= n,
            out@ == old(out)@ + spaces(k as int),
        decreases n - k,
    {
        push_char(out, ' ');
        k = k + 1;
        assert(out@ =~= old(out)@ + spaces(k as int));
    }
}

fn push_pad_right(out: &mut String, s: &str, width: usize)
    ensures
        final(out)@ == old(out)@ + pad_right(s@, width as int),
{
    let n = s.unicode_len();
    out.append(s);
    let ghost mid = out@;
    if n < width {
        push_spaces(out, width - n);
    } else {
        assert(spaces(width - n) =~= Seq::<char>::empty());
        assert(out@ =~= mid + spaces(width - n));
    }
    assert(out@ =~= old(out)@ + pad_right(s@, width as int));
}

fn push_pad_left(out: &mut String, s: &str, width: usize)
    ensures
        final(out)@ == old(out)@ + pad_left(s@, width as int),
{
    let n = s.unicode_len();
    if n < width {
        push_spaces(out, width - n);
    } else {
        assert(spaces(width - n) =~= Seq::<char>::empty());
        assert(out@ =~= old(out)@ + spaces(width - n));
    }
    out.append(s);
    assert(out@ =~= old(out)@ + pad_left(s@, width as int));
}

/// How a cause reads on a report.
pub open spec fn cause_text(c: Cause) -> Seq<char> {
    match c {
        Cause::AmountDiffers => "figures differ"@,
        Cause::AbsentFromReport => "not in the report"@,
        Cause::AbsentFromRatio => "Ratio produced nothing"@,
    }
}

fn cause_str(c: Cause) -> (r: &'static str)
    ensures
        r@ == cause_text(c),
{
    match c {
        Cause::AmountDiffers => "figures differ",
        Cause::AbsentFromReport => "not in the report",
        Cause::AbsentFromRatio => "Ratio produced nothing",
    }
}

/// The lines of one exception.
pub open spec fn exception_lines(e: Exception) -> Seq<char> {
    "  "@ + e.transaction_id@ + "\n    "@ + e.detail@ + "\n\n"@
}

/// The lines of a run of exceptions.
pub open spec fn exceptions_lines(xs: Seq<Exception>) -> Seq<char>
    decreases xs.len(),
{
    if xs.len() == 0 { Seq::empty() } else { exceptions_lines(xs.drop_last()) + exception_lines(xs.last()) }
}

/// The exclusion lines of a scope, each behind a prefix.
pub open spec fn exclusion_lines(xs: Seq<String>, prefix: Seq<char>) -> Seq<char>
    decreases xs.len(),
{
    if xs.len() == 0 { Seq::empty() } else { exclusion_lines(xs.drop_last(), prefix) + prefix + xs.last()@ + "\n"@ }
}

/// The two lines of one break.
pub open spec fn break_lines(b: Break) -> Seq<char> {
    pad_right(b.display_name@, 32) + pad_left(minor_text(b.ratio_amount as int), 14)
        + pad_left(minor_text(b.reported_amount as int), 14) + pad_left(minor_text(b.difference as int), 14)
        + "  "@ + cause_text(b.cause) + "\n"@
        + pad_right(Seq::empty(), 32) + "  from "@ + b.ratio_basis@ + "\n"@
}

/// The lines of a run of breaks.
pub open spec fn breaks_lines(bs: Seq<Break>) -> Seq<char>
    decreases bs.len(),
{
    if bs.len() == 0 { Seq::empty() } else { breaks_lines(bs.drop_last()) + break_lines(bs.last()) }
}

/// The paragraph explaining a refusal.
pub open spec fn refusal_paragraph(n: int) -> Seq<char> {
    "This file contains "@ + decimal(n)
        + " row(s) outside what this run covers, so no\ncomparison was made. A partial replay compared against a whole\nperiod's positions reports a break for everything it skipped, and\nthose breaks would be Ratio's fault rather than yours.\n\n"@
}

/// The closing paragraph of a reconciled report.
pub open spec fn closing_paragraph() -> Seq<char> {
    "\nEvery Ratio figure above was produced by that configuration, and\nre-running it reproduces them exactly. Add `--post` to write the\nentries into the book, then `ratio explain <account>` reads back the\npostings behind any one figure.\n"@
}

/// A refused run as a person reads it.
pub open spec fn refusal_text(r: BreakReport) -> Seq<char> {
    "NOT RECONCILED\n\n"@ + refusal_paragraph(r.exceptions@.len() as int) + exceptions_lines(r.exceptions@)
        + "scope  "@ + r.scope.label@ + "\n"@ + exclusion_lines(r.scope.exclusions@, "  excludes  "@)
}

/// The table of a reconciled run's breaks, if it has any.
pub open spec fn table_text(r: BreakReport) -> Seq<char> {
    if r.breaks@.len() > 0 {
        pad_right("ACCOUNT"@, 32) + pad_left("RATIO"@, 14) + pad_left("REPORTED"@, 14)
            + pad_left("DIFFERENCE"@, 14) + "  CAUSE\n"@ + breaks_lines(r.breaks@) + "\n"@
    } else {
        Seq::empty()
    }
}

/// The counts, the tie, the configuration and the scope of a reconciled run.
pub open spec fn footer_text(r: BreakReport) -> Seq<char> {
    decimal(r.transactions_replayed as int) + " transaction(s) replayed into "@
        + decimal(r.entries_posted as int) + " entrie(s)\n"@
        + "book ties  "@ + (if r.book_ties { "yes"@ } else { "NO"@ }) + "\n"@
        + "config     "@ + r.config_digest@ + "\n"@
        + "scope      "@ + r.scope.label@ + "\n"@
        + exclusion_lines(r.scope.exclusions@, "  excludes "@)
        + closing_paragraph()
}

/// A report as a person reads it: a refusal that names every row it could
/// not cover, or the breaks with their causes, the configuration that
/// produced Ratio's figures, and the scope with what it excludes.
pub open spec fn report_text(r: BreakReport) -> Seq<char> {
    if r.exceptions@.len() > 0 {
        refusal_text(r)
    } else {
        (if r.breaks@.len() == 0 { "RECONCILED — no differences\n\n"@ } else { "BREAKS\n\n"@ })
            + table_text(r) + footer_text(r)
    }
}

fn push_exclusions(out: &mut String, xs: &Vec<String>, prefix: &str)
    ensures
        final(out)@ == old(out)@ + exclusion_lines(xs@, prefix@),
{
    let mut i: usize = 0;
    while i < xs.len()
        invariant
            0 <= i <= xs@.len(),
            out@ == old(out)@ + exclusion_lines(xs@.take(i as int), prefix@),
        decreases xs@.len() - i,
    {
        proof {
            assert(xs@.take(i + 1).drop_last() =~= xs@.take(i as int));
        }
        out.append(prefix);
        out.append(xs[i].as_str());
        out.append("\n");
        i = i + 1;
        assert(out@ =~= old(out)@ + exclusion_lines(xs@.take(i as int), prefix@));
    }
    assert(xs@.take(xs@.len() as int) =~= xs@);
}

fn push_break(out: &mut String, b: &Break)
    ensures
        final(out)@ == old(out)@ + break_lines(*b),
{
    let ghost s0 = out@;
    push_pad_right(out, b.display_name.as_str(), 32);
    let m1 = minor(b.ratio_amount);
    push_pad_left(out, m1.as_str(), 14);
    let m2 = minor(b.reported_amount);
    push_pad_left(out, m2.as_str(), 14);
    let m3 = minor(b.difference);
    push_pad_left(out, m3.as_str(), 14);
    out.append("  ");
    out.append(cause_str(b.cause));
    out.append("\n");
    push_pad_right(out, "", 32);
    out.append("  from ");
    out.append(b.ratio_basis.as_str());
    out.append("\n");
    proof {
        reveal_strlit("");
    }
    assert(out@ =~= s0 + break_lines(*b));
}

fn render_refusal(r: &BreakReport) -> (out: String)
    ensures
        out@ == refusal_text(*r),
{
    let mut out = String::new();
    out.append("NOT RECONCILED\n\n");
    out.append("This file contains ");
    push_decimal(&mut out, r.exceptions.len() as i128);
    out.append(" row(s) outside what this run covers, so no\ncomparison was made. A partial replay compared against a whole\nperiod's positions reports a break for everything it skipped, and\nthose breaks would be Ratio's fault rather than yours.\n\n");
    let ghost head = out@;
    assert(head =~= "NOT RECONCILED\n\n"@ + refusal_paragraph(r.exceptions@.len() as int));
    let mut i: usize = 0;
    while i < r.exceptions.len()
        invariant
            0 <= i <= r.exceptions@.len(),
            out@ == head + exceptions_lines(r.exceptions@.take(i as int)),
        decreases r.exceptions@.len() - i,
    {
        proof {
            assert(r.exceptions@.take(i + 1).drop_last() =~= r.exceptions@.take(i as int));
        }
        out.append("  ");
        out.append(r.exceptions[i].transaction_id.as_str());
        out.append("\n    ");
        out.append(r.exceptions[i].detail.as_str());
        out.append("\n\n");
        i = i + 1;
        assert(out@ =~= head + exceptions_lines(r.exceptions@.take(i as int)));
    }
    assert(r.exceptions@.take(r.exceptions@.len() as int) =~= r.exceptions@);
    let ghost body = out@;
    out.append("scope  ");
    out.append(r.scope.label.as_str());
    out.append("\n");
    push_exclusions(&mut out, &r.scope.exclusions, "  excludes  ");
    assert(out@ =~= refusal_text(*r));
    out
}

fn push_table(out: &mut String, r: &BreakReport)
    ensures
        final(out)@ == old(out)@ + table_text(*r),
{
    if r.breaks.len() == 0 {
        assert(out@ =~= old(out)@ + table_text(*r));
        return;
    }
    push_pad_right(out, "ACCOUNT", 32);
    push_pad_left(out, "RATIO", 14);
    push_pad_left(out, "REPORTED", 14);
    push_pad_left(out, "DIFFERENCE", 14);
    out.append("  CAUSE\n");
    let ghost head = out@;
    let mut i: usize = 0;
    while i < r.breaks.len()
        invariant
            0 <= i <= r.breaks@.len(),
            out@ == head + breaks_lines(r.breaks@.take(i as int)),
        decreases r.breaks@.len() - i,
    {
        proof {
            assert(r.breaks@.take(i + 1).drop_last() =~= r.breaks@.take(i as int));
        }
        push_break(out, &r.breaks[i]);
        i = i + 1;
    }
    assert(r.breaks@.take(r.breaks@.len() as int) =~= r.breaks@);
    out.append("\n");
    assert(out@ =~= old(out)@ + table_text(*r));
}

fn push_footer(out: &mut String, r: &BreakReport)
    ensures
        final(out)@ == old(out)@ + footer_text(*r),
{
    push_decimal(out, r.transactions_replayed as i128);
    out.append(" transaction(s) replayed into ");
    push_decimal(out, r.entries_posted as i128);
    out.append(" entrie(s)\n");
    out.append("book ties  ");
    out.append(if r.book_ties { "yes" } else { "NO" });
    out.append("\n");
    out.append("config     ");
    out.append(r.config_digest.as_str());
    out.append("\n");
    out.append("scope      ");
    out.append(r.scope.label.as_str());
    out.append("\n");
    let ghost mid = out@;
    push_exclusions(out, &r.scope.exclusions, "  excludes ");
    out.append("\nEvery Ratio figure above was produced by that configuration, and\nre-running it reproduces them exactly. Add `--post` to write the\nentries into the book, then `ratio explain <account>` reads back the\npostings behind any one figure.\n");
    assert(out@ =~= old(out)@ + footer_text(*r));
}

/// Render a report for a person to read.
pub fn render(r: &BreakReport) -> (out: String)
    ensures
        out@ == report_text(*r),
{
    if !r.was_reconciled() {
        return render_refusal(r);
    }
    let mut out = String::new();
    if r.is_clean() {
        out.append("RECONCILED — no differences\n\n");
    } else {
        out.append("BREAKS\n\n");
    }
    push_table(&mut out, r);
    push_footer(&mut out, r);
    assert(out@ =~= report_text(*r));
    out
}

} // verus!
