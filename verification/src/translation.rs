//! Translating figures held in several currencies into one.
//!
//! A translation is not a conservation: each currency nets on its own without
//! any rate, and what the whole is worth in one denomination is a separate
//! question that cannot be answered without saying at what rate. Each figure
//! is translated at its currency's rate, in hundredths of the base, rounded
//! toward zero once per figure; a currency with no rate refuses the whole
//! translation rather than being skipped or taken at par.

use vstd::prelude::*;
use crate::chart::{PostingRecord, PostingView, text_of};
use crate::project::{DimTotal, Rates, RATE_SCALE, factor_spec};

verus! {

/// One figure to translate: its currency, and the amount in that currency.
pub type Term = (Option<Seq<char>>, int);

/// Division rounding toward zero, as machine division does.
pub open spec fn trunc_div(a: int, b: int) -> int {
    if a >= 0 { a / b } else { -((-a) / b) }
}

/// Whether a figure fits in 128 bits.
pub open spec fn fits128(x: int) -> bool {
    i128::MIN <= x <= i128::MAX
}

/// Figures translated and added up in order: each at its currency's factor
/// over the rate scale, rounded toward zero; or the currency of the first
/// figure with no rate.
pub open spec fn translation(ts: Seq<Term>, base: Option<Seq<char>>, table: Seq<(Seq<char>, i64)>) -> Result<int, Option<Seq<char>>>
    decreases ts.len(),
{
    if ts.len() == 0 {
        Ok(0)
    } else {
        match translation(ts.drop_last(), base, table) {
            Err(c) => Err(c),
            Ok(t) => match factor_spec(base, table, ts.last().0) {
                None => Err(ts.last().0),
                Some(f) => Ok(t + trunc_div(ts.last().1 * f, RATE_SCALE as int)),
            },
        }
    }
}

/// Whether translating figures in order stays within 128 bits: every figure
/// and its product with its factor, and every running total.
pub open spec fn translation_fits(ts: Seq<Term>, base: Option<Seq<char>>, table: Seq<(Seq<char>, i64)>) -> bool {
    forall|k: int| 0 <= k < ts.len() ==> {
        &&& fits128(#[trigger] ts[k].1)
        &&& (factor_spec(base, table, ts[k].0) matches Some(f) ==> fits128(ts[k].1 * f))
        &&& (translation(ts.take(k + 1), base, table) matches Ok(v) ==> fits128(v))
    }
}

/// A currency as words, or what an untyped figure is called.
pub open spec fn currency_words(c: Option<Seq<char>>, untyped: Seq<char>) -> Seq<char> {
    match c {
        Some(s) => s,
        None => untyped,
    }
}

/// The figures of the rows of totals on the dimensions asked for: each row's
/// net in its currency.
pub open spec fn row_terms(rows: Seq<((i64, Option<String>), DimTotal)>, dims: Seq<i64>) -> Seq<Term>
    decreases rows.len(),
{
    if rows.len() == 0 {
        Seq::empty()
    } else {
        let r = rows.last();
        let t = row_terms(rows.drop_last(), dims);
        if dims.contains(r.0.0) { t.push((text_of(r.0.1), r.1.debit - r.1.credit)) } else { t }
    }
}

/// The figures of postings on the dimensions asked for.
pub open spec fn posting_terms(ps: Seq<PostingView>, dims: Seq<i64>) -> Seq<Term>
    decreases ps.len(),
{
    if ps.len() == 0 {
        Seq::empty()
    } else {
        let p = ps.last();
        let t = posting_terms(ps.drop_last(), dims);
        if dims.contains(p.dim) { t.push((p.currency, p.amount as int)) } else { t }
    }
}

/// The figures of amounts kept per currency.
pub open spec fn currency_terms(rows: Seq<(Option<String>, i128)>) -> Seq<Term>
    decreases rows.len(),
{
    if rows.len() == 0 {
        Seq::empty()
    } else {
        currency_terms(rows.drop_last()).push((text_of(rows.last().0), rows.last().1 as int))
    }
}

fn as_str_opt(o: &Option<String>) -> (r: Option<&str>)
    ensures
        match r { Some(c) => Some(c@), None => None::<Seq<char>> } == text_of(*o),
{
    match o {
        Some(s) => Some(s.as_str()),
        None => None,
    }
}

/// Whether a dimension is among those asked for.
fn asked(dims: &[i64], d: i64) -> (r: bool)
    ensures
        r == dims@.contains(d),
{
    let mut i: usize = 0;
    while i < dims.len()
        invariant
            0 <= i <= dims@.len(),
            forall|j: int| 0 <= j < i ==> dims@[j] != d,
        decreases dims@.len() - i,
    {
        if dims[i] == d {
            return true;
        }
        i = i + 1;
    }
    false
}

/// Translate one more figure onto a running total; `None` where its currency
/// has no rate.
fn translate_one(total: i128, amount: i128, currency: &Option<String>, rates: &Rates, Ghost(ts): Ghost<Seq<Term>>) -> (r: Option<i128>)
    requires
        translation(ts, rates.base_view(), rates.table()) == Ok::<int, Option<Seq<char>>>(total as int),
        translation_fits(ts.push((text_of(*currency), amount as int)), rates.base_view(), rates.table()),
    ensures
        match translation(ts.push((text_of(*currency), amount as int)), rates.base_view(), rates.table()) {
            Ok(v) => r == Some(v as i128),
            Err(_) => r is None,
        },
{
    let ghost n = ts.push((text_of(*currency), amount as int));
    assert(n.drop_last() =~= ts);
    assert(n.take(n.len() as int) =~= n);
    let f = match rates.factor_of_optional(as_str_opt(currency)) {
        Some(f) => f,
        None => return None,
    };
    assert(fits128(n[n.len() - 1].1 * f));
    let prod: i128 = amount * (f as i128);
    let part: i128 = match prod.checked_div(100) {
        Some(v) => v,
        None => {
            proof {
                assert(false) by (nonlinear_arith)
                    requires
                        fits128(prod as int),
                        !(i128::MIN <= trunc_div(prod as int, 100) <= i128::MAX),
                ;
            }
            return None;
        },
    };
    assert(part == trunc_div(prod as int, 100));
    Some(total + part)
}

/// Translate the rows of totals on the dimensions asked for into the base.
pub fn translate_rows(rows: &Vec<((i64, Option<String>), DimTotal)>, dims: &[i64], rates: &Rates, what: &str, untyped: &str,
    tail: &str) -> (r: Result<i128, String>)
    requires
        forall|i: int| 0 <= i < rows@.len() ==> fits128((#[trigger] rows@[i]).1.debit - rows@[i].1.credit),
        translation_fits(row_terms(rows@, dims@), rates.base_view(), rates.table()),
    ensures
        match translation(row_terms(rows@, dims@), rates.base_view(), rates.table()) {
            Ok(v) => r == Ok::<i128, String>(v as i128) && fits128(v),
            Err(c) => r matches Err(e) && e@ == no_rate_words(what@, c, untyped@, tail@),
        },
{
    let mut total: i128 = 0;
    let mut i: usize = 0;
    let ghost all = row_terms(rows@, dims@);
    proof { assert(rows@.take(0) =~= Seq::<((i64, Option<String>), DimTotal)>::empty()); }
    while i < rows.len()
        invariant
            0 <= i <= rows@.len(),
            all == row_terms(rows@, dims@),
            forall|j: int| 0 <= j < rows@.len() ==> fits128((#[trigger] rows@[j]).1.debit - rows@[j].1.credit),
            translation_fits(all, rates.base_view(), rates.table()),
            all.take(row_terms(rows@.take(i as int), dims@).len() as int) == row_terms(rows@.take(i as int), dims@),
            row_terms(rows@.take(i as int), dims@).len() <= all.len(),
            translation(row_terms(rows@.take(i as int), dims@), rates.base_view(), rates.table()) == Ok::<int, Option<Seq<char>>>(total as int),
        decreases rows@.len() - i,
    {
        let ghost before = rows@.take(i as int);
        let ghost after = rows@.take(i + 1);
        proof {
            assert(after.drop_last() =~= before);
            assert(after.last() == rows@[i as int]);
            lemma_row_terms_prefix(rows@, dims@, i + 1);
        }
        let (key, row) = (&rows[i].0, rows[i].1);
        if asked(dims, key.0) {
            let ghost ts = row_terms(before, dims@);
            proof {
                let n = row_terms(after, dims@);
                assert(n == ts.push((text_of(key.1), row.debit - row.credit)));
                lemma_fits_prefix(all, n.len() as int, rates.base_view(), rates.table());
            }
            let net: i128 = row.debit - row.credit;
            match translate_one(total, net, &key.1, rates, Ghost(row_terms(before, dims@))) {
                Some(t) => {
                    total = t;
                },
                None => {
                    proof {
                        let n = row_terms(after, dims@);
                        assert(n.drop_last() =~= ts);
                        assert(n.last().0 == text_of(key.1));
                        assert(translation(n, rates.base_view(), rates.table()) == Err::<int, Option<Seq<char>>>(text_of(key.1)));
                        lemma_refused_from(rows@, dims@, i + 1, rates.base_view(), rates.table());
                    }
                    return Err(no_rate(what, &key.1, untyped, tail));
                },
            }
        } else {
            proof {
                assert(row_terms(after, dims@) == row_terms(before, dims@));
            }
        }
        i = i + 1;
    }
    proof {
        assert(rows@.take(rows@.len() as int) =~= rows@);
        lemma_translation_ends_fit(all, rates.base_view(), rates.table());
    }
    Ok(total)
}

/// The words refusing a currency with no rate.
pub open spec fn no_rate_words(what: Seq<char>, c: Option<Seq<char>>, untyped: Seq<char>, tail: Seq<char>) -> Seq<char> {
    what + currency_words(c, untyped) + tail
}

fn no_rate(what: &str, currency: &Option<String>, untyped: &str, tail: &str) -> (r: String)
    ensures
        r@ == no_rate_words(what@, text_of(*currency), untyped@, tail@),
{
    let mut s = String::from_str(what);
    match currency {
        Some(c) => s.append(c.as_str()),
        None => s.append(untyped),
    }
    s.append(tail);
    s
}

proof fn lemma_row_terms_prefix(rows: Seq<((i64, Option<String>), DimTotal)>, dims: Seq<i64>, k: int)
    requires
        0 <= k <= rows.len(),
    ensures
        row_terms(rows, dims).take(row_terms(rows.take(k), dims).len() as int) == row_terms(rows.take(k), dims),
        row_terms(rows.take(k), dims).len() <= row_terms(rows, dims).len(),
    decreases rows.len() - k,
{
    if k == rows.len() {
        assert(rows.take(k) =~= rows);
        assert(row_terms(rows, dims).take(row_terms(rows, dims).len() as int) =~= row_terms(rows, dims));
    } else {
        lemma_row_terms_prefix(rows, dims, k + 1);
        let a = rows.take(k);
        let b = rows.take(k + 1);
        assert(b.drop_last() =~= a);
        let ta = row_terms(a, dims);
        let tb = row_terms(b, dims);
        assert(tb.take(ta.len() as int) =~= ta);
        assert(row_terms(rows, dims).take(ta.len() as int) =~= row_terms(rows, dims).take(tb.len() as int).take(ta.len() as int));
    }
}

proof fn lemma_fits_prefix(ts: Seq<Term>, k: int, base: Option<Seq<char>>, table: Seq<(Seq<char>, i64)>)
    requires
        0 <= k <= ts.len(),
        translation_fits(ts, base, table),
    ensures
        translation_fits(ts.take(k), base, table),
{
    let p = ts.take(k);
    assert forall|j: int| 0 <= j < p.len() implies {
        &&& fits128(#[trigger] p[j].1)
        &&& (factor_spec(base, table, p[j].0) matches Some(f) ==> fits128(p[j].1 * f))
        &&& (translation(p.take(j + 1), base, table) matches Ok(v) ==> fits128(v))
    } by {
        assert(p.take(j + 1) =~= ts.take(j + 1));
        assert(p[j] == ts[j]);
    }
}

proof fn lemma_translation_stops(ts: Seq<Term>, more: Seq<Term>, base: Option<Seq<char>>, table: Seq<(Seq<char>, i64)>)
    requires
        translation(ts, base, table) is Err,
    ensures
        translation(ts + more, base, table) == translation(ts, base, table),
    decreases more.len(),
{
    if more.len() == 0 {
        assert(ts + more =~= ts);
    } else {
        lemma_translation_stops(ts, more.drop_last(), base, table);
        assert((ts + more).drop_last() =~= ts + more.drop_last());
    }
}

proof fn lemma_refused_from(rows: Seq<((i64, Option<String>), DimTotal)>, dims: Seq<i64>, k: int,
    base: Option<Seq<char>>, table: Seq<(Seq<char>, i64)>)
    requires
        0 <= k <= rows.len(),
        translation(row_terms(rows.take(k), dims), base, table) is Err,
    ensures
        translation(row_terms(rows, dims), base, table) == translation(row_terms(rows.take(k), dims), base, table),
{
    lemma_row_terms_prefix(rows, dims, k);
    let all = row_terms(rows, dims);
    let pre = row_terms(rows.take(k), dims);
    assert(all =~= pre + all.skip(pre.len() as int));
    lemma_translation_stops(pre, all.skip(pre.len() as int), base, table);
}

proof fn lemma_posting_terms_prefix(ps: Seq<PostingView>, dims: Seq<i64>, k: int)
    requires
        0 <= k <= ps.len(),
    ensures
        posting_terms(ps, dims).take(posting_terms(ps.take(k), dims).len() as int) == posting_terms(ps.take(k), dims),
        posting_terms(ps.take(k), dims).len() <= posting_terms(ps, dims).len(),
    decreases ps.len() - k,
{
    if k == ps.len() {
        assert(ps.take(k) =~= ps);
        assert(posting_terms(ps, dims).take(posting_terms(ps, dims).len() as int) =~= posting_terms(ps, dims));
    } else {
        lemma_posting_terms_prefix(ps, dims, k + 1);
        let a = ps.take(k);
        let b = ps.take(k + 1);
        assert(b.drop_last() =~= a);
        let ta = posting_terms(a, dims);
        let tb = posting_terms(b, dims);
        assert(tb.take(ta.len() as int) =~= ta);
        assert(posting_terms(ps, dims).take(ta.len() as int) =~= posting_terms(ps, dims).take(tb.len() as int).take(ta.len() as int));
    }
}

/// Translate postings on the dimensions asked for into the base.
pub fn translate_postings(ps: &Vec<PostingRecord>, dims: &[i64], rates: &Rates, what: &str, untyped: &str,
    tail: &str) -> (r: Result<i128, String>)
    requires
        translation_fits(posting_terms(crate::chart::postings_view(ps@), dims@), rates.base_view(), rates.table()),
    ensures
        match translation(posting_terms(crate::chart::postings_view(ps@), dims@), rates.base_view(), rates.table()) {
            Ok(v) => r == Ok::<i128, String>(v as i128) && fits128(v),
            Err(c) => r matches Err(e) && e@ == no_rate_words(what@, c, untyped@, tail@),
        },
{
    let ghost pv = crate::chart::postings_view(ps@);
    let ghost all = posting_terms(pv, dims@);
    let mut total: i128 = 0;
    let mut i: usize = 0;
    proof { assert(pv.take(0) =~= Seq::<PostingView>::empty()); }
    while i < ps.len()
        invariant
            0 <= i <= ps@.len(),
            pv == crate::chart::postings_view(ps@),
            pv.len() == ps@.len(),
            all == posting_terms(pv, dims@),
            translation_fits(all, rates.base_view(), rates.table()),
            translation(posting_terms(pv.take(i as int), dims@), rates.base_view(), rates.table()) == Ok::<int, Option<Seq<char>>>(total as int),
        decreases ps@.len() - i,
    {
        let ghost before = pv.take(i as int);
        let ghost after = pv.take(i + 1);
        proof {
            assert(after.drop_last() =~= before);
            assert(after.last() == pv[i as int]);
            assert(pv[i as int] == ps@[i as int]@);
            lemma_posting_terms_prefix(pv, dims@, i + 1);
        }
        let p = &ps[i];
        if asked(dims, p.dim) {
            let ghost ts = posting_terms(before, dims@);
            proof {
                let n = posting_terms(after, dims@);
                assert(n == ts.push((text_of(p.currency), p.amount as int)));
                lemma_fits_prefix(all, n.len() as int, rates.base_view(), rates.table());
            }
            match translate_one(total, p.amount as i128, &p.currency, rates, Ghost(ts)) {
                Some(t) => {
                    total = t;
                },
                None => {
                    proof {
                        let n = posting_terms(after, dims@);
                        assert(n.drop_last() =~= ts);
                        assert(translation(n, rates.base_view(), rates.table()) == Err::<int, Option<Seq<char>>>(text_of(p.currency)));
                        let rest = all.skip(n.len() as int);
                        assert(all =~= n + rest);
                        lemma_translation_stops(n, rest, rates.base_view(), rates.table());
                    }
                    return Err(no_rate(what, &p.currency, untyped, tail));
                },
            }
        }
        i = i + 1;
    }
    proof {
        assert(pv.take(ps@.len() as int) =~= pv);
        lemma_translation_ends_fit(all, rates.base_view(), rates.table());
    }
    Ok(total)
}

proof fn lemma_currency_terms_prefix(rows: Seq<(Option<String>, i128)>, k: int)
    requires
        0 <= k <= rows.len(),
    ensures
        currency_terms(rows).take(k) == currency_terms(rows.take(k)),
        currency_terms(rows).len() == rows.len(),
    decreases rows.len() - k,
{
    lemma_currency_terms_len(rows);
    if k == rows.len() {
        assert(rows.take(k) =~= rows);
        assert(currency_terms(rows).take(k) =~= currency_terms(rows));
    } else {
        lemma_currency_terms_prefix(rows, k + 1);
        let b = rows.take(k + 1);
        assert(b.drop_last() =~= rows.take(k));
        lemma_currency_terms_len(rows.take(k));
        assert(currency_terms(b).take(k) =~= currency_terms(rows.take(k)));
        assert(currency_terms(rows).take(k) =~= currency_terms(rows).take(k + 1).take(k));
    }
}

proof fn lemma_currency_terms_len(rows: Seq<(Option<String>, i128)>)
    ensures
        currency_terms(rows).len() == rows.len(),
    decreases rows.len(),
{
    if rows.len() > 0 {
        lemma_currency_terms_len(rows.drop_last());
    }
}

/// Translate amounts kept per currency into the base.
pub fn translate_currencies(rows: &Vec<(Option<String>, i128)>, rates: &Rates, what: &str, untyped: &str,
    tail: &str) -> (r: Result<i128, String>)
    requires
        translation_fits(currency_terms(rows@), rates.base_view(), rates.table()),
    ensures
        match translation(currency_terms(rows@), rates.base_view(), rates.table()) {
            Ok(v) => r == Ok::<i128, String>(v as i128) && fits128(v),
            Err(c) => r matches Err(e) && e@ == no_rate_words(what@, c, untyped@, tail@),
        },
{
    let ghost all = currency_terms(rows@);
    let mut total: i128 = 0;
    let mut i: usize = 0;
    proof {
        assert(rows@.take(0) =~= Seq::<(Option<String>, i128)>::empty());
        lemma_currency_terms_len(rows@);
    }
    while i < rows.len()
        invariant
            0 <= i <= rows@.len(),
            all == currency_terms(rows@),
            all.len() == rows@.len(),
            translation_fits(all, rates.base_view(), rates.table()),
            translation(currency_terms(rows@.take(i as int)), rates.base_view(), rates.table()) == Ok::<int, Option<Seq<char>>>(total as int),
        decreases rows@.len() - i,
    {
        let ghost before = rows@.take(i as int);
        let ghost after = rows@.take(i + 1);
        proof {
            assert(after.drop_last() =~= before);
            lemma_currency_terms_prefix(rows@, i + 1);
            lemma_fits_prefix(all, i + 1, rates.base_view(), rates.table());
        }
        let ghost ts = currency_terms(before);
        match translate_one(total, rows[i].1, &rows[i].0, rates, Ghost(ts)) {
            Some(t) => {
                total = t;
            },
            None => {
                proof {
                    let n = currency_terms(after);
                    assert(n.drop_last() =~= ts);
                    assert(translation(n, rates.base_view(), rates.table()) == Err::<int, Option<Seq<char>>>(text_of(rows@[i as int].0)));
                    let rest = all.skip(i + 1);
                    assert(all =~= n + rest);
                    lemma_translation_stops(n, rest, rates.base_view(), rates.table());
                }
                return Err(no_rate(what, &rows[i].0, untyped, tail));
            },
        }
        i = i + 1;
    }
    proof {
        assert(rows@.take(rows@.len() as int) =~= rows@);
        lemma_translation_ends_fit(all, rates.base_view(), rates.table());
    }
    Ok(total)
}

/// A translation that stays within 128 bits at every step ends within them.
pub proof fn lemma_translation_ends_fit(ts: Seq<Term>, base: Option<Seq<char>>, table: Seq<(Seq<char>, i64)>)
    requires
        translation_fits(ts, base, table),
    ensures
        translation(ts, base, table) matches Ok(v) ==> fits128(v),
{
    if ts.len() > 0 {
        assert(ts.take(ts.len() as int) =~= ts);
        assert(fits128(ts[ts.len() - 1].1));
    }
}

} // verus!
