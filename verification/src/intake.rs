//! Reading a period's files: amounts in major units, a transactions file, and
//! a reported-positions file.
//!
//! An amount never touches a float: `"0.1"` has no exact binary
//! representation, and a cent lost in parsing is a break that no downstream
//! exactness recovers. Columns are found by header name, not position, and an
//! optional column that is present but blank is absent, not zero.

use vstd::prelude::*;
use crate::checked::fits;
use crate::config::{Reason, Rejected, Rejection};
use crate::dates::{is_digit, digit_value, digits_value, all_digits};
use crate::text::{blank, chars_of, decimal, is_blank, push_decimal, string_of, trim, trimmed};
use crate::recon::{Txn, csv_fields, split_csv_line, texts_view};
use crate::render::ascii_lower;
use crate::chart::Account;
use crate::shadow::keyed;

verus! {

/// A text with its thousands separators taken out.
pub open spec fn strip_commas(s: Seq<char>) -> Seq<char>
    decreases s.len(),
{
    if s.len() == 0 {
        s
    } else if s.last() == ',' {
        strip_commas(s.drop_last())
    } else {
        strip_commas(s.drop_last()).push(s.last())
    }
}

/// Where a character first occurs.
pub open spec fn first_index(s: Seq<char>, c: char) -> Option<int>
    decreases s.len(),
{
    if s.len() == 0 {
        None
    } else if s[0] == c {
        Some(0)
    } else {
        match first_index(s.drop_first(), c) {
            Some(k) => Some(k + 1),
            None => None,
        }
    }
}

/// An amount's text with its sign and currency symbol taken off: whether it
/// is negative, and what is left.
pub open spec fn amount_body(t: Seq<char>) -> (bool, Seq<char>) {
    let negative = t.len() > 0 && t[0] == '-';
    let u = if negative { t.drop_first() } else { t };
    let v = if u.len() > 0 && u[0] == '$' { u.drop_first() } else { u };
    (negative, v)
}

/// The whole units of an amount's body, and its fraction.
pub open spec fn amount_parts(v: Seq<char>) -> (Seq<char>, Seq<char>) {
    match first_index(v, '.') {
        Some(k) => (v.take(k), v.skip(k + 1)),
        None => (v, Seq::empty()),
    }
}

/// Whether an amount is well written: an optional `-`, an optional `$`, whole
/// units in digits with any thousands separators, and an optional `.` with one
/// or two digits after it; at least one digit in all.
pub open spec fn amount_well_written(s: Seq<char>) -> bool {
    let v = amount_body(trim(s)).1;
    let (whole, fraction) = amount_parts(v);
    &&& forall|i: int| 0 <= i < whole.len() ==> is_digit(#[trigger] whole[i]) || whole[i] == ','
    &&& all_digits(fraction)
    &&& fraction.len() <= 2
    &&& (first_index(v, '.') is Some ==> fraction.len() >= 1)
    &&& strip_commas(whole).len() + fraction.len() >= 1
}

/// The value of a well-written amount in minor units, a hundred to the unit.
pub open spec fn amount_value(s: Seq<char>) -> int {
    let (negative, v) = amount_body(trim(s));
    let (whole, fraction) = amount_parts(v);
    let cents = if fraction.len() == 0 { 0 } else if fraction.len() == 1 { digit_value(fraction[0]) * 10 } else { digits_value(fraction) };
    let m = digits_value(strip_commas(whole)) * 100 + cents;
    if negative { -m } else { m }
}

/// What reading an amount gives: its exact minor units, or why not.
pub open spec fn minor_of(s: Seq<char>) -> Result<int, Rejected> {
    if !amount_well_written(s) {
        Err((Reason::NotAnAmount, "`"@ + s + "` is not an amount — digits, an optional sign and `$`, thousands separators, and at most two decimal places"@))
    } else if !fits(amount_value(s)) {
        Err((Reason::AmountTooLarge, "`"@ + s + "` does not fit in 64 bits of minor units"@))
    } else {
        Ok(amount_value(s))
    }
}

proof fn lemma_first_index(s: Seq<char>, c: char)
    ensures
        match first_index(s, c) {
            Some(k) => 0 <= k < s.len() && s[k] == c && forall|j: int| 0 <= j < k ==> s[j] != c,
            None => forall|j: int| 0 <= j < s.len() ==> s[j] != c,
        },
    decreases s.len(),
{
    if s.len() > 0 && s[0] != c {
        lemma_first_index(s.drop_first(), c);
        assert forall|j: int| 0 < j < s.len() implies s[j] == s.drop_first()[j - 1] by {}
    }
}

/// Where an amount's parts lie in its trimmed text: whether it is negative,
/// where its whole units start and end, and where its fraction starts.
fn amount_shape(t: &Vec<char>) -> (r: (bool, usize, usize, usize))
    ensures
        r.1 <= r.2 <= t@.len(),
        r.3 <= t@.len(),
        amount_body(t@).0 == r.0,
        amount_parts(amount_body(t@).1) == (t@.subrange(r.1 as int, r.2 as int), t@.subrange(r.3 as int, t@.len() as int)),
        (first_index(amount_body(t@).1, '.') is Some) == (r.2 < t@.len()),
        r.2 < t@.len() ==> r.3 == r.2 + 1,
        r.2 == t@.len() ==> r.3 == t@.len(),
{
    let n = t.len();
    let negative = n > 0 && t[0] == '-';
    let mut p: usize = if negative { 1 } else { 0 };
    if p < n && t[p] == '$' {
        p = p + 1;
    }
    let ghost v = amount_body(t@).1;
    assert(v =~= t@.skip(p as int));
    let mut k: usize = p;
    while k < n && t[k] != '.'
        invariant
            p <= k <= n,
            n == t@.len(),
            forall|j: int| p <= j < k ==> t@[j] != '.',
        decreases n - k,
    {
        k = k + 1;
    }
    proof {
        lemma_first_index(v, '.');
        if k < n {
            assert(v[k - p] == '.');
            match first_index(v, '.') {
                Some(q) => {
                    if q < k - p {
                        assert(v[q] == t@[q + p]);
                    }
                },
                None => {},
            }
            assert(first_index(v, '.') == Some((k - p) as int));
            assert(v.take((k - p) as int) =~= t@.subrange(p as int, k as int));
            assert(v.skip((k - p) as int + 1) =~= t@.subrange(k + 1, n as int));
        } else {
            assert forall|j: int| 0 <= j < v.len() implies v[j] != '.' by {
                assert(v[j] == t@[j + p]);
            }
            assert(first_index(v, '.') is None);
            assert(v =~= t@.subrange(p as int, k as int));
            assert(t@.subrange(n as int, n as int) =~= Seq::<char>::empty());
        }
    }
    let frac_start: usize = if k < n { k + 1 } else { n };
    (negative, p, k, frac_start)
}

/// Whether whole units are digits and separators, and how many digits.
fn whole_shape(t: &Vec<char>, p: usize, k: usize) -> (r: (bool, usize))
    requires
        p <= k <= t@.len(),
    ensures
        r.0 == forall|j: int| 0 <= j < k - p ==> is_digit(#[trigger] t@.subrange(p as int, k as int)[j]) || t@.subrange(p as int, k as int)[j] == ',',
        r.1 == strip_commas(t@.subrange(p as int, k as int)).len(),
{
    let ghost whole = t@.subrange(p as int, k as int);
    let mut ok = true;
    let mut digits_seen: usize = 0;
    let mut i: usize = p;
    assert(whole.take(0) =~= Seq::<char>::empty());
    while i < k
        invariant
            p <= i <= k <= t@.len(),
            whole == t@.subrange(p as int, k as int),
            ok == forall|j: int| 0 <= j < i - p ==> is_digit(#[trigger] whole[j]) || whole[j] == ',',
            digits_seen == strip_commas(whole.take(i - p)).len(),
            digits_seen <= i - p,
        decreases k - i,
    {
        let c = t[i];
        proof {
            assert(whole.take(i + 1 - p).drop_last() =~= whole.take(i - p));
            assert(whole.take(i + 1 - p).last() == c);
            assert(whole[i - p] == c);
        }
        if !(('0' <= c && c <= '9') || c == ',') {
            ok = false;
        }
        if c != ',' {
            digits_seen = digits_seen + 1;
        }
        i = i + 1;
    }
    assert(whole.take(whole.len() as int) =~= whole);
    (ok, digits_seen)
}

/// Whether a fraction is all digits.
fn fraction_digits(t: &Vec<char>, from: usize) -> (r: bool)
    requires
        from <= t@.len(),
    ensures
        r == all_digits(t@.subrange(from as int, t@.len() as int)),
{
    let ghost f = t@.subrange(from as int, t@.len() as int);
    let mut j: usize = from;
    while j < t.len()
        invariant
            from <= j <= t@.len(),
            f == t@.subrange(from as int, t@.len() as int),
            forall|q: int| 0 <= q < j - from ==> is_digit(#[trigger] f[q]),
        decreases t@.len() - j,
    {
        assert(f[j - from] == t@[j as int]);
        if !('0' <= t[j] && t[j] <= '9') {
            assert(!is_digit(f[j - from]));
            return false;
        }
        j = j + 1;
    }
    true
}

/// The value of whole units that are digits and separators, or nothing when
/// it is more than a hundred quadrillion.
fn whole_value(t: &Vec<char>, p: usize, k: usize) -> (r: Option<i128>)
    requires
        p <= k <= t@.len(),
        forall|j: int| 0 <= j < k - p ==> is_digit(#[trigger] t@.subrange(p as int, k as int)[j]) || t@.subrange(p as int, k as int)[j] == ',',
    ensures
        all_digits(strip_commas(t@.subrange(p as int, k as int))),
        match r {
            Some(v) => v == digits_value(strip_commas(t@.subrange(p as int, k as int))) && 0 <= v <= 100_000_000_000_000_000,
            None => digits_value(strip_commas(t@.subrange(p as int, k as int))) > 100_000_000_000_000_000,
        },
{
    let ghost whole = t@.subrange(p as int, k as int);
    let limit: i128 = 100_000_000_000_000_000;
    let mut acc: i128 = 0;
    let mut big = false;
    let mut i: usize = p;
    assert(whole.take(0) =~= Seq::<char>::empty());
    while i < k
        invariant
            p <= i <= k <= t@.len(),
            whole == t@.subrange(p as int, k as int),
            forall|q: int| 0 <= q < k - p ==> is_digit(#[trigger] whole[q]) || whole[q] == ',',
            limit == 100_000_000_000_000_000i128,
            all_digits(strip_commas(whole.take(i - p))),
            big ==> digits_value(strip_commas(whole.take(i - p))) > limit,
            !big ==> acc == digits_value(strip_commas(whole.take(i - p))) && 0 <= acc <= limit,
        decreases k - i,
    {
        let c = t[i];
        proof {
            assert(whole.take(i + 1 - p).drop_last() =~= whole.take(i - p));
            assert(whole.take(i + 1 - p).last() == c);
            assert(whole[i - p] == c);
            crate::dates::lemma_digits_nonneg(strip_commas(whole.take(i - p)));
        }
        if c != ',' {
            proof {
                let x = strip_commas(whole.take(i - p));
                assert(strip_commas(whole.take(i + 1 - p)) == x.push(c));
                assert(x.push(c).drop_last() =~= x);
                assert(all_digits(x.push(c)));
            }
            if !big {
                acc = acc * 10 + (c as u32 - '0' as u32) as i128;
                if acc > limit {
                    big = true;
                }
            }
        }
        i = i + 1;
    }
    assert(whole.take(whole.len() as int) =~= whole);
    if big { None } else { Some(acc) }
}

/// The cents of a fraction of at most two digits.
fn fraction_value(t: &Vec<char>, from: usize) -> (r: i128)
    requires
        from <= t@.len(),
        t@.len() - from <= 2,
        all_digits(t@.subrange(from as int, t@.len() as int)),
    ensures
        ({
            let f = t@.subrange(from as int, t@.len() as int);
            r == (if f.len() == 0 { 0 } else if f.len() == 1 { digit_value(f[0]) * 10 } else { digits_value(f) })
        }),
        0 <= r < 100,
{
    let ghost f = t@.subrange(from as int, t@.len() as int);
    let n = t.len();
    if n == from {
        0
    } else if n == from + 1 {
        assert(f[0] == t@[from as int]);
        assert(is_digit(f[0]));
        (t[from] as u32 - '0' as u32) as i128 * 10
    } else {
        assert(f[0] == t@[from as int]);
        assert(f[1] == t@[from + 1]);
        assert(is_digit(f[0]) && is_digit(f[1]));
        assert(f.drop_last().drop_last() =~= Seq::<char>::empty());
        assert(f.drop_last().last() == f[0]);
        let ghost g = f.drop_last();
        assert(g.len() == 1);
        assert(digits_value(g.drop_last()) == 0);
        assert(g.last() == f[0]);
        assert(digits_value(g) == digits_value(g.drop_last()) * 10 + digit_value(g.last()));
        assert(digits_value(f.drop_last()) == digit_value(f[0]));
        assert(f.last() == f[1]);
        assert(digits_value(f) == digit_value(f[0]) * 10 + digit_value(f[1]));
        (t[from] as u32 - '0' as u32) as i128 * 10 + (t[from + 1] as u32 - '0' as u32) as i128
    }
}

fn not_an_amount(s: &str) -> (e: Rejection)
    ensures
        (e.reason, e.text@) == (Reason::NotAnAmount, "`"@ + s@ + "` is not an amount — digits, an optional sign and `$`, thousands separators, and at most two decimal places"@),
{
    let mut e = String::from_str("`");
    e.append(s);
    e.append("` is not an amount — digits, an optional sign and `$`, thousands separators, and at most two decimal places");
    Rejection { reason: Reason::NotAnAmount, text: e }
}

fn too_large(s: &str) -> (e: Rejection)
    ensures
        (e.reason, e.text@) == (Reason::AmountTooLarge, "`"@ + s@ + "` does not fit in 64 bits of minor units"@),
{
    let mut e = String::from_str("`");
    e.append(s);
    e.append("` does not fit in 64 bits of minor units");
    Rejection { reason: Reason::AmountTooLarge, text: e }
}

/// Read a decimal major-unit amount as exact minor units: `"-25,000.00"` is
/// `-2_500_000`, `".5"` is `50`, and a third decimal place is refused.
pub fn parse_minor(s: &str) -> (r: Result<i64, Rejection>)
    ensures
        match r {
            Ok(v) => minor_of(s@) == Ok::<int, Rejected>(v as int),
            Err(e) => minor_of(s@) == Err::<int, Rejected>((e.reason, e.text@)),
        },
{
    let cs = chars_of(s);
    let t = trimmed(&cs);
    assert(t@ == trim(s@));
    let (negative, p, k, frac_start) = amount_shape(&t);
    let (whole_ok, digits) = whole_shape(&t, p, k);
    let frac_ok = fraction_digits(&t, frac_start);
    let flen = t.len() - frac_start;
    if !whole_ok || !frac_ok || flen > 2 || (k < t.len() && flen == 0) || (digits == 0 && flen == 0) {
        return Err(not_an_amount(s));
    }
    assert(amount_well_written(s@));
    let cents = fraction_value(&t, frac_start);
    let whole = match whole_value(&t, p, k) {
        Some(w) => w,
        None => {
            proof {
                crate::dates::lemma_digits_nonneg(strip_commas(t@.subrange(p as int, k as int)));
            }
            return Err(too_large(s));
        },
    };
    let m: i128 = whole * 100 + cents;
    let value: i128 = if negative { -m } else { m };
    assert(value == amount_value(s@));
    if value < -9_223_372_036_854_775_808i128 || value > 9_223_372_036_854_775_807i128 {
        return Err(too_large(s));
    }
    Ok(value as i64)
}

// ------------------------------------------------------------------- lines

/// A line as `str::lines` ends it: a carriage return before the newline goes.
pub open spec fn line_body(x: Seq<char>) -> Seq<char> {
    if x.len() > 0 && x.last() == '\r' { x.drop_last() } else { x }
}

/// The lines of a text from the line starting at `start`, with position `i`
/// reached: a final newline ends the last line rather than starting another.
pub open spec fn lines_from(s: Seq<char>, start: int, i: int) -> Seq<Seq<char>>
    decreases s.len() - i,
{
    if i < 0 || i >= s.len() {
        if 0 <= start < s.len() { seq![s.subrange(start, s.len() as int)] } else { Seq::empty() }
    } else if s[i] == '\n' {
        seq![line_body(s.subrange(start, i))] + lines_from(s, i + 1, i + 1)
    } else {
        lines_from(s, start, i + 1)
    }
}

/// The lines of a text, as `str::lines` gives them.
pub open spec fn lines_of(s: Seq<char>) -> Seq<Seq<char>> {
    lines_from(s, 0, 0)
}

/// The lines that are not blank, in order.
pub open spec fn filled(ls: Seq<Seq<char>>) -> Seq<Seq<char>>
    decreases ls.len(),
{
    if ls.len() == 0 {
        ls
    } else if blank(ls.last()) {
        filled(ls.drop_last())
    } else {
        filled(ls.drop_last()).push(ls.last())
    }
}

proof fn lemma_filled_concat(a: Seq<Seq<char>>, b: Seq<Seq<char>>)
    ensures
        filled(a + b) == filled(a) + filled(b),
    decreases b.len(),
{
    if b.len() == 0 {
        assert(a + b =~= a);
        assert(filled(a) + filled(b) =~= filled(a));
    } else {
        lemma_filled_concat(a, b.drop_last());
        assert((a + b).drop_last() =~= a + b.drop_last());
        assert((a + b).last() == b.last());
        if !blank(b.last()) {
            assert(filled(a) + filled(b) =~= (filled(a) + filled(b.drop_last())).push(b.last()));
        }
    }
}

proof fn lemma_texts_view_index(s: Seq<String>)
    ensures
        texts_view(s).len() == s.len(),
        forall|k: int| 0 <= k < s.len() ==> #[trigger] texts_view(s)[k] == s[k]@,
    decreases s.len(),
{
    if s.len() > 0 {
        lemma_texts_view_index(s.drop_last());
        assert forall|k: int| 0 <= k < s.len() implies #[trigger] texts_view(s)[k] == s[k]@ by {
            if k < s.len() - 1 {
                assert(s.drop_last()[k] == s[k]);
            }
        }
    }
}

/// The lines of a text that are not blank.
fn filled_lines(text: &str) -> (r: Vec<String>)
    ensures
        texts_view(r@) == filled(lines_of(text@)),
{
    let cs = chars_of(text);
    let n = cs.len();
    let mut out: Vec<String> = Vec::new();
    let mut start: usize = 0;
    let mut i: usize = 0;
    let ghost mut done: Seq<Seq<char>> = Seq::empty();
    assert(done + lines_from(cs@, 0, 0) =~= lines_of(text@));
    while i < n
        invariant
            0 <= start <= i <= n,
            n == cs@.len(),
            cs@ == text@,
            done + lines_from(cs@, start as int, i as int) == lines_of(text@),
            texts_view(out@) == filled(done),
        decreases n - i,
    {
        if cs[i] == '\n' {
            let mut line: Vec<char> = Vec::new();
            let mut j: usize = start;
            while j < i
                invariant
                    start <= j <= i < n,
                    n == cs@.len(),
                    line@ == cs@.subrange(start as int, j as int),
                decreases i - j,
            {
                line.push(cs[j]);
                j = j + 1;
                assert(line@ =~= cs@.subrange(start as int, j as int));
            }
            if line.len() > 0 && line[line.len() - 1] == '\r' {
                line.pop();
            }
            let ghost body = line_body(cs@.subrange(start as int, i as int));
            assert(line@ =~= body);
            proof {
                assert(lines_from(cs@, start as int, i as int) == seq![body] + lines_from(cs@, i + 1, i + 1));
                assert(done + lines_from(cs@, start as int, i as int) =~= done.push(body) + lines_from(cs@, i + 1, i + 1));
                assert(done.push(body).drop_last() =~= done);
            }
            let l = string_of(&line);
            if !is_blank(l.as_str()) {
                let ghost before = out@;
                out.push(l);
                assert(out@.drop_last() =~= before);
            }
            proof {
                done = done.push(body);
            }
            start = i + 1;
        }
        i = i + 1;
    }
    if start < n {
        let mut line: Vec<char> = Vec::new();
        let mut j: usize = start;
        while j < n
            invariant
                start <= j <= n,
                n == cs@.len(),
                line@ == cs@.subrange(start as int, j as int),
            decreases n - j,
        {
            line.push(cs[j]);
            j = j + 1;
            assert(line@ =~= cs@.subrange(start as int, j as int));
        }
        let l = string_of(&line);
        proof {
            assert(lines_from(cs@, start as int, n as int) == seq![cs@.subrange(start as int, n as int)]);
            assert(done.push(l@).drop_last() =~= done);
        }
        if !is_blank(l.as_str()) {
            let ghost before = out@;
            out.push(l);
            assert(out@.drop_last() =~= before);
        }
        proof {
            assert(done + lines_from(cs@, start as int, n as int) =~= done.push(l@));
        }
    } else {
        proof {
            assert(done + lines_from(cs@, start as int, n as int) =~= done);
        }
    }
    out
}

// ----------------------------------------------------------------- columns

/// A header cell as a column name: trimmed, in ASCII lower case.
pub open spec fn column_name(c: Seq<char>) -> Seq<char> {
    trim(c).map_values(|x: char| ascii_lower(x))
}

/// A header's column names.
pub open spec fn column_names(h: Seq<Seq<char>>) -> Seq<Seq<char>> {
    h.map_values(|c: Seq<char>| column_name(c))
}

/// The first column with a name.
pub open spec fn column(cols: Seq<Seq<char>>, name: Seq<char>) -> Option<int>
    decreases cols.len(),
{
    if cols.len() == 0 {
        None
    } else if cols[0] == name {
        Some(0)
    } else {
        match column(cols.drop_first(), name) {
            Some(k) => Some(k + 1),
            None => None,
        }
    }
}

proof fn lemma_column(cols: Seq<Seq<char>>, name: Seq<char>)
    ensures
        match column(cols, name) {
            Some(k) => 0 <= k < cols.len() && cols[k] == name && forall|j: int| 0 <= j < k ==> cols[j] != name,
            None => forall|j: int| 0 <= j < cols.len() ==> cols[j] != name,
        },
    decreases cols.len(),
{
    if cols.len() > 0 && cols[0] != name {
        lemma_column(cols.drop_first(), name);
        assert forall|j: int| 0 < j < cols.len() implies cols[j] == cols.drop_first()[j - 1] by {}
    }
}

/// A text in ASCII lower case.
fn lowered(t: &str) -> (r: String)
    ensures
        r@ == t@.map_values(|x: char| ascii_lower(x)),
{
    let cs = chars_of(t);
    let mut out: Vec<char> = Vec::new();
    let mut i: usize = 0;
    while i < cs.len()
        invariant
            0 <= i <= cs@.len(),
            cs@ == t@,
            out@ == cs@.take(i as int).map_values(|x: char| ascii_lower(x)),
        decreases cs@.len() - i,
    {
        let c = cs[i];
        let l: char = if 'A' <= c && c <= 'Z' { ((c as u8) + 32) as char } else { c };
        out.push(l);
        proof {
            assert(cs@.take(i + 1) =~= cs@.take(i as int).push(c));
            assert(out@ =~= cs@.take(i + 1).map_values(|x: char| ascii_lower(x)));
        }
        i = i + 1;
    }
    assert(cs@.take(cs@.len() as int) =~= cs@);
    string_of(&out)
}

/// A character in ASCII upper case.
pub open spec fn ascii_upper(c: char) -> char {
    if 'a' <= c && c <= 'z' { ((c as u8) - 32) as char } else { c }
}

/// A text in ASCII upper case.
fn raised(t: &str) -> (r: String)
    ensures
        r@ == t@.map_values(|x: char| ascii_upper(x)),
{
    let cs = chars_of(t);
    let mut out: Vec<char> = Vec::new();
    let mut i: usize = 0;
    while i < cs.len()
        invariant
            0 <= i <= cs@.len(),
            cs@ == t@,
            out@ == cs@.take(i as int).map_values(|x: char| ascii_upper(x)),
        decreases cs@.len() - i,
    {
        let c = cs[i];
        let u: char = if 'a' <= c && c <= 'z' { ((c as u8) - 32) as char } else { c };
        out.push(u);
        proof {
            assert(cs@.take(i + 1) =~= cs@.take(i as int).push(c));
            assert(out@ =~= cs@.take(i + 1).map_values(|x: char| ascii_upper(x)));
        }
        i = i + 1;
    }
    assert(cs@.take(cs@.len() as int) =~= cs@);
    string_of(&out)
}

/// A text with white space trimmed from both ends.
fn trim_text(t: &str) -> (r: String)
    ensures
        r@ == trim(t@),
{
    let cs = chars_of(t);
    let u = trimmed(&cs);
    string_of(&u)
}

/// A header's column names.
fn header_names(h: &Vec<String>) -> (r: Vec<String>)
    ensures
        r@.len() == h@.len(),
        forall|k: int| 0 <= k < h@.len() ==> (#[trigger] r@[k])@ == column_name(h@[k]@),
{
    let mut out: Vec<String> = Vec::new();
    let mut i: usize = 0;
    while i < h.len()
        invariant
            0 <= i <= h@.len(),
            out@.len() == i,
            forall|k: int| 0 <= k < i ==> (#[trigger] out@[k])@ == column_name(h@[k]@),
        decreases h@.len() - i,
    {
        let t = trim_text(h[i].as_str());
        out.push(lowered(t.as_str()));
        i = i + 1;
    }
    out
}

/// Where a column is, by name.
fn find_column(cols: &Vec<String>, name: &str) -> (r: Option<usize>)
    ensures
        match r {
            Some(k) => column(texts_of(cols@), name@) == Some(k as int),
            None => column(texts_of(cols@), name@) is None,
        },
{
    let ghost v = texts_of(cols@);
    let mut i: usize = 0;
    while i < cols.len()
        invariant
            0 <= i <= cols@.len(),
            v == texts_of(cols@),
            v.len() == cols@.len(),
            forall|j: int| 0 <= j < i ==> v[j] != name@,
        decreases cols@.len() - i,
    {
        assert(v[i as int] == cols@[i as int]@);
        if crate::text::str_eq(cols[i].as_str(), name) {
            proof {
                lemma_column(v, name@);
                match column(v, name@) {
                    Some(q) => { if q < i { assert(v[q] != name@); } },
                    None => {},
                }
            }
            return Some(i);
        }
        i = i + 1;
    }
    proof { lemma_column(v, name@); }
    None
}

/// Texts, each by its characters.
pub open spec fn texts_of(s: Seq<String>) -> Seq<Seq<char>> {
    s.map_values(|t: String| t@)
}

// ------------------------------------------------------------ transactions

/// A transaction as a value.
pub struct TxnView {
    pub id: Seq<char>,
    pub date: Seq<char>,
    pub kind: Seq<char>,
    pub security: Seq<char>,
    pub amount: i64,
    pub basis: Option<i64>,
    pub currency: Seq<char>,
    pub days: Option<i64>,
}

impl vstd::view::View for Txn {
    type V = TxnView;

    open spec fn view(&self) -> TxnView {
        TxnView {
            id: self.id@,
            date: self.date@,
            kind: self.kind@,
            security: self.security@,
            amount: self.amount,
            basis: self.basis,
            currency: self.currency@,
            days: self.days,
        }
    }
}

/// Transactions, each taken as a value.
pub open spec fn txns_view(s: Seq<Txn>) -> Seq<TxnView> {
    s.map_values(|t: Txn| t@)
}

/// Where a transactions file's columns are.
#[derive(Clone, Copy, Debug, PartialEq, Eq, Structural)]
pub struct TxnColumns {
    pub id: usize,
    pub date: usize,
    pub kind: usize,
    pub amount: usize,
    pub currency: usize,
    pub security: Option<usize>,
    pub basis: Option<usize>,
    pub days: Option<usize>,
}

/// A column's position, as a machine index.
pub open spec fn at(k: Option<int>) -> Option<usize> {
    match k {
        Some(i) => Some(i as usize),
        None => None,
    }
}

/// A missing required column, as a refusal.
pub open spec fn no_column(name: Seq<char>) -> Rejected {
    (Reason::ColumnMissing, "no `"@ + name + "` column"@)
}

/// Where a header puts the columns a transactions file needs: the five it
/// must have, in the order they are asked for, and the three it may.
pub open spec fn txn_columns(cols: Seq<Seq<char>>) -> Result<TxnColumns, Rejected> {
    match (column(cols, "id"@), column(cols, "date"@), column(cols, "type"@), column(cols, "amount"@), column(cols, "currency"@)) {
        (None, _, _, _, _) => Err(no_column("id"@)),
        (Some(_), None, _, _, _) => Err(no_column("date"@)),
        (Some(_), Some(_), None, _, _) => Err(no_column("type"@)),
        (Some(_), Some(_), Some(_), None, _) => Err(no_column("amount"@)),
        (Some(_), Some(_), Some(_), Some(_), None) => Err(no_column("currency"@)),
        (Some(i), Some(d), Some(t), Some(a), Some(c)) => Ok(TxnColumns {
            id: i as usize,
            date: d as usize,
            kind: t as usize,
            amount: a as usize,
            currency: c as usize,
            security: at(column(cols, "security"@)),
            basis: at(column(cols, "basis"@)),
            days: at(column(cols, "days"@)),
        }),
    }
}

/// A row with too few fields, as a refusal.
pub open spec fn short_row(row: int, have: int, need: int) -> Rejected {
    (Reason::RowTooShort, "row "@ + decimal(row) + " has "@ + decimal(have) + " fields, needs "@ + decimal(need))
}

/// A refusal about one field of a row.
pub open spec fn in_row(row: int, what: Seq<char>, x: Rejected) -> Rejected {
    (x.0, "row "@ + decimal(row) + " "@ + what + ": "@ + x.1)
}

/// An optional field: absent when the column is, when the row is short of
/// it, or when it is blank.
pub open spec fn optional(f: Seq<Seq<char>>, k: Option<usize>) -> Option<Seq<char>> {
    match k {
        Some(i) => if i < f.len() && trim(f[i as int]).len() > 0 { Some(trim(f[i as int])) } else { None },
        None => None,
    }
}

/// An optional amount: absent, or read, or why it cannot be.
pub open spec fn optional_amount(f: Seq<Seq<char>>, k: Option<usize>, row: int, what: Seq<char>) -> Result<Option<i64>, Rejected> {
    match optional(f, k) {
        None => Ok(None),
        Some(t) => match minor_of(t) {
            Err(x) => Err(in_row(row, what, x)),
            Ok(v) => Ok(Some(v as i64)),
        },
    }
}

/// An optional number of days: absent, or read as `str::parse` reads it.
pub open spec fn optional_days(f: Seq<Seq<char>>, k: Option<usize>, row: int) -> Result<Option<i64>, Rejected> {
    match optional(f, k) {
        None => Ok(None),
        Some(t) => match crate::dates::parse_int(t) {
            None => Err((Reason::NotADayCount, "row "@ + decimal(row) + " days: `"@ + t + "` is not a whole number of days"@)),
            Some(v) => Ok(Some(v as i64)),
        },
    }
}

/// One row of a transactions file as a transaction, or why not. Fields are
/// read in the order a transaction lists them, so the first fault is the one
/// reported.
pub open spec fn txn_of(line: Seq<char>, row: int, c: TxnColumns) -> Result<TxnView, Rejected> {
    match csv_fields(line) {
        None => Err((Reason::UnterminatedQuote, "row "@ + decimal(row) + ": "@ + "unterminated quote — a field containing a newline is not supported"@)),
        Some(f) => {
            if c.id >= f.len() {
                Err(short_row(row, f.len() as int, c.id + 1))
            } else if c.date >= f.len() {
                Err(short_row(row, f.len() as int, c.date + 1))
            } else if c.kind >= f.len() {
                Err(short_row(row, f.len() as int, c.kind + 1))
            } else if c.amount >= f.len() {
                Err(short_row(row, f.len() as int, c.amount + 1))
            } else {
                match minor_of(trim(f[c.amount as int])) {
                    Err(x) => Err(in_row(row, "amount"@, x)),
                    Ok(amount) => match optional_amount(f, c.basis, row, "basis"@) {
                        Err(x) => Err(x),
                        Ok(basis) => if c.currency >= f.len() {
                            Err(short_row(row, f.len() as int, c.currency + 1))
                        } else {
                            match optional_days(f, c.days, row) {
                                Err(x) => Err(x),
                                Ok(days) => Ok(TxnView {
                                    id: trim(f[c.id as int]),
                                    date: trim(f[c.date as int]),
                                    kind: trim(f[c.kind as int]).map_values(|x: char| ascii_lower(x)),
                                    security: match optional(f, c.security) { Some(t) => t, None => Seq::empty() },
                                    amount: amount as i64,
                                    basis,
                                    currency: trim(f[c.currency as int]).map_values(|x: char| ascii_upper(x)),
                                    days,
                                }),
                            }
                        },
                    },
                }
            }
        },
    }
}

/// The rows of a transactions file, the first data row being row 2.
pub open spec fn txns_from(rows: Seq<Seq<char>>, c: TxnColumns) -> Result<Seq<TxnView>, Rejected>
    decreases rows.len(),
{
    if rows.len() == 0 {
        Ok(Seq::empty())
    } else {
        match txns_from(rows.drop_last(), c) {
            Err(x) => Err(x),
            Ok(prev) => match txn_of(rows.last(), rows.len() + 1int, c) {
                Err(x) => Err(x),
                Ok(t) => Ok(prev.push(t)),
            },
        }
    }
}

/// What reading a transactions file gives: its transactions, or the first
/// reason it cannot be read.
pub open spec fn transactions_of(csv: Seq<char>) -> Result<Seq<TxnView>, Rejected> {
    let ls = filled(lines_of(csv));
    if ls.len() == 0 {
        Err((Reason::EmptyFile, "the transactions file is empty"@))
    } else {
        match csv_fields(ls[0]) {
            None => Err((Reason::UnterminatedQuote, "unterminated quote — a field containing a newline is not supported"@)),
            Some(h) => match txn_columns(column_names(h)) {
                Err(x) => Err(x),
                Ok(c) => txns_from(ls.drop_first(), c),
            },
        }
    }
}

fn short_row_error(row: usize, have: usize, need: usize) -> (e: Rejection)
    requires
        need < usize::MAX,
    ensures
        (e.reason, e.text@) == short_row(row as int, have as int, need + 1),
{
    let mut s = String::from_str("row ");
    push_decimal(&mut s, row as i128);
    s.append(" has ");
    push_decimal(&mut s, have as i128);
    s.append(" fields, needs ");
    push_decimal(&mut s, (need + 1) as i128);
    Rejection { reason: Reason::RowTooShort, text: s }
}

fn in_row_error(row: usize, what: &str, x: Rejection) -> (e: Rejection)
    ensures
        (e.reason, e.text@) == in_row(row as int, what@, (x.reason, x.text@)),
{
    let mut s = String::from_str("row ");
    push_decimal(&mut s, row as i128);
    s.append(" ");
    s.append(what);
    s.append(": ");
    s.append(x.text.as_str());
    Rejection { reason: x.reason, text: s }
}

/// An optional field, trimmed.
fn optional_field(f: &Vec<String>, k: Option<usize>) -> (r: Option<String>)
    ensures
        match r {
            Some(t) => optional(texts_view(f@), k) == Some(t@),
            None => optional(texts_view(f@), k) is None,
        },
{
    proof { lemma_texts_view_index(f@); }
    match k {
        Some(i) => {
            if i < f.len() {
                let t = trim_text(f[i].as_str());
                if !t.as_str().is_empty() { Some(t) } else { None }
            } else {
                None
            }
        },
        None => None,
    }
}

fn read_optional_amount(f: &Vec<String>, k: Option<usize>, row: usize, what: &str) -> (r: Result<Option<i64>, Rejection>)
    ensures
        match r {
            Ok(v) => optional_amount(texts_view(f@), k, row as int, what@) == Ok::<Option<i64>, Rejected>(v),
            Err(e) => optional_amount(texts_view(f@), k, row as int, what@) == Err::<Option<i64>, Rejected>((e.reason, e.text@)),
        },
{
    match optional_field(f, k) {
        None => Ok(None),
        Some(t) => match parse_minor(t.as_str()) {
            Ok(v) => Ok(Some(v)),
            Err(x) => Err(in_row_error(row, what, x)),
        },
    }
}

fn read_optional_days(f: &Vec<String>, k: Option<usize>, row: usize) -> (r: Result<Option<i64>, Rejection>)
    ensures
        match r {
            Ok(v) => optional_days(texts_view(f@), k, row as int) == Ok::<Option<i64>, Rejected>(v),
            Err(e) => optional_days(texts_view(f@), k, row as int) == Err::<Option<i64>, Rejected>((e.reason, e.text@)),
        },
{
    match optional_field(f, k) {
        None => Ok(None),
        Some(t) => match crate::dates::parse_i64(t.as_str()) {
            Some(v) => Ok(Some(v)),
            None => {
                let mut s = String::from_str("row ");
                push_decimal(&mut s, row as i128);
                s.append(" days: `");
                s.append(t.as_str());
                s.append("` is not a whole number of days");
                Err(Rejection { reason: Reason::NotADayCount, text: s })
            },
        },
    }
}

/// One row of a transactions file.
fn read_txn(line: &str, row: usize, c: &TxnColumns) -> (r: Result<Txn, Rejection>)
    requires
        c.id < usize::MAX && c.date < usize::MAX && c.kind < usize::MAX && c.amount < usize::MAX && c.currency < usize::MAX,
    ensures
        match r {
            Ok(t) => txn_of(line@, row as int, *c) == Ok::<TxnView, Rejected>(t@),
            Err(e) => txn_of(line@, row as int, *c) == Err::<TxnView, Rejected>((e.reason, e.text@)),
        },
{
    let f = match split_csv_line(line) {
        Ok(f) => f,
        Err(x) => {
            let mut s = String::from_str("row ");
            push_decimal(&mut s, row as i128);
            s.append(": ");
            s.append(x.text.as_str());
            assert(s@ =~= "row "@ + decimal(row as int) + ": "@ + "unterminated quote — a field containing a newline is not supported"@);
            return Err(Rejection { reason: Reason::UnterminatedQuote, text: s });
        },
    };
    let ghost fv = texts_view(f@);
    proof { lemma_texts_view_index(f@); }
    let n = f.len();
    if c.id >= n {
        return Err(short_row_error(row, n, c.id));
    }
    if c.date >= n {
        return Err(short_row_error(row, n, c.date));
    }
    if c.kind >= n {
        return Err(short_row_error(row, n, c.kind));
    }
    if c.amount >= n {
        return Err(short_row_error(row, n, c.amount));
    }
    let amount_text = trim_text(f[c.amount].as_str());
    let amount = match parse_minor(amount_text.as_str()) {
        Ok(v) => v,
        Err(x) => return Err(in_row_error(row, "amount", x)),
    };
    let basis = match read_optional_amount(&f, c.basis, row, "basis") {
        Ok(b) => b,
        Err(x) => return Err(x),
    };
    if c.currency >= n {
        return Err(short_row_error(row, n, c.currency));
    }
    let days = match read_optional_days(&f, c.days, row) {
        Ok(d) => d,
        Err(x) => return Err(x),
    };
    let security = match optional_field(&f, c.security) {
        Some(t) => t,
        None => String::new(),
    };
    let kind_text = trim_text(f[c.kind].as_str());
    let currency_text = trim_text(f[c.currency].as_str());
    Ok(Txn {
        id: trim_text(f[c.id].as_str()),
        date: trim_text(f[c.date].as_str()),
        kind: lowered(kind_text.as_str()),
        security,
        amount,
        basis,
        currency: raised(currency_text.as_str()),
        days,
    })
}

fn no_column_error(name: &str) -> (e: Rejection)
    ensures
        (e.reason, e.text@) == no_column(name@),
{
    let mut s = String::from_str("no `");
    s.append(name);
    s.append("` column");
    Rejection { reason: Reason::ColumnMissing, text: s }
}

/// Where a header puts a transactions file's columns.
fn read_txn_columns(names: &Vec<String>) -> (r: Result<TxnColumns, Rejection>)
    ensures
        match r {
            Ok(c) => txn_columns(texts_of(names@)) == Ok::<TxnColumns, Rejected>(c)
                && c.id < usize::MAX && c.date < usize::MAX && c.kind < usize::MAX && c.amount < usize::MAX && c.currency < usize::MAX,
            Err(e) => txn_columns(texts_of(names@)) == Err::<TxnColumns, Rejected>((e.reason, e.text@)),
        },
{
    let id = match find_column(names, "id") {
        Some(k) => k,
        None => return Err(no_column_error("id")),
    };
    let date = match find_column(names, "date") {
        Some(k) => k,
        None => return Err(no_column_error("date")),
    };
    let kind = match find_column(names, "type") {
        Some(k) => k,
        None => return Err(no_column_error("type")),
    };
    let amount = match find_column(names, "amount") {
        Some(k) => k,
        None => return Err(no_column_error("amount")),
    };
    let currency = match find_column(names, "currency") {
        Some(k) => k,
        None => return Err(no_column_error("currency")),
    };
    let ghost v = texts_of(names@);
    proof {
        lemma_column(v, "id"@);
        lemma_column(v, "date"@);
        lemma_column(v, "type"@);
        lemma_column(v, "amount"@);
        lemma_column(v, "currency"@);
    }
    let security = find_column(names, "security");
    let basis = find_column(names, "basis");
    let days = find_column(names, "days");
    let c = TxnColumns { id, date, kind, amount, currency, security, basis, days };
    let n = names.len();
    assert(v.len() == n);
    assert(c.id < usize::MAX && c.date < usize::MAX && c.kind < usize::MAX && c.amount < usize::MAX && c.currency < usize::MAX);
    assert(at(column(v, "security"@)) == security);
    assert(at(column(v, "basis"@)) == basis);
    assert(at(column(v, "days"@)) == days);
    assert(column(v, "id"@) == Some(id as int));
    assert(txn_columns(v) == Ok::<TxnColumns, Rejected>(c));
    Ok(c)
}

/// Parse a transactions file. It needs `id`, `date`, `type`, `amount` and
/// `currency` columns, and may have `security`, `basis` and `days`; columns
/// are found by header name, blank lines are skipped, a type is read in lower
/// case and a currency in upper case.
pub fn parse_transactions(csv: &str) -> (r: Result<Vec<Txn>, Rejection>)
    ensures
        match r {
            Ok(ts) => transactions_of(csv@) == Ok::<Seq<TxnView>, Rejected>(txns_view(ts@)),
            Err(e) => transactions_of(csv@) == Err::<Seq<TxnView>, Rejected>((e.reason, e.text@)),
        },
{
    let lines = filled_lines(csv);
    let ghost ls = filled(lines_of(csv@));
    proof { lemma_texts_view_index(lines@); }
    if lines.len() == 0 {
        return Err(Rejection { reason: Reason::EmptyFile, text: String::from_str("the transactions file is empty") });
    }
    let header = match split_csv_line(lines[0].as_str()) {
        Ok(h) => h,
        Err(e) => return Err(e),
    };
    let names = header_names(&header);
    proof {
        lemma_texts_view_index(header@);
        assert(texts_of(names@) =~= column_names(texts_view(header@)));
    }
    let cols = match read_txn_columns(&names) {
        Ok(c) => c,
        Err(e) => return Err(e),
    };
    let ghost rows = ls.drop_first();
    assert(ls[0] == lines@[0]@);
    assert(transactions_of(csv@) == txns_from(rows, cols));
    let mut out: Vec<Txn> = Vec::new();
    let mut i: usize = 1;
    assert(rows.take(0) =~= Seq::<Seq<char>>::empty());
    assert(txns_view(out@) =~= Seq::<TxnView>::empty());
    while i < lines.len()
        invariant
            1 <= i <= lines@.len(),
            ls == texts_view(lines@),
            ls.len() == lines@.len(),
            forall|k: int| 0 <= k < lines@.len() ==> #[trigger] ls[k] == lines@[k]@,
            rows == ls.drop_first(),
            transactions_of(csv@) == txns_from(rows, cols),
            cols.id < usize::MAX && cols.date < usize::MAX && cols.kind < usize::MAX && cols.amount < usize::MAX && cols.currency < usize::MAX,
            txns_from(rows.take(i - 1), cols) == Ok::<Seq<TxnView>, Rejected>(txns_view(out@)),
        decreases lines@.len() - i,
    {
        let ghost t = rows.take(i as int);
        proof {
            assert(t.drop_last() =~= rows.take(i - 1));
            assert(t.last() == lines@[i as int]@);
            assert(t.len() + 1 == i + 1);
        }
        match read_txn(lines[i].as_str(), i + 1, &cols) {
            Ok(x) => {
                let ghost before = out@;
                out.push(x);
                assert(txns_view(out@) =~= txns_view(before).push(x@));
            },
            Err(e) => {
                proof { lemma_txns_stop(rows, cols, i as int); }
                return Err(e);
            },
        }
        i = i + 1;
    }
    assert(rows.take(lines@.len() - 1) =~= rows);
    Ok(out)
}

/// Once a row is refused, so is the file.
proof fn lemma_txns_stop(rows: Seq<Seq<char>>, c: TxnColumns, i: int)
    requires
        1 <= i <= rows.len(),
        txns_from(rows.take(i - 1), c) is Ok,
        txn_of(rows[i - 1], i + 1, c) is Err,
    ensures
        txns_from(rows, c) == Err::<Seq<TxnView>, Rejected>(txn_of(rows[i - 1], i + 1, c)->Err_0),
    decreases rows.len() - i,
{
    assert(rows.take(i).drop_last() =~= rows.take(i - 1));
    assert(rows.take(i).last() == rows[i - 1]);
    lemma_txns_refused_from(rows, c, i, txn_of(rows[i - 1], i + 1, c)->Err_0);
}

proof fn lemma_txns_refused_from(rows: Seq<Seq<char>>, c: TxnColumns, k: int, x: Rejected)
    requires
        0 <= k <= rows.len(),
        txns_from(rows.take(k), c) == Err::<Seq<TxnView>, Rejected>(x),
    ensures
        txns_from(rows, c) == Err::<Seq<TxnView>, Rejected>(x),
    decreases rows.len() - k,
{
    if k == rows.len() {
        assert(rows.take(k) =~= rows);
    } else {
        assert(rows.take(k + 1).drop_last() =~= rows.take(k));
        lemma_txns_refused_from(rows, c, k + 1, x);
    }
}

// ------------------------------------------------------- reported positions

/// The dimension a chart gives a name: the last account whose trimmed name
/// matches it in ASCII lower case.
pub open spec fn named_dim(chart: Seq<Account>, key: Seq<char>) -> Option<i64>
    decreases chart.len(),
{
    if chart.len() == 0 {
        None
    } else if column_name(chart.last().display_name@) == key.map_values(|x: char| ascii_lower(x)) {
        Some(chart.last().dim)
    } else {
        named_dim(chart.drop_last(), key)
    }
}

/// The first column named `amount` or `balance`.
pub open spec fn amount_column(cols: Seq<Seq<char>>) -> Option<int>
    decreases cols.len(),
{
    if cols.len() == 0 {
        None
    } else if cols[0] == "amount"@ || cols[0] == "balance"@ {
        Some(0)
    } else {
        match amount_column(cols.drop_first()) {
            Some(k) => Some(k + 1),
            None => None,
        }
    }
}

/// One row of a positions file as a dimension and its amount: the account a
/// number, or a name the chart knows.
pub open spec fn position_of(line: Seq<char>, row: int, acct: int, amt: int, chart: Seq<Account>) -> Result<(i64, i64), Rejected> {
    match csv_fields(line) {
        None => Err((Reason::UnterminatedQuote, "row "@ + decimal(row) + ": "@ + "unterminated quote — a field containing a newline is not supported"@)),
        Some(f) => {
            let key = if acct < f.len() { trim(f[acct]) } else { Seq::empty() };
            if amt >= f.len() {
                Err((Reason::RowTooShort, "row "@ + decimal(row) + " has no amount"@))
            } else {
                let dim: Result<i64, Rejected> = match crate::dates::parse_int(key) {
                    Some(d) => Ok(d as i64),
                    None => match named_dim(chart, key) {
                        Some(d) => Ok(d),
                        None => Err((Reason::AccountUnknown, "row "@ + decimal(row) + ": no account named `"@ + key + "` in the chart"@)),
                    },
                };
                match dim {
                    Err(x) => Err(x),
                    Ok(d) => match minor_of(trim(f[amt])) {
                        Err(x) => Err(in_row(row, "amount"@, x)),
                        Ok(a) => Ok((d, a as i64)),
                    },
                }
            }
        },
    }
}

/// The rows of a positions file as a map, an account twice refused.
pub open spec fn positions_from(rows: Seq<Seq<char>>, acct: int, amt: int, chart: Seq<Account>) -> Result<Map<i64, i64>, Rejected>
    decreases rows.len(),
{
    if rows.len() == 0 {
        Ok(Map::empty())
    } else {
        match positions_from(rows.drop_last(), acct, amt, chart) {
            Err(x) => Err(x),
            Ok(m) => match position_of(rows.last(), rows.len() + 1int, acct, amt, chart) {
                Err(x) => Err(x),
                Ok((d, a)) => if m.contains_key(d) {
                    Err((Reason::AccountTwice, "row "@ + decimal(rows.len() + 1int) + ": account "@ + decimal(d as int) + " appears twice in the positions file"@))
                } else {
                    Ok(m.insert(d, a))
                },
            },
        }
    }
}

/// What reading a positions file gives: each account's reported amount, or
/// the first reason it cannot be read.
pub open spec fn reported_of(csv: Seq<char>, chart: Seq<Account>) -> Result<Map<i64, i64>, Rejected> {
    let ls = filled(lines_of(csv));
    if ls.len() == 0 {
        Err((Reason::EmptyFile, "the positions file is empty"@))
    } else {
        match csv_fields(ls[0]) {
            None => Err((Reason::UnterminatedQuote, "unterminated quote — a field containing a newline is not supported"@)),
            Some(h) => match (column(column_names(h), "account"@), amount_column(column_names(h))) {
                (None, _) => Err(no_column("account"@)),
                (Some(_), None) => Err((Reason::ColumnMissing, "no `amount` or `balance` column"@)),
                (Some(a), Some(m)) => positions_from(ls.drop_first(), a, m, chart),
            },
        }
    }
}

/// Whether a keyed list holds exactly a map.
pub open spec fn lists(v: Seq<(i64, i64)>, m: Map<i64, i64>) -> bool {
    &&& keyed(v)
    &&& forall|i: int| 0 <= i < v.len() ==> m.contains_key((#[trigger] v[i]).0) && m[v[i].0] == v[i].1
    &&& forall|d: i64| #[trigger] m.contains_key(d) ==> exists|i: int| 0 <= i < v.len() && (#[trigger] v[i]).0 == d
}

proof fn lemma_amount_column(cols: Seq<Seq<char>>)
    ensures
        match amount_column(cols) {
            Some(k) => 0 <= k < cols.len() && (cols[k] == "amount"@ || cols[k] == "balance"@)
                && forall|j: int| 0 <= j < k ==> cols[j] != "amount"@ && cols[j] != "balance"@,
            None => forall|j: int| 0 <= j < cols.len() ==> cols[j] != "amount"@ && cols[j] != "balance"@,
        },
    decreases cols.len(),
{
    if cols.len() > 0 && !(cols[0] == "amount"@ || cols[0] == "balance"@) {
        lemma_amount_column(cols.drop_first());
        assert forall|j: int| 0 < j < cols.len() implies cols[j] == cols.drop_first()[j - 1] by {}
    }
}

fn find_amount_column(cols: &Vec<String>) -> (r: Option<usize>)
    ensures
        match r {
            Some(k) => amount_column(texts_of(cols@)) == Some(k as int),
            None => amount_column(texts_of(cols@)) is None,
        },
{
    let ghost v = texts_of(cols@);
    let mut i: usize = 0;
    while i < cols.len()
        invariant
            0 <= i <= cols@.len(),
            v == texts_of(cols@),
            v.len() == cols@.len(),
            forall|j: int| 0 <= j < i ==> v[j] != "amount"@ && v[j] != "balance"@,
        decreases cols@.len() - i,
    {
        assert(v[i as int] == cols@[i as int]@);
        if crate::text::str_eq(cols[i].as_str(), "amount") || crate::text::str_eq(cols[i].as_str(), "balance") {
            proof {
                lemma_amount_column(v);
                match amount_column(v) {
                    Some(q) => { if q < i { assert(v[q] != "amount"@ && v[q] != "balance"@); } },
                    None => {},
                }
            }
            return Some(i);
        }
        i = i + 1;
    }
    proof { lemma_amount_column(v); }
    None
}

/// The dimension a chart gives a name.
fn find_named(chart: &[Account], key: &str) -> (r: Option<i64>)
    ensures
        r == named_dim(chart@, key@),
{
    let want = lowered(key);
    let mut k: usize = chart.len();
    assert(chart@.take(k as int) =~= chart@);
    while k > 0
        invariant
            0 <= k <= chart@.len(),
            want@ == key@.map_values(|x: char| ascii_lower(x)),
            named_dim(chart@, key@) == named_dim(chart@.take(k as int), key@),
        decreases k,
    {
        let ghost t = chart@.take(k as int);
        assert(t.drop_last() =~= chart@.take(k - 1));
        assert(t.last() == chart@[k - 1]);
        let t_name = trim_text(chart[k - 1].display_name.as_str());
        let name = lowered(t_name.as_str());
        if crate::text::str_eq(name.as_str(), want.as_str()) {
            return Some(chart[k - 1].dim);
        }
        k = k - 1;
    }
    None
}

/// One row of a positions file.
fn read_position(line: &str, row: usize, acct: usize, amt: usize, chart: &[Account]) -> (r: Result<(i64, i64), Rejection>)
    ensures
        match r {
            Ok(p) => position_of(line@, row as int, acct as int, amt as int, chart@) == Ok::<(i64, i64), Rejected>(p),
            Err(e) => position_of(line@, row as int, acct as int, amt as int, chart@) == Err::<(i64, i64), Rejected>((e.reason, e.text@)),
        },
{
    let f = match split_csv_line(line) {
        Ok(f) => f,
        Err(x) => {
            let mut s = String::from_str("row ");
            push_decimal(&mut s, row as i128);
            s.append(": ");
            s.append(x.text.as_str());
            assert(s@ =~= "row "@ + decimal(row as int) + ": "@ + "unterminated quote — a field containing a newline is not supported"@);
            return Err(Rejection { reason: Reason::UnterminatedQuote, text: s });
        },
    };
    proof { lemma_texts_view_index(f@); }
    let key = if acct < f.len() { trim_text(f[acct].as_str()) } else { String::new() };
    if amt >= f.len() {
        let mut s = String::from_str("row ");
        push_decimal(&mut s, row as i128);
        s.append(" has no amount");
        return Err(Rejection { reason: Reason::RowTooShort, text: s });
    }
    let dim = match crate::dates::parse_i64(key.as_str()) {
        Some(d) => d,
        None => match find_named(chart, key.as_str()) {
            Some(d) => d,
            None => {
                let mut s = String::from_str("row ");
                push_decimal(&mut s, row as i128);
                s.append(": no account named `");
                s.append(key.as_str());
                s.append("` in the chart");
                return Err(Rejection { reason: Reason::AccountUnknown, text: s });
            },
        },
    };
    let amount_text = trim_text(f[amt].as_str());
    match parse_minor(amount_text.as_str()) {
        Ok(a) => Ok((dim, a)),
        Err(x) => Err(in_row_error(row, "amount", x)),
    }
}

/// Add an account to a keyed list, unless it is already there.
fn add_position(out: &mut Vec<(i64, i64)>, d: i64, a: i64, Ghost(m): Ghost<Map<i64, i64>>) -> (added: bool)
    requires
        lists(old(out)@, m),
    ensures
        added == !m.contains_key(d),
        added ==> lists(final(out)@, m.insert(d, a)),
        !added ==> final(out)@ == old(out)@,
{
    let mut k: usize = 0;
    while k < out.len() && out[k].0 < d
        invariant
            0 <= k <= out@.len(),
            forall|j: int| 0 <= j < k ==> out@[j].0 < d,
        decreases out@.len() - k,
    {
        k = k + 1;
    }
    let ghost before = out@;
    if k < out.len() && out[k].0 == d {
        assert(m.contains_key(d));
        return false;
    }
    assert(!m.contains_key(d)) by {
        if m.contains_key(d) {
            let i = choose|i: int| 0 <= i < before.len() && (#[trigger] before[i]).0 == d;
            if i >= k {
                assert(before[k as int].0 <= before[i].0);
            }
        }
    }
    out.insert(k, (d, a));
    let ghost m2 = m.insert(d, a);
    assert forall|i: int, j: int| 0 <= i < j < out@.len() implies out@[i].0 < out@[j].0 by {
        if i < k && j > k {
            assert(out@[j] == before[j - 1]);
            if j - 1 > k as int {
                assert(before[k as int].0 < before[j - 1].0);
            }
        } else if i == k && j > k {
            assert(out@[j] == before[j - 1]);
            assert(before[j - 1].0 >= d);
            assert(before[j - 1].0 != d) by {
                if j - 1 > k as int {
                    assert(before[k as int].0 < before[j - 1].0);
                }
            }
        } else if i > k {
            assert(out@[i] == before[i - 1]);
            assert(out@[j] == before[j - 1]);
        }
    }
    assert forall|i: int| 0 <= i < out@.len() implies m2.contains_key((#[trigger] out@[i]).0) && m2[out@[i].0] == out@[i].1 by {
        if i < k {
            assert(out@[i] == before[i]);
        } else if i > k {
            assert(out@[i] == before[i - 1]);
        }
    }
    assert forall|e: i64| #[trigger] m2.contains_key(e) implies exists|i: int| 0 <= i < out@.len() && (#[trigger] out@[i]).0 == e by {
        if e == d {
            assert(out@[k as int].0 == e);
        } else {
            assert(m.contains_key(e));
            let i = choose|i: int| 0 <= i < before.len() && (#[trigger] before[i]).0 == e;
            if i < k {
                assert(out@[i] == before[i]);
            } else {
                assert(out@[i + 1] == before[i]);
            }
        }
    }
    true
}

/// Parse a reported-positions file: an `account` column, holding a
/// dimension number or an account's name, and an `amount` or `balance`
/// column. Each account once, in dimension order.
pub fn parse_reported(csv: &str, chart: &[Account]) -> (r: Result<Vec<(i64, i64)>, Rejection>)
    ensures
        match r {
            Ok(v) => reported_of(csv@, chart@) matches Ok(m) && lists(v@, m),
            Err(e) => reported_of(csv@, chart@) == Err::<Map<i64, i64>, Rejected>((e.reason, e.text@)),
        },
{
    let lines = filled_lines(csv);
    let ghost ls = filled(lines_of(csv@));
    proof { lemma_texts_view_index(lines@); }
    if lines.len() == 0 {
        return Err(Rejection { reason: Reason::EmptyFile, text: String::from_str("the positions file is empty") });
    }
    let header = match split_csv_line(lines[0].as_str()) {
        Ok(h) => h,
        Err(e) => return Err(e),
    };
    let names = header_names(&header);
    proof {
        lemma_texts_view_index(header@);
        assert(texts_of(names@) =~= column_names(texts_view(header@)));
        assert(ls[0] == lines@[0]@);
    }
    let acct = match find_column(&names, "account") {
        Some(k) => k,
        None => return Err(no_column_error("account")),
    };
    let amt = match find_amount_column(&names) {
        Some(k) => k,
        None => return Err(Rejection { reason: Reason::ColumnMissing, text: String::from_str("no `amount` or `balance` column") }),
    };
    let ghost rows = ls.drop_first();
    assert(reported_of(csv@, chart@) == positions_from(rows, acct as int, amt as int, chart@));
    let mut out: Vec<(i64, i64)> = Vec::new();
    let ghost mut m: Map<i64, i64> = Map::empty();
    let mut i: usize = 1;
    assert(rows.take(0) =~= Seq::<Seq<char>>::empty());
    while i < lines.len()
        invariant
            1 <= i <= lines@.len(),
            ls == texts_view(lines@),
            ls.len() == lines@.len(),
            forall|k: int| 0 <= k < lines@.len() ==> #[trigger] ls[k] == lines@[k]@,
            rows == ls.drop_first(),
            reported_of(csv@, chart@) == positions_from(rows, acct as int, amt as int, chart@),
            positions_from(rows.take(i - 1), acct as int, amt as int, chart@) == Ok::<Map<i64, i64>, Rejected>(m),
            lists(out@, m),
        decreases lines@.len() - i,
    {
        let ghost t = rows.take(i as int);
        proof {
            assert(t.drop_last() =~= rows.take(i - 1));
            assert(t.last() == lines@[i as int]@);
        }
        match read_position(lines[i].as_str(), i + 1, acct, amt, chart) {
            Ok((d, a)) => {
                if !add_position(&mut out, d, a, Ghost(m)) {
                    let mut s = String::from_str("row ");
                    push_decimal(&mut s, (i + 1) as i128);
                    s.append(": account ");
                    push_decimal(&mut s, d as i128);
                    s.append(" appears twice in the positions file");
                    proof {
                        lemma_positions_refused_from(rows, acct as int, amt as int, chart@, i as int,
                            (Reason::AccountTwice, s@));
                    }
                    return Err(Rejection { reason: Reason::AccountTwice, text: s });
                }
                proof {
                    m = m.insert(d, a);
                }
            },
            Err(e) => {
                proof {
                    lemma_positions_refused_from(rows, acct as int, amt as int, chart@, i as int, (e.reason, e.text@));
                }
                return Err(e);
            },
        }
        i = i + 1;
    }
    assert(rows.take(lines@.len() - 1) =~= rows);
    Ok(out)
}

/// A refusal in a prefix of a positions file is the refusal of the file.
proof fn lemma_positions_refused_from(rows: Seq<Seq<char>>, acct: int, amt: int, chart: Seq<Account>, k: int, x: Rejected)
    requires
        0 <= k <= rows.len(),
        positions_from(rows.take(k), acct, amt, chart) == Err::<Map<i64, i64>, Rejected>(x),
    ensures
        positions_from(rows, acct, amt, chart) == Err::<Map<i64, i64>, Rejected>(x),
    decreases rows.len() - k,
{
    if k == rows.len() {
        assert(rows.take(k) =~= rows);
    } else {
        assert(rows.take(k + 1).drop_last() =~= rows.take(k));
        lemma_positions_refused_from(rows, acct, amt, chart, k + 1, x);
    }
}

} // verus!
