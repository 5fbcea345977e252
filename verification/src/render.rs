//! A rule rendered in the `rule … { }` form a person reads.
//!
//! Nobody writes this syntax and nothing parses it: rules are data, and this
//! is a one-way projection of them for a review, a demo or an audit.

use vstd::prelude::*;
use vstd::string::*;
use crate::chart::{Account, account_at, find_account};
use crate::rules::{DayCount, Leg, Rule, RuleKind};
use crate::text::{chars_of, decimal, push_char, push_decimal};

verus! {

/// What a rule of a kind is triggered by, as the rendering says it.
pub open spec fn trigger_text(kind: RuleKind) -> Seq<char> {
    match kind {
        RuleKind::Trade => "trade t"@,
        RuleKind::Dividend => "dividend d"@,
        RuleKind::Accrual => "business_day d"@,
        RuleKind::Mark => "valuation v"@,
    }
}

fn trigger(kind: RuleKind) -> (r: &'static str)
    ensures
        r@ == trigger_text(kind),
{
    match kind {
        RuleKind::Trade => "trade t",
        RuleKind::Dividend => "dividend d",
        RuleKind::Accrual => "business_day d",
        RuleKind::Mark => "valuation v",
    }
}

/// A convention as the rendering writes it.
pub open spec fn rendered_day_count(dc: DayCount) -> Seq<char> {
    match dc {
        DayCount::Act365 => "ACT/365"@,
        DayCount::Act360 => "ACT/360"@,
        DayCount::Thirty360 => "30/360"@,
    }
}

fn day_count(dc: DayCount) -> (r: &'static str)
    ensures
        r@ == rendered_day_count(dc),
{
    match dc {
        DayCount::Act365 => "ACT/365",
        DayCount::Act360 => "ACT/360",
        DayCount::Thirty360 => "30/360",
    }
}

/// Whether a character is an ASCII letter or digit.
pub open spec fn ascii_alnum(c: char) -> bool {
    ('a' <= c && c <= 'z') || ('A' <= c && c <= 'Z') || ('0' <= c && c <= '9')
}

/// A character in ASCII lower case.
pub open spec fn ascii_lower(c: char) -> char {
    if 'A' <= c && c <= 'Z' { ((c as u8) + 32) as char } else { c }
}

/// A display name read left to right: the machine name so far, and whether a
/// separator is owed before the next letter or digit.
pub open spec fn machine_state(s: Seq<char>) -> (Seq<char>, bool)
    decreases s.len(),
{
    if s.len() == 0 {
        (Seq::empty(), false)
    } else {
        let prev = machine_state(s.drop_last());
        let c = s.last();
        if ascii_alnum(c) {
            ((if prev.1 && prev.0.len() > 0 { prev.0.push('_') } else { prev.0 }).push(ascii_lower(c)), false)
        } else {
            (prev.0, true)
        }
    }
}

/// The machine name of a display name: its runs of ASCII letters and digits,
/// lower-cased, joined by single underscores.
pub open spec fn machine(s: Seq<char>) -> Seq<char> {
    machine_state(s).0
}

/// "Management fee expense" becomes `management_fee_expense`. Cosmetic only:
/// the identity of an account is its dimension.
pub fn machine_name(display: &str) -> (r: String)
    ensures
        r@ == machine(display@),
{
    let cs = chars_of(display);
    let mut out = String::new();
    let mut owed = false;
    let mut i: usize = 0;
    while i < cs.len()
        invariant
            0 <= i <= cs@.len(),
            cs@ == display@,
            (out@, owed) == machine_state(cs@.take(i as int)),
        decreases cs@.len() - i,
    {
        proof {
            assert(cs@.take(i + 1).drop_last() =~= cs@.take(i as int));
            assert(cs@.take(i + 1).last() == cs@[i as int]);
        }
        let c = cs[i];
        if ('a' <= c && c <= 'z') || ('A' <= c && c <= 'Z') || ('0' <= c && c <= '9') {
            if owed && out.unicode_len() > 0 {
                push_char(&mut out, '_');
            }
            let lower: char = if 'A' <= c && c <= 'Z' { ((c as u8) + 32) as char } else { c };
            push_char(&mut out, lower);
            owed = false;
        } else {
            owed = true;
        }
        i = i + 1;
    }
    assert(cs@.take(cs@.len() as int) =~= display@);
    out
}

/// What a rendering calls an account: its machine name in the chart, or the
/// bare dimension.
pub open spec fn account_label(dim: i64, chart: Seq<Account>) -> Seq<char> {
    match account_at(chart, dim) {
        Some(i) => machine(chart[i].display_name@),
        None => "account "@ + decimal(dim as int),
    }
}

/// The legs that debit, in order.
pub open spec fn debits(legs: Seq<Leg>) -> Seq<Leg>
    decreases legs.len(),
{
    if legs.len() == 0 {
        Seq::empty()
    } else if legs.last().weight > 0 {
        debits(legs.drop_last()).push(legs.last())
    } else {
        debits(legs.drop_last())
    }
}

/// The legs that do not debit, in order.
pub open spec fn credits(legs: Seq<Leg>) -> Seq<Leg>
    decreases legs.len(),
{
    if legs.len() == 0 {
        Seq::empty()
    } else if legs.last().weight > 0 {
        credits(legs.drop_last())
    } else {
        credits(legs.drop_last()).push(legs.last())
    }
}

/// One leg's line: the label on the first, the side, the account, and the
/// multiple where it is not one.
pub open spec fn leg_line(leg: Leg, first: bool, chart: Seq<Account>) -> Seq<char> {
    let magnitude: int = if leg.weight < 0 { -leg.weight } else { leg.weight as int };
    (if first { "  posts      "@ } else { "             "@ })
        + (if leg.weight > 0 { "debit "@ } else { "credit"@ })
        + "  "@ + account_label(leg.account, chart)
        + (if magnitude == 1 { Seq::empty() } else { "  × "@ + decimal(magnitude) })
        + "\n"@
}

/// The lines of a run of legs, the first labelled.
pub open spec fn legs_lines(legs: Seq<Leg>, chart: Seq<Account>) -> Seq<char>
    decreases legs.len(),
{
    if legs.len() == 0 {
        Seq::empty()
    } else {
        legs_lines(legs.drop_last(), chart) + leg_line(legs.last(), legs.len() == 1, chart)
    }
}

/// The rendering of a rule: its description, its name, its trigger, its
/// rate and convention where it has them, its debits then its credits.
pub open spec fn rendering(rule: Rule, chart: Seq<Account>) -> Seq<char> {
    (if rule.description@.len() > 0 { "-- "@ + rule.description@ + "\n"@ } else { Seq::empty() })
        + "rule "@ + rule.id@ + " {\n"@
        + "  when       "@ + trigger_text(rule.kind) + "\n"@
        + (match rule.rate_bp {
            Some(rate) => "  rate       "@ + decimal(rate as int) + "bp / year\n"@,
            None => Seq::empty(),
        })
        + (match rule.day_count {
            Some(dc) => "  day_count  "@ + rendered_day_count(dc) + "\n"@,
            None => Seq::empty(),
        })
        + legs_lines(debits(rule.legs@) + credits(rule.legs@), chart)
        + "}\n"@
}

fn push_label(out: &mut String, dim: i64, chart: &[Account])
    ensures
        final(out)@ == old(out)@ + account_label(dim, chart@),
{
    match find_account(chart, dim) {
        Some(i) => {
            let n = machine_name(chart[i].display_name.as_str());
            out.append(n.as_str());
        },
        None => {
            out.append("account ");
            push_decimal(out, dim as i128);
            assert(out@ =~= old(out)@ + account_label(dim, chart@));
        },
    }
}

fn push_multiple(out: &mut String, weight: i64)
    requires
        weight != i64::MIN,
    ensures
        final(out)@ == old(out)@ + (if (if weight < 0 { -weight } else { weight as int }) == 1 { Seq::empty() } else {
            "  × "@ + decimal(if weight < 0 { -weight } else { weight as int })
        }),
{
    let magnitude: i64 = if weight < 0 { -weight } else { weight };
    if magnitude != 1 {
        out.append("  × ");
        push_decimal(out, magnitude as i128);
        assert(out@ =~= old(out)@ + ("  × "@ + decimal(magnitude as int)));
    } else {
        assert(out@ =~= old(out)@ + Seq::<char>::empty());
    }
}

fn push_leg(out: &mut String, leg: Leg, first: bool, chart: &[Account])
    requires
        leg.weight != i64::MIN,
    ensures
        final(out)@ == old(out)@ + leg_line(leg, first, chart@),
{
    let ghost s0 = out@;
    if first {
        out.append("  posts      ");
    } else {
        out.append("             ");
    }
    let ghost s1 = out@;
    if leg.weight > 0 {
        out.append("debit ");
    } else {
        out.append("credit");
    }
    let ghost s2 = out@;
    out.append("  ");
    let ghost s3 = out@;
    push_label(out, leg.account, chart);
    let ghost s4 = out@;
    push_multiple(out, leg.weight);
    let ghost s5 = out@;
    out.append("\n");
    proof {
        let a = if first { "  posts      "@ } else { "             "@ };
        let b = if leg.weight > 0 { "debit "@ } else { "credit"@ };
        let m: int = if leg.weight < 0 { -leg.weight } else { leg.weight as int };
        let c = account_label(leg.account, chart@);
        let d = if m == 1 { Seq::<char>::empty() } else { "  × "@ + decimal(m) };
        assert(s1 == s0 + a);
        assert(s2 == s1 + b);
        assert(s3 == s2 + "  "@);
        assert(s4 == s3 + c);
        assert(s5 == s4 + d);
        assert(leg_line(leg, first, chart@) == a + b + "  "@ + c + d + "\n"@);
        assert(out@ =~= s0 + (a + b + "  "@ + c + d + "\n"@));
    }
}

/// Render a rule, naming accounts from the chart where it can and by bare
/// dimension where it cannot.
pub fn render(rule: &Rule, chart: &[Account]) -> (r: String)
    requires
        forall|k: int| 0 <= k < rule.legs@.len() ==> (#[trigger] rule.legs@[k]).weight != i64::MIN,
    ensures
        r@ == rendering(*rule, chart@),
{
    let mut out = String::new();
    if rule.description.as_str().unicode_len() > 0 {
        out.append("-- ");
        out.append(rule.description.as_str());
        out.append("\n");
    }
    out.append("rule ");
    out.append(rule.id.as_str());
    out.append(" {\n");
    out.append("  when       ");
    out.append(trigger(rule.kind));
    out.append("\n");
    if let Some(rate) = rule.rate_bp {
        out.append("  rate       ");
        push_decimal(&mut out, rate as i128);
        out.append("bp / year\n");
    }
    if let Some(dc) = rule.day_count {
        out.append("  day_count  ");
        out.append(day_count(dc));
        out.append("\n");
    }
    let ghost head = out@;
    let mut debit: Vec<Leg> = Vec::new();
    let mut credit: Vec<Leg> = Vec::new();
    let mut i: usize = 0;
    while i < rule.legs.len()
        invariant
            0 <= i <= rule.legs@.len(),
            debit@ == debits(rule.legs@.take(i as int)),
            credit@ == credits(rule.legs@.take(i as int)),
        decreases rule.legs@.len() - i,
    {
        proof {
            assert(rule.legs@.take(i + 1).drop_last() =~= rule.legs@.take(i as int));
        }
        let leg = rule.legs[i];
        if leg.weight > 0 {
            debit.push(leg);
        } else {
            credit.push(leg);
        }
        i = i + 1;
    }
    assert(rule.legs@.take(rule.legs@.len() as int) =~= rule.legs@);
    let mut ordered = debit;
    let mut k: usize = 0;
    let ghost d = ordered@;
    while k < credit.len()
        invariant
            0 <= k <= credit@.len(),
            ordered@ == d + credit@.take(k as int),
        decreases credit@.len() - k,
    {
        ordered.push(credit[k]);
        k = k + 1;
        assert(ordered@ =~= d + credit@.take(k as int));
    }
    assert(credit@.take(credit@.len() as int) =~= credit@);
    proof {
        lemma_ordered_legs(rule.legs@);
    }
    let mut j: usize = 0;
    while j < ordered.len()
        invariant
            0 <= j <= ordered@.len(),
            ordered@ == debits(rule.legs@) + credits(rule.legs@),
            forall|m: int| 0 <= m < ordered@.len() ==> (#[trigger] ordered@[m]).weight != i64::MIN,
            out@ == head + legs_lines(ordered@.take(j as int), chart@),
        decreases ordered@.len() - j,
    {
        proof {
            assert(ordered@.take(j + 1).drop_last() =~= ordered@.take(j as int));
        }
        push_leg(&mut out, ordered[j], j == 0, chart);
        j = j + 1;
    }
    assert(ordered@.take(ordered@.len() as int) =~= ordered@);
    out.append("}\n");
    assert(out@ =~= rendering(*rule, chart@));
    out
}

proof fn lemma_ordered_legs(legs: Seq<Leg>)
    ensures
        forall|m: int| 0 <= m < debits(legs).len() ==> exists|k: int| 0 <= k < legs.len() && #[trigger] debits(legs)[m] == legs[k],
        forall|m: int| 0 <= m < credits(legs).len() ==> exists|k: int| 0 <= k < legs.len() && #[trigger] credits(legs)[m] == legs[k],
    decreases legs.len(),
{
    if legs.len() > 0 {
        lemma_ordered_legs(legs.drop_last());
        assert forall|m: int| 0 <= m < debits(legs).len() implies exists|k: int| 0 <= k < legs.len() && #[trigger] debits(legs)[m] == legs[k] by {
            if m < debits(legs.drop_last()).len() {
                let k = choose|k: int| 0 <= k < legs.drop_last().len() && debits(legs.drop_last())[m] == legs.drop_last()[k];
                assert(legs.drop_last()[k] == legs[k]);
            } else {
                assert(debits(legs)[m] == legs[legs.len() - 1]);
            }
        }
        assert forall|m: int| 0 <= m < credits(legs).len() implies exists|k: int| 0 <= k < legs.len() && #[trigger] credits(legs)[m] == legs[k] by {
            if m < credits(legs.drop_last()).len() {
                let k = choose|k: int| 0 <= k < legs.drop_last().len() && credits(legs.drop_last())[m] == legs.drop_last()[k];
                assert(legs.drop_last()[k] == legs[k]);
            } else {
                assert(credits(legs)[m] == legs[legs.len() - 1]);
            }
        }
    }
}

} // verus!
