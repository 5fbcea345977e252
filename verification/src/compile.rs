//! Applying a rule to an event: scaling its template into postings.
//!
//! Compiling is not permitted to invent a leg or adjust a total: it scales,
//! and nothing else, so a template whose weights net to zero produces postings
//! that net to zero at every amount. Every leg's product is checked, because a
//! wrapped product of the other sign would still net to zero and tie.

use vstd::prelude::*;
use vstd::string::*;
use crate::chart::{PostingRecord, PostingView, postings_view, posted_net};
use crate::checked::{fits, overflow_message};
use crate::config::{Reason, Rejected, Rejection, overflow_rejected};
use crate::rules::{DayCount, Event, EventView, Leg, Rule, RuleKind, day_count_denominator, weights_net};
use crate::text::{decimal, push_decimal, push_quoted, quoted};

verus! {

/// Integer division rounding half away from zero.
pub open spec fn half_up(numerator: int, denominator: int) -> int {
    if numerator >= 0 {
        (numerator + denominator / 2) / denominator
    } else {
        -((-numerator + denominator / 2) / denominator)
    }
}

/// Integer division rounding half away from zero.
pub fn round_half_up(numerator: i128, denominator: i128) -> (r: i128)
    requires
        denominator > 0,
        numerator > i128::MIN,
        (if numerator >= 0 { numerator as int } else { -numerator }) + denominator / 2 <= i128::MAX,
    ensures
        r == half_up(numerator as int, denominator as int),
{
    if numerator >= 0 {
        (numerator + denominator / 2) / denominator
    } else {
        -((-numerator + denominator / 2) / denominator)
    }
}

/// Rounding is symmetric about zero: a credit rounds to the negation of the
/// debit of the same size.
pub proof fn law_rounding_is_symmetric(numerator: int, denominator: int)
    requires
        denominator > 0,
    ensures
        half_up(-numerator, denominator) == -half_up(numerator, denominator),
{
    if numerator > 0 {
        assert(-numerator < 0);
        assert(-(-numerator) == numerator);
    } else if numerator == 0 {
        assert(half_up(0, denominator) == (denominator / 2) / denominator);
        assert((denominator / 2) / denominator == 0) by (nonlinear_arith)
            requires
                denominator > 0,
        ;
    }
}

/// The accrued amount, `basis × rate × days ÷ (10 000 × year)`, rounded half
/// up, before it is asked whether it fits in 64 bits.
pub open spec fn accrued(basis: int, rate: int, days: int, d: DayCount) -> int {
    half_up(basis * rate * days, 10_000 * day_count_denominator(d))
}

/// Whether the accrual's exact numerator fits the 128 bits it is computed in.
pub open spec fn accrual_computable(basis: int, rate: int, days: int, d: DayCount) -> bool {
    let n = basis * rate * days;
    i128::MIN < n && (if n >= 0 { n } else { -n }) + 10_000 * day_count_denominator(d) / 2 <= i128::MAX
}

/// The accrual over an elected rate and convention: refused over a negative
/// number of days, or where the figure does not fit in 64 bits.
pub open spec fn accrual_of(rate: i64, d: DayCount, basis: i64, days: i64, event_id: Seq<char>) -> Result<int, Rejected> {
    if days < 0 {
        Err((Reason::NegativeDays,
            "event "@ + quoted(event_id) + " accrues over "@ + decimal(days as int) + " days"@))
    } else if fits(accrued(basis as int, rate as int, days as int, d)) {
        Ok(accrued(basis as int, rate as int, days as int, d))
    } else {
        Err((Reason::AccrualTooLarge, "accrual for "@ + quoted(event_id) + " does not fit in i64"@))
    }
}

/// What an accrual rule accrues for an event, or why it cannot.
pub open spec fn accrual_result(rule: Rule, event: EventView) -> Result<int, Rejected> {
    match rule.rate_bp {
        None => Err((Reason::RateMissing, "rule "@ + quoted(rule.id@) + " is an accrual with no rate"@)),
        Some(rate) => match rule.day_count {
            None => Err((Reason::DayCountMissing, "rule "@ + quoted(rule.id@) + " is an accrual with no day-count"@)),
            Some(d) => match event.days {
                None => Err((Reason::DaysMissing,
                    "event "@ + quoted(event.id) + " accrues but does not say over how many days"@)),
                Some(days) => accrual_of(rate, d, event.amount, days, event.id),
            },
        },
    }
}

/// Whether an event's accrual, if the rule computes one, can be computed in
/// 128 bits.
pub open spec fn compile_computable(rule: Rule, event: EventView) -> bool {
    rule.kind == RuleKind::Accrual && rule.rate_bp is Some && rule.day_count is Some && event.days is Some
        && event.days.unwrap() >= 0 ==>
        accrual_computable(event.amount as int, rule.rate_bp.unwrap() as int, event.days.unwrap() as int,
            rule.day_count.unwrap())
}

pub(crate) fn computed_accrual(rate: i64, d: DayCount, basis: i64, days: i64, event_id: &str) -> (r: Result<i64, Rejection>)
    requires
        days >= 0 ==> accrual_computable(basis as int, rate as int, days as int, d),
    ensures
        match r {
            Ok(v) => accrual_of(rate, d, basis, days, event_id@) == Ok::<int, Rejected>(v as int),
            Err(e) => accrual_of(rate, d, basis, days, event_id@) == Err::<int, Rejected>((e.reason, e.text@)),
        },
{
    if days < 0 {
        let mut s = String::from_str("event ");
        push_quoted(&mut s, event_id);
        s.append(" accrues over ");
        push_decimal(&mut s, days as i128);
        s.append(" days");
        assert(s@ =~= "event "@ + quoted(event_id@) + " accrues over "@ + decimal(days as int) + " days"@);
        return Err(Rejection { reason: Reason::NegativeDays, text: s });
    }
    proof {
        assert(-0x4000_0000_0000_0000_0000_0000_0000_0000 <= basis * rate <= 0x4000_0000_0000_0000_0000_0000_0000_0000)
            by (nonlinear_arith)
            requires
                i64::MIN <= basis <= i64::MAX,
                i64::MIN <= rate <= i64::MAX,
        ;
    }
    let ab: i128 = (basis as i128) * (rate as i128);
    let numerator: i128 = ab * (days as i128);
    let denominator: i128 = 10_000i128 * d.denominator();
    let rounded = round_half_up(numerator, denominator);
    if rounded < i64::MIN as i128 || rounded > i64::MAX as i128 {
        let mut s = String::from_str("accrual for ");
        push_quoted(&mut s, event_id);
        s.append(" does not fit in i64");
        assert(s@ =~= "accrual for "@ + quoted(event_id@) + " does not fit in i64"@);
        return Err(Rejection { reason: Reason::AccrualTooLarge, text: s });
    }
    Ok(rounded as i64)
}

/// The accrued amount of an accrual rule for an event.
fn accrual_amount(rule: &Rule, event: &Event) -> (r: Result<i64, Rejection>)
    requires
        compile_computable(*rule, event@),
        rule.kind == RuleKind::Accrual,
    ensures
        match r {
            Ok(v) => accrual_result(*rule, event@) == Ok::<int, Rejected>(v as int),
            Err(e) => accrual_result(*rule, event@) == Err::<int, Rejected>((e.reason, e.text@)),
        },
{
    let rate = match rule.rate_bp {
        Some(r) => r,
        None => {
            let mut s = String::from_str("rule ");
            push_quoted(&mut s, rule.id.as_str());
            s.append(" is an accrual with no rate");
            assert(s@ =~= "rule "@ + quoted(rule.id@) + " is an accrual with no rate"@);
            return Err(Rejection { reason: Reason::RateMissing, text: s });
        },
    };
    let d = match rule.day_count {
        Some(d) => d,
        None => {
            let mut s = String::from_str("rule ");
            push_quoted(&mut s, rule.id.as_str());
            s.append(" is an accrual with no day-count");
            assert(s@ =~= "rule "@ + quoted(rule.id@) + " is an accrual with no day-count"@);
            return Err(Rejection { reason: Reason::DayCountMissing, text: s });
        },
    };
    let days = match event.days {
        Some(n) => n,
        None => {
            let mut s = String::from_str("event ");
            push_quoted(&mut s, event.id.as_str());
            s.append(" accrues but does not say over how many days");
            assert(s@ =~= "event "@ + quoted(event.id@) + " accrues but does not say over how many days"@);
            return Err(Rejection { reason: Reason::DaysMissing, text: s });
        },
    };
    computed_accrual(rate, d, event.amount, days, event.id.as_str())
}

/// The amount a rule posts for an event: the event's own for a trade, a
/// dividend or a mark; the computed accrual for an accrual.
pub open spec fn compile_amount(rule: Rule, event: EventView) -> Result<int, Rejected> {
    if rule.kind == RuleKind::Accrual {
        accrual_result(rule, event)
    } else {
        Ok(event.amount as int)
    }
}

/// The posting one leg makes of a value: per instrument when the leg is and
/// the event names one, with the units following the leg's sign.
pub open spec fn leg_posting(leg: Leg, value: int, event: EventView) -> PostingView {
    if leg.per_instrument && event.instrument is Some {
        PostingView {
            dim: leg.account,
            amount: value as i64,
            currency: None,
            instrument: Some(event.instrument.unwrap()),
            quantity: match event.quantity {
                Some(q) => Some(if leg.weight < 0 { (-q) as i64 } else { q }),
                None => None,
            },
        }
    } else {
        PostingView { dim: leg.account, amount: value as i64, currency: None, instrument: None, quantity: None }
    }
}

/// What compiling a rule for an event gives: one posting per leg, each the
/// leg's weight times the amount; or why not.
pub open spec fn compile_result(rule: Rule, event: EventView) -> Result<Seq<PostingView>, Rejected> {
    match compile_amount(rule, event) {
        Err(e) => Err(e),
        Ok(a) => if exists|i: int| 0 <= i < rule.legs@.len() && !fits(#[trigger] rule.legs@[i].weight * a) {
            Err(overflow_rejected("a posting leg"@))
        } else {
            Ok(Seq::new(rule.legs@.len(), |i: int| leg_posting(rule.legs@[i], rule.legs@[i].weight * a, event)))
        },
    }
}

/// Whether negating an event's units, where a credit leg carries them, fits.
pub open spec fn units_negatable(rule: Rule, event: EventView) -> bool {
    event.instrument is Some && (exists|i: int| 0 <= i < rule.legs@.len()
        && #[trigger] rule.legs@[i].per_instrument && rule.legs@[i].weight < 0)
        ==> event.quantity != Some(i64::MIN)
}

/// Apply a rule to an event, producing postings.
pub fn compile(rule: &Rule, event: &Event) -> (r: Result<Vec<PostingRecord>, Rejection>)
    requires
        compile_computable(*rule, event@),
        units_negatable(*rule, event@),
    ensures
        match r {
            Ok(ps) => compile_result(*rule, event@) == Ok::<Seq<PostingView>, Rejected>(postings_view(ps@)),
            Err(e) => compile_result(*rule, event@) == Err::<Seq<PostingView>, Rejected>((e.reason, e.text@)),
        },
{
    let amount: i64 = match rule.kind {
        RuleKind::Accrual => match accrual_amount(rule, event) {
            Ok(v) => v,
            Err(e) => return Err(e),
        },
        _ => event.amount,
    };
    let ghost legs = rule.legs@;
    let mut out: Vec<PostingRecord> = Vec::new();
    let mut i: usize = 0;
    while i < rule.legs.len()
        invariant
            0 <= i <= legs.len(),
            legs == rule.legs@,
            compile_amount(*rule, event@) == Ok::<int, Rejected>(amount as int),
            units_negatable(*rule, event@),
            out@.len() == i,
            forall|k: int| 0 <= k < i ==> fits(#[trigger] legs[k].weight * amount),
            forall|k: int| 0 <= k < i ==> (#[trigger] out@[k])@ == leg_posting(legs[k], legs[k].weight * amount, event@),
        decreases legs.len() - i,
    {
        let leg = rule.legs[i];
        let value = match crate::checked::mul(leg.weight, amount, "a posting leg") {
            Ok(v) => v,
            Err(o) => {
                proof {
                    reveal_strlit("a posting leg");
                    assert(!fits(legs[i as int].weight * amount));
                }
                return Err(Rejection::overflow(o));
            },
        };
        let p = match (&event.instrument, leg.per_instrument) {
            (Some(inst), true) => {
                let q = match event.quantity {
                    Some(q) => Some(if leg.weight < 0 {
                        proof {
                            assert(rule.legs@[i as int].per_instrument && rule.legs@[i as int].weight < 0);
                        }
                        -q
                    } else {
                        q
                    }),
                    None => None,
                };
                PostingRecord::of(leg.account, value, inst.as_str(), q)
            },
            _ => PostingRecord::new(leg.account, value),
        };
        out.push(p);
        i = i + 1;
    }
    proof {
        assert(postings_view(out@) =~= Seq::new(legs.len(), |k: int| leg_posting(legs[k], legs[k].weight * amount, event@)));
    }
    Ok(out)
}

/// The postings of a template scaled by an amount net to the template's net
/// times the amount.
proof fn lemma_scaled_net(legs: Seq<Leg>, a: int, event: EventView)
    requires
        forall|i: int| 0 <= i < legs.len() ==> fits(#[trigger] legs[i].weight * a),
    ensures
        posted_net(Seq::new(legs.len(), |i: int| leg_posting(legs[i], legs[i].weight * a, event)))
            == weights_net(legs) * a,
    decreases legs.len(),
{
    let s = Seq::new(legs.len(), |i: int| leg_posting(legs[i], legs[i].weight * a, event));
    if legs.len() > 0 {
        let d = legs.drop_last();
        assert forall|i: int| 0 <= i < d.len() implies fits(#[trigger] d[i].weight * a) by {
            assert(d[i] == legs[i]);
        }
        lemma_scaled_net(d, a, event);
        assert(s.drop_last() =~= Seq::new(d.len(), |i: int| leg_posting(d[i], d[i].weight * a, event)));
        assert(fits(legs[legs.len() - 1].weight * a));
        assert(s.last().amount == legs.last().weight * a);
        assert(weights_net(legs) * a == weights_net(d) * a + legs.last().weight * a) by (nonlinear_arith)
            requires
                weights_net(legs) == weights_net(d) + legs.last().weight,
        ;
    }
}

/// A template whose weights net to zero nets to zero at every amount: every
/// set of postings compiled from a balanced rule balances.
pub proof fn law_a_balanced_template_balances(rule: Rule, event: EventView)
    requires
        weights_net(rule.legs@) == 0,
        compile_result(rule, event) is Ok,
    ensures
        compile_result(rule, event) matches Ok(ps) && posted_net(ps) == 0,
{
    if let Ok(a) = compile_amount(rule, event) {
        lemma_scaled_net(rule.legs@, a, event);
    }
}

} // verus!

verus! {

/// Units follow the leg, not the event: where a rule compiles, a leg that
/// posts per instrument carries the event's units into the position on a
/// debit leg and out of it on a credit leg, so a sale's credit leg removes
/// the shares it sells.
pub proof fn law_units_follow_the_leg(rule: Rule, event: EventView, i: int)
    requires
        compile_result(rule, event) is Ok,
        0 <= i < rule.legs@.len(),
        rule.legs@[i].per_instrument,
        event.instrument is Some,
        event.quantity matches Some(q) && q != i64::MIN,
    ensures
        ({
            let x = compile_result(rule, event)->Ok_0[i];
            let q = event.quantity.unwrap();
            &&& x.instrument == event.instrument
            &&& x.quantity is Some
            &&& rule.legs@[i].weight < 0 ==> x.quantity.unwrap() == -q
            &&& rule.legs@[i].weight > 0 ==> x.quantity.unwrap() == q
        }),
{
}

} // verus!
