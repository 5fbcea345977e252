//! Management-fee accrual: elected terms, and a receivable that stays unset
//! until something is posted.
//!
//! A book that never elected a fee reports no receivable rather than a silent
//! zero, and a zero rate is not an election. An accrual is a pair: expense
//! debit and receivable credit, opposite signs of one amount.

use vstd::prelude::*;
use crate::compile::{accrual_computable, accrual_of, accrued, computed_accrual};
use crate::config::{Rejected, Rejection};
use crate::findings::FEE_RULE_ID;
use crate::rules::{DayCount, Leg, Rule, RuleKind, RuleSet, first_rule};

verus! {

/// Elected fee terms, read from the management-fee accrual rule.
#[derive(Clone, Copy, Debug, PartialEq, Eq, Structural)]
pub struct FeeTerms {
    pub rate_bp: i64,
    pub day_count: DayCount,
    /// The debit-weight account: management fee expense.
    pub expense: i64,
    /// The credit-weight account: management fee payable or receivable.
    pub receivable: i64,
}

/// The first leg of a template whose weight has a sign: positive, or
/// negative.
pub open spec fn first_signed(legs: Seq<Leg>, positive: bool) -> Option<int> {
    if exists|i: int| 0 <= i < legs.len() && (if positive { legs[i].weight > 0 } else { legs[i].weight < 0 })
        && forall|j: int| 0 <= j < i ==> !(if positive { legs[j].weight > 0 } else { legs[j].weight < 0 }) {
        Some(choose|i: int| 0 <= i < legs.len() && (if positive { legs[i].weight > 0 } else { legs[i].weight < 0 })
            && forall|j: int| 0 <= j < i ==> !(if positive { legs[j].weight > 0 } else { legs[j].weight < 0 }))
    } else {
        None
    }
}

/// The terms a fee rule elects: an accrual at a positive rate under a
/// convention, whose first debit and first credit legs name two accounts.
pub open spec fn terms_of_rule(r: Rule) -> Option<FeeTerms> {
    if r.kind == RuleKind::Accrual && r.rate_bp is Some && r.rate_bp.unwrap() > 0 && r.day_count is Some
        && first_signed(r.legs@, true) is Some && first_signed(r.legs@, false) is Some
        && r.legs@[first_signed(r.legs@, true).unwrap()].account != r.legs@[first_signed(r.legs@, false).unwrap()].account {
        Some(FeeTerms {
            rate_bp: r.rate_bp.unwrap(),
            day_count: r.day_count.unwrap(),
            expense: r.legs@[first_signed(r.legs@, true).unwrap()].account,
            receivable: r.legs@[first_signed(r.legs@, false).unwrap()].account,
        })
    } else {
        None
    }
}

/// The elected fee terms of a configuration, or silence.
pub open spec fn fee_terms_of(set: RuleSet) -> Option<FeeTerms> {
    match first_rule(set.rules@, FEE_RULE_ID@) {
        Some(i) => terms_of_rule(set.rules@[i]),
        None => None,
    }
}

fn first_leg(legs: &Vec<Leg>, positive: bool) -> (r: Option<usize>)
    ensures
        match r {
            Some(i) => first_signed(legs@, positive) == Some(i as int) && i < legs@.len(),
            None => first_signed(legs@, positive) is None,
        },
{
    let mut i: usize = 0;
    while i < legs.len()
        invariant
            0 <= i <= legs@.len(),
            forall|j: int| 0 <= j < i ==> !(if positive { legs@[j].weight > 0 } else { legs@[j].weight < 0 }),
        decreases legs@.len() - i,
    {
        let w = legs[i].weight;
        if (positive && w > 0) || (!positive && w < 0) {
            proof {
                let k = i as int;
                let c = choose|c: int| 0 <= c < legs@.len() && (if positive { legs@[c].weight > 0 } else { legs@[c].weight < 0 })
                    && forall|j: int| 0 <= j < c ==> !(if positive { legs@[j].weight > 0 } else { legs@[j].weight < 0 });
                assert(c == k) by {
                    if c < k {
                    } else if c > k {
                    }
                }
            }
            return Some(i);
        }
        i = i + 1;
    }
    None
}

impl RuleSet {
    /// The elected management-fee terms, or silence: the rule missing, of
    /// another kind, at a rate that is not positive, without a convention, or
    /// without a distinct expense and receivable is no election.
    pub fn fee_terms(&self) -> (r: Option<FeeTerms>)
        ensures
            r == fee_terms_of(*self),
    {
        let rule = match self.rule(FEE_RULE_ID) {
            Some(r) => r,
            None => return None,
        };
        if rule.kind != RuleKind::Accrual {
            return None;
        }
        let rate_bp = match rule.rate_bp {
            Some(n) => if n > 0 { n } else { return None },
            None => return None,
        };
        let day_count = match rule.day_count {
            Some(d) => d,
            None => return None,
        };
        let e = match first_leg(&rule.legs, true) {
            Some(i) => i,
            None => return None,
        };
        let c = match first_leg(&rule.legs, false) {
            Some(i) => i,
            None => return None,
        };
        let expense = rule.legs[e].account;
        let receivable = rule.legs[c].account;
        if expense == receivable {
            return None;
        }
        Some(FeeTerms { rate_bp, day_count, expense, receivable })
    }
}

/// What accruing from terms gives: silence without terms or at a rate that
/// is not positive, silence where the amount is zero, and otherwise the
/// expense debit and receivable credit of one amount.
pub open spec fn accrue_result(terms: Option<FeeTerms>, basis: i64, days: i64) -> Result<Option<(int, int)>, Rejected> {
    match terms {
        None => Ok(None),
        Some(t) => if t.rate_bp <= 0 {
            Ok(None)
        } else {
            match accrual_of(t.rate_bp, t.day_count, basis, days, FEE_RULE_ID@) {
                Err(e) => Err(e),
                Ok(a) => if a == 0 { Ok(None) } else { Ok(Some((a, -a))) },
            }
        },
    }
}

/// Terms passed by reference, taken as a value.
pub open spec fn terms_value(terms: Option<&FeeTerms>) -> Option<FeeTerms> {
    match terms {
        Some(t) => Some(*t),
        None => None,
    }
}

/// Accrue from elected terms.
pub fn accrue(terms: Option<&FeeTerms>, basis: i64, days: i64) -> (r: Result<Option<(i64, i64)>, Rejection>)
    requires
        match terms {
            Some(t) => t.rate_bp > 0 && days >= 0 ==> accrual_computable(basis as int, t.rate_bp as int, days as int, t.day_count)
                && accrued(basis as int, t.rate_bp as int, days as int, t.day_count) != i64::MIN,
            None => true,
        },
    ensures
        match r {
            Ok(None) => accrue_result(terms_value(terms), basis, days) == Ok::<Option<(int, int)>, Rejected>(None),
            Ok(Some((a, b))) => accrue_result(terms_value(terms), basis, days) == Ok::<Option<(int, int)>, Rejected>(Some((a as int, b as int)))
                && a + b == 0,
            Err(e) => accrue_result(terms_value(terms), basis, days) == Err::<Option<(int, int)>, Rejected>((e.reason, e.text@)),
        },
{
    let t = match terms {
        Some(t) => t,
        None => return Ok(None),
    };
    if t.rate_bp <= 0 {
        return Ok(None);
    }
    let amount = match computed_accrual(t.rate_bp, t.day_count, basis, days, FEE_RULE_ID) {
        Ok(a) => a,
        Err(e) => return Err(e),
    };
    if amount == 0 {
        return Ok(None);
    }
    Ok(Some((amount, -amount)))
}

/// The sum of a run of figures.
pub open spec fn sum_of(s: Seq<i64>) -> int
    decreases s.len(),
{
    if s.len() == 0 {
        0
    } else {
        sum_of(s.drop_last()) + s.last()
    }
}

/// Whether every running sum of a run of figures fits in 64 bits.
pub open spec fn sums_fit(s: Seq<i64>) -> bool {
    forall|k: int| 0 <= k <= s.len() ==> crate::checked::fits(#[trigger] sum_of(s.take(k)))
}

/// The citeable receivable: unset without terms, at a rate that is not
/// positive, or with nothing posted; otherwise what was posted, which may be
/// a real zero.
pub fn fee_receivable(terms: Option<&FeeTerms>, posted: &[i64]) -> (r: Option<i64>)
    requires
        match terms {
            Some(t) => t.rate_bp > 0 ==> sums_fit(posted@),
            None => true,
        },
    ensures
        r == (match terms {
            Some(t) => if t.rate_bp > 0 && posted@.len() > 0 { Some(sum_of(posted@) as i64) } else { None },
            None => None,
        }),
{
    let t = match terms {
        Some(t) => t,
        None => return None,
    };
    if t.rate_bp <= 0 || posted.len() == 0 {
        return None;
    }
    let mut total: i64 = 0;
    let mut i: usize = 0;
    while i < posted.len()
        invariant
            0 <= i <= posted@.len(),
            t.rate_bp > 0,
            terms == Some(t),
            sums_fit(posted@),
            total == sum_of(posted@.take(i as int)),
        decreases posted@.len() - i,
    {
        proof {
            assert(posted@.take(i + 1).drop_last() =~= posted@.take(i as int));
            assert(crate::checked::fits(sum_of(posted@.take(i + 1))));
        }
        total = total + posted[i];
        i = i + 1;
    }
    assert(posted@.take(posted@.len() as int) =~= posted@);
    Some(total)
}

} // verus!
