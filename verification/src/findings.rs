//! Checking a rule set against a chart of accounts.
//!
//! Every finding is reported rather than the first, so an author fixes a
//! configuration in one pass. The load-bearing obligation is that a template
//! balances: checked once here, it makes every posting the rule ever compiles
//! balance, at any amount. There is deliberately no check of which side a leg
//! posts to: crediting cash is what every purchase does, and a check that
//! cries wolf trains people to ignore the checks.

use vstd::prelude::*;
use vstd::string::*;
use vstd::view::View as _;
use crate::chart::{Account, AccountType, account_at, account_type_name, find_account, lemma_account_at};
use crate::rules::{Finding, FindingView, Leg, Rule, RuleKind, RuleSet, kind_text, weights_net};
use crate::text::{decimal, push_decimal};

verus! {

/// The id of the elected management-fee rule.
pub const FEE_RULE_ID: &'static str = "management_fee_accrual";

/// Findings, each taken as a value.
pub open spec fn findings_view(s: Seq<Finding>) -> Seq<FindingView> {
    s.map_values(|f: Finding| f@)
}

/// An error about a rule.
pub open spec fn err(rule: Seq<char>, message: Seq<char>) -> FindingView {
    (rule, message, false)
}

/// A question for the author of a rule.
pub open spec fn ask(rule: Seq<char>, message: Seq<char>) -> FindingView {
    (rule, message, true)
}

/// What one leg of a rule draws.
pub open spec fn leg_findings(id: Seq<char>, leg: Leg, chart: Seq<Account>) -> Seq<FindingView> {
    match account_at(chart, leg.account) {
        None => seq![err(id, "posts to account "@ + decimal(leg.account as int)
            + " which is not in the chart of accounts. Add it, or point the rule at an existing account."@)],
        Some(i) => if leg.weight == 0 {
            seq![err(id, "gives "@ + chart[i].display_name@
                + " a weight of 0, so the leg never posts anything. Remove it, or give it a weight."@)]
        } else {
            Seq::empty()
        },
    }
}

/// What the legs of a rule draw, in order.
pub open spec fn legs_findings(id: Seq<char>, legs: Seq<Leg>, chart: Seq<Account>) -> Seq<FindingView>
    decreases legs.len(),
{
    if legs.len() == 0 {
        Seq::empty()
    } else {
        legs_findings(id, legs.drop_last(), chart) + leg_findings(id, legs.last(), chart)
    }
}

/// What a rule's rate and convention draw.
pub open spec fn terms_findings(r: Rule) -> Seq<FindingView> {
    let id = r.id@;
    if r.kind == RuleKind::Accrual {
        (if r.rate_bp is None {
            seq![err(id, "is an accrual with no rate. Set `rate_bp` — 75 basis points a year is `rate_bp = 75`."@)]
        } else {
            Seq::empty()
        }) + (if r.day_count is None {
            seq![ask(id, "is an accrual with no day-count convention. Which applies — act/365, act/360 or 30/360?"@)]
        } else {
            Seq::empty()
        }) + (match r.rate_bp {
            Some(rate) => if rate < 0 {
                seq![err(id, "has a negative rate ("@ + decimal(rate as int)
                    + " bp). A rebate is a separate rule, not a negative fee."@)]
            } else if rate == 0 && id == FEE_RULE_ID@ {
                seq![err(id, "has a zero rate, and a zero rate is not an election: a management fee at 0 bp would report a silent zero receivable. Omit the rule."@)]
            } else {
                Seq::empty()
            },
            None => Seq::empty(),
        })
    } else if r.rate_bp is Some || r.day_count is Some {
        seq![ask(id, "is a "@ + kind_text(r.kind)
            + " rule but carries a rate or day-count, which only accruals use. They will be ignored — did you mean `kind = \"accrual\"`?"@)]
    } else {
        Seq::empty()
    }
}

/// What one rule draws: that it has no postings and nothing else; or that
/// it does not balance, then its legs, then its terms.
pub open spec fn rule_findings(r: Rule, chart: Seq<Account>) -> Seq<FindingView> {
    let id = r.id@;
    if r.legs@.len() == 0 {
        seq![err(id, "has no postings, so it cannot record anything. Add at least a debit and a credit."@)]
    } else {
        (if weights_net(r.legs@) != 0 {
            seq![err(id, "does not balance: the posting weights net to "@ + decimal(weights_net(r.legs@))
                + ", not 0. Every debit needs a matching credit — check the signs."@)]
        } else {
            Seq::empty()
        }) + legs_findings(id, r.legs@, chart) + terms_findings(r)
    }
}

/// What the rules draw, in order.
pub open spec fn rules_findings(rules: Seq<Rule>, chart: Seq<Account>) -> Seq<FindingView>
    decreases rules.len(),
{
    if rules.len() == 0 {
        Seq::empty()
    } else {
        rules_findings(rules.drop_last(), chart) + rule_findings(rules.last(), chart)
    }
}

/// What the close destination draws.
pub open spec fn close_findings(set: RuleSet, chart: Seq<Account>) -> Seq<FindingView> {
    match set.close {
        None => Seq::empty(),
        Some(c) => match account_at(chart, c.equity_destination) {
            None => seq![err("close"@, "names equity destination "@ + decimal(c.equity_destination as int)
                + " which is not in the chart of accounts. Add it, or point [close] at an existing equity account. Ratio.Close.missing_destination_refuses_the_close"@)],
            Some(i) => if chart[i].account_type != AccountType::Equity {
                seq![err("close"@, "names equity destination "@ + decimal(c.equity_destination as int) + " ("@
                    + chart[i].display_name@ + ") which is "@ + account_type_name(chart[i].account_type)
                    + ", not equity. A close that rolled surplus into an income or asset account would move the residual off the sheet while the books still tied"@)]
            } else {
                Seq::empty()
            },
        },
    }
}

/// Every finding about a rule set against a chart.
pub open spec fn findings_of(set: RuleSet, chart: Seq<Account>) -> Seq<FindingView> {
    rules_findings(set.rules@, chart) + close_findings(set, chart)
}

/// A finding that says a template does not balance.
pub open spec fn says_unbalanced(f: FindingView) -> bool {
    exists|net: int| f.1 == "does not balance: the posting weights net to "@ + decimal(net)
        + ", not 0. Every debit needs a matching credit — check the signs."@
}

fn leg_check(out: &mut Vec<Finding>, id: &str, leg: Leg, chart: &[Account])
    ensures
        findings_view(final(out)@) == findings_view(old(out)@) + leg_findings(id@, leg, chart@),
{
    let ghost before = old(out)@;
    match find_account(chart, leg.account) {
        None => {
            let mut s = String::from_str("posts to account ");
            push_decimal(&mut s, leg.account as i128);
            s.append(" which is not in the chart of accounts. Add it, or point the rule at an existing account.");
            out.push(Finding::error(id, s));
        },
        Some(i) => {
            if leg.weight == 0 {
                let mut s = String::from_str("gives ");
                s.append(chart[i].display_name.as_str());
                s.append(" a weight of 0, so the leg never posts anything. Remove it, or give it a weight.");
                out.push(Finding::error(id, s));
            }
        },
    }
    assert(findings_view(out@) =~= findings_view(before) + leg_findings(id@, leg, chart@));
}

fn terms_check(out: &mut Vec<Finding>, rule: &Rule)
    ensures
        findings_view(final(out)@) == findings_view(old(out)@) + terms_findings(*rule),
{
    let ghost before = old(out)@;
    let id = rule.id.as_str();
    match rule.kind {
        RuleKind::Accrual => {
            if rule.rate_bp.is_none() {
                out.push(Finding::error(id, String::from_str("is an accrual with no rate. Set `rate_bp` — 75 basis points a year is `rate_bp = 75`.")));
            }
            let ghost mid1 = out@;
            if rule.day_count.is_none() {
                out.push(Finding::question(id, String::from_str("is an accrual with no day-count convention. Which applies — act/365, act/360 or 30/360?")));
            }
            let ghost mid2 = out@;
            if let Some(rate) = rule.rate_bp {
                if rate < 0 {
                    let mut s = String::from_str("has a negative rate (");
                    push_decimal(&mut s, rate as i128);
                    s.append(" bp). A rebate is a separate rule, not a negative fee.");
                    out.push(Finding::error(id, s));
                } else if rate == 0 && crate::text::str_eq(id, FEE_RULE_ID) {
                    out.push(Finding::error(id, String::from_str("has a zero rate, and a zero rate is not an election: a management fee at 0 bp would report a silent zero receivable. Omit the rule.")));
                }
            }
            assert(findings_view(out@) =~= findings_view(before) + terms_findings(*rule));
        },
        _ => {
            if rule.rate_bp.is_some() || rule.day_count.is_some() {
                let mut s = String::from_str("is a ");
                s.append(crate::rules::kind_word(rule.kind));
                s.append(" rule but carries a rate or day-count, which only accruals use. They will be ignored — did you mean `kind = \"accrual\"`?");
                out.push(Finding::question(id, s));
            }
            assert(findings_view(out@) =~= findings_view(before) + terms_findings(*rule));
        },
    }
}

/// The net of a template, exactly.
fn net_of(legs: &Vec<Leg>) -> (r: i128)
    ensures
        r == weights_net(legs@),
{
    let mut net: i128 = 0;
    let mut i: usize = 0;
    while i < legs.len()
        invariant
            0 <= i <= legs@.len(),
            net == weights_net(legs@.take(i as int)),
            -0x8000_0000_0000_0000 * (i as int) <= net <= 0x7fff_ffff_ffff_ffff * (i as int),
        decreases legs@.len() - i,
    {
        proof {
            assert(legs@.take(i + 1).drop_last() =~= legs@.take(i as int));
            assert(i < 0x1_0000_0000_0000_0000);
        }
        net = net + legs[i].weight as i128;
        i = i + 1;
    }
    assert(legs@.take(legs@.len() as int) =~= legs@);
    net
}

fn rule_check(out: &mut Vec<Finding>, rule: &Rule, chart: &[Account])
    ensures
        findings_view(final(out)@) == findings_view(old(out)@) + rule_findings(*rule, chart@),
{
    let ghost before = old(out)@;
    let id = rule.id.as_str();
    if rule.legs.len() == 0 {
        out.push(Finding::error(id, String::from_str("has no postings, so it cannot record anything. Add at least a debit and a credit.")));
        assert(findings_view(out@) =~= findings_view(before) + rule_findings(*rule, chart@));
        return;
    }
    let net = net_of(&rule.legs);
    if net != 0 {
        let mut s = String::from_str("does not balance: the posting weights net to ");
        push_decimal(&mut s, net);
        s.append(", not 0. Every debit needs a matching credit — check the signs.");
        out.push(Finding::error(id, s));
    }
    let ghost mid = out@;
    assert(findings_view(mid) =~= findings_view(before) + (if weights_net(rule.legs@) != 0 {
        seq![err(id@, "does not balance: the posting weights net to "@ + decimal(weights_net(rule.legs@))
            + ", not 0. Every debit needs a matching credit — check the signs."@)]
    } else {
        Seq::empty()
    }));
    let mut i: usize = 0;
    while i < rule.legs.len()
        invariant
            0 <= i <= rule.legs@.len(),
            id@ == rule.id@,
            findings_view(out@) == findings_view(mid) + legs_findings(id@, rule.legs@.take(i as int), chart@),
        decreases rule.legs@.len() - i,
    {
        proof {
            assert(rule.legs@.take(i + 1).drop_last() =~= rule.legs@.take(i as int));
        }
        leg_check(out, id, rule.legs[i], chart);
        i = i + 1;
        assert(findings_view(out@) =~= findings_view(mid) + legs_findings(id@, rule.legs@.take(i as int), chart@));
    }
    assert(rule.legs@.take(rule.legs@.len() as int) =~= rule.legs@);
    terms_check(out, rule);
    assert(findings_view(out@) =~= findings_view(before) + rule_findings(*rule, chart@));
}

/// Check a rule set against the chart of accounts, reporting every finding:
/// per rule, that it has no postings, or that its template does not balance,
/// that a leg posts to an account the chart lacks or with a weight of zero,
/// that an accrual lacks a rate or a convention or carries a negative rate,
/// or that another kind carries accrual terms; then that the close
/// destination is missing from the chart or is not equity.
pub fn check(set: &RuleSet, chart: &[Account]) -> (r: Vec<Finding>)
    ensures
        findings_view(r@) == findings_of(*set, chart@),
{
    let mut out: Vec<Finding> = Vec::new();
    let mut i: usize = 0;
    while i < set.rules.len()
        invariant
            0 <= i <= set.rules@.len(),
            findings_view(out@) == rules_findings(set.rules@.take(i as int), chart@),
        decreases set.rules@.len() - i,
    {
        proof {
            assert(set.rules@.take(i + 1).drop_last() =~= set.rules@.take(i as int));
        }
        rule_check(&mut out, &set.rules[i], chart);
        i = i + 1;
    }
    assert(set.rules@.take(set.rules@.len() as int) =~= set.rules@);
    let ghost mid = out@;
    if let Some(c) = set.close {
        match find_account(chart, c.equity_destination) {
            None => {
                let mut s = String::from_str("names equity destination ");
                push_decimal(&mut s, c.equity_destination as i128);
                s.append(" which is not in the chart of accounts. Add it, or point [close] at an existing equity account. Ratio.Close.missing_destination_refuses_the_close");
                out.push(Finding::error("close", s));
            },
            Some(k) => {
                let a = &chart[k];
                if a.account_type != AccountType::Equity {
                    let mut s = String::from_str("names equity destination ");
                    push_decimal(&mut s, c.equity_destination as i128);
                    s.append(" (");
                    s.append(a.display_name.as_str());
                    s.append(") which is ");
                    s.append(a.account_type.name());
                    s.append(", not equity. A close that rolled surplus into an income or asset account would move the residual off the sheet while the books still tied");
                    out.push(Finding::error("close", s));
                }
            },
        }
    }
    proof {
        reveal_strlit("close");
    }
    assert(findings_view(out@) =~= findings_of(*set, chart@));
    out
}

/// A rule the check finds nothing wrong with is balanced, and so compiles to
/// postings that net to zero at every amount.
pub proof fn law_a_checked_rule_balances(set: RuleSet, chart: Seq<Account>, k: int, event: crate::rules::EventView)
    requires
        0 <= k < set.rules@.len(),
        findings_of(set, chart).len() == 0,
        crate::compile::compile_result(set.rules@[k], event) is Ok,
    ensures
        crate::compile::compile_result(set.rules@[k], event) matches Ok(ps) && crate::chart::posted_net(ps) == 0,
{
    lemma_no_findings_each(set.rules@, chart, k);
    crate::compile::law_a_balanced_template_balances(set.rules@[k], event);
}

proof fn lemma_no_findings_each(rules: Seq<Rule>, chart: Seq<Account>, k: int)
    requires
        0 <= k < rules.len(),
        rules_findings(rules, chart).len() == 0,
    ensures
        weights_net(rules[k].legs@) == 0,
    decreases rules.len(),
{
    let r = rules.last();
    assert(rules_findings(rules, chart).len() == rules_findings(rules.drop_last(), chart).len()
        + rule_findings(r, chart).len());
    if k == rules.len() - 1 {
        if r.legs@.len() == 0 {
            assert(weights_net(r.legs@) == 0);
        }
    } else {
        lemma_no_findings_each(rules.drop_last(), chart, k);
        assert(rules.drop_last()[k] == rules[k]);
    }
}

} // verus!

verus! {

/// A close is refused unless it rolls into an equity account the chart
/// holds: where no account of the destination's dimension is equity (and so
/// where the chart has none), checking draws an error about the close.
pub proof fn law_a_close_outside_equity_is_refused(set: RuleSet, chart: Seq<Account>)
    requires
        set.close is Some,
        forall|j: int| 0 <= j < chart.len() && chart[j].dim == set.close.unwrap().equity_destination
            ==> chart[j].account_type != AccountType::Equity,
    ensures
        exists|k: int| 0 <= k < findings_of(set, chart).len()
            && (#[trigger] findings_of(set, chart)[k]).0 == "close"@ && !findings_of(set, chart)[k].2,
{
    let c = set.close.unwrap();
    crate::chart::lemma_account_at(chart, c.equity_destination);
    let f = findings_of(set, chart);
    let n = rules_findings(set.rules@, chart).len() as int;
    assert(close_findings(set, chart).len() == 1);
    assert(f[n] == close_findings(set, chart)[0]);
    assert(f[n].0 == "close"@ && !f[n].2);
}

/// A close into an equity account draws nothing: checking the rule set finds
/// what checking it without the close finds.
pub proof fn law_a_close_into_equity_adds_no_finding(set: RuleSet, chart: Seq<Account>)
    requires
        set.close is Some,
        exists|j: int| 0 <= j < chart.len() && #[trigger] chart[j].dim == set.close.unwrap().equity_destination,
        forall|j: int| 0 <= j < chart.len() && chart[j].dim == set.close.unwrap().equity_destination
            ==> chart[j].account_type == AccountType::Equity,
    ensures
        findings_of(set, chart) == findings_of(RuleSet { close: None, ..set }, chart),
{
    crate::chart::lemma_account_at(chart, set.close.unwrap().equity_destination);
    assert(close_findings(set, chart) =~= Seq::<FindingView>::empty());
    assert(findings_of(set, chart) =~= findings_of(RuleSet { close: None, ..set }, chart));
}

} // verus!
