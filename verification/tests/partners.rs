use ratio::config::Reason;
use ratio::partners::{
    allocate, apply_facts, check_cut, check_specials, cut_for, AllocationFact, AllocationKind, PartnerShare,
    SpecialAllocation,
};

fn share(partner: &str, weight: i64) -> PartnerShare {
    PartnerShare { partner: partner.into(), weight }
}

fn got(v: &[(String, i64)], partner: &str) -> Option<i64> {
    v.iter().find(|(p, _)| p == partner).map(|(_, a)| *a)
}

fn fact(partner: &str, kind: &str, amount: i64) -> AllocationFact {
    AllocationFact { partner: partner.into(), kind: kind.into(), amount }
}

#[test]
fn no_cut_is_unset_not_an_equal_split() {
    assert_eq!(allocate(3000, &[]).unwrap(), None);
}

#[test]
fn eighty_twenty_of_a_hundred_is_eighty_and_twenty() {
    let cut = [share("LP", 80), share("GP", 20)];
    let v = allocate(10000, &cut).unwrap().expect("divides");
    assert_eq!(got(&v, "LP"), Some(8000));
    assert_eq!(got(&v, "GP"), Some(2000));
    assert_eq!(v.iter().map(|(_, a)| a).sum::<i64>(), 10000);
    assert_ne!(got(&v, "LP"), Some(5000));
}

#[test]
fn a_figure_that_will_not_divide_is_refused() {
    let cut = [share("LP", 80), share("GP", 20)];
    let e = allocate(101, &cut).unwrap_err();
    assert_eq!(e.reason, Reason::DoesNotDivide);
    let err = e.message();
    assert!(err.contains("does not divide"), "{err}");
    assert!(err.contains("pro_rata") || err.contains("misstatement"), "{err}");
}

#[test]
fn a_zero_weight_is_not_a_cut() {
    let err = allocate(100, &[share("LP", 80), share("GP", 0)]).unwrap_err().message();
    assert!(err.contains("not a weight"), "{err}");
}

#[test]
fn a_duplicate_partner_is_two_answers() {
    let err = allocate(100, &[share("LP", 50), share("LP", 50)]).unwrap_err().message();
    assert!(err.contains("twice"), "{err}");
}

#[test]
fn a_blank_partner_is_not_a_cut() {
    let e = check_cut(&[share("  ", 1)]).unwrap_err();
    assert_eq!(e.reason, Reason::CutWithoutPartner);
    assert!(check_cut(&[share("LP", 1), share("GP", 3)]).is_ok());
}

#[test]
fn an_overflowing_slice_is_refused_not_wrapped() {
    let cut = [share("LP", 3), share("GP", 1)];
    let err = allocate(4_000_000_000_000_000_000, &cut).unwrap_err().message();
    assert!(err.contains("64 bits") || err.contains("divisibility"), "{err}");
}

#[test]
fn a_negative_figure_divides_like_a_positive_one() {
    let cut = [share("LP", 3), share("GP", 1)];
    let v = allocate(-400, &cut).unwrap().expect("divides");
    assert_eq!(got(&v, "LP"), Some(-300));
    assert_eq!(got(&v, "GP"), Some(-100));
}

#[test]
fn a_kind_without_specials_uses_the_default() {
    let default = [share("LP", 80), share("GP", 20)];
    let specials = [SpecialAllocation { partner: "GP".into(), kind: AllocationKind::Expense, weight: 1 }];
    let income = cut_for(AllocationKind::Income, &default, &specials);
    assert_eq!(income, default);
    let expense = cut_for(AllocationKind::Expense, &default, &specials);
    assert_eq!(expense, vec![share("GP", 1)]);
    let whole = allocate(5000, &expense).unwrap().expect("sole taker");
    assert_eq!(got(&whole, "GP"), Some(5000));
    assert!(got(&whole, "LP").is_none());
}

#[test]
fn a_special_named_twice_for_one_kind_is_refused() {
    let specials = [
        SpecialAllocation { partner: "GP".into(), kind: AllocationKind::Expense, weight: 1 },
        SpecialAllocation { partner: "GP".into(), kind: AllocationKind::Expense, weight: 2 },
    ];
    assert_eq!(check_specials(&specials).unwrap_err().reason, Reason::SpecialTwice);
    let fine = [
        SpecialAllocation { partner: "GP".into(), kind: AllocationKind::Expense, weight: 1 },
        SpecialAllocation { partner: "GP".into(), kind: AllocationKind::Income, weight: 2 },
    ];
    assert!(check_specials(&fine).is_ok());
}

#[test]
fn unnamed_facts_refuse_rather_than_splitting() {
    let e = apply_facts(100, Some(&[]), AllocationKind::Income, &[]).unwrap_err();
    assert_eq!(e.reason, Reason::UnnamedFacts);
    assert!(e.message().contains("unnamed"), "{}", e.message());
}

#[test]
fn no_facts_fall_through_to_the_cut() {
    let cut = [share("LP", 1), share("GP", 1)];
    let v = apply_facts(100, None, AllocationKind::Income, &cut).unwrap().expect("divides");
    assert_eq!(got(&v, "LP"), Some(50));
    assert_eq!(got(&v, "GP"), Some(50));
}

#[test]
fn facts_that_cover_the_figure_are_the_allocation() {
    let facts = [fact("GP", "income", 3000)];
    let v = apply_facts(3000, Some(&facts), AllocationKind::Income, &[]).unwrap().expect("covered");
    assert_eq!(got(&v, "GP"), Some(3000));
}

#[test]
fn an_overshoot_refuses() {
    let facts = [fact("GP", "income", 12)];
    let err = apply_facts(10, Some(&facts), AllocationKind::Income, &[]).unwrap_err().message();
    assert!(err.contains("overshoots"), "{err}");
}

#[test]
fn a_remainder_without_a_cut_is_unset() {
    let facts = [fact("GP", "income", 40)];
    let err = apply_facts(100, Some(&facts), AllocationKind::Income, &[]).unwrap_err().message();
    assert!(err.contains("no partner cut"), "{err}");
}

#[test]
fn facts_plus_a_remainder_that_divides_conserve() {
    let facts = [fact("SP", "income", 40)];
    let cut = [share("LP", 80), share("GP", 20)];
    let v = apply_facts(100, Some(&facts), AllocationKind::Income, &cut).unwrap().expect("divides");
    assert_eq!(got(&v, "SP"), Some(40));
    assert_eq!(got(&v, "LP"), Some(48));
    assert_eq!(got(&v, "GP"), Some(12));
    assert_eq!(v.iter().map(|(_, a)| a).sum::<i64>(), 100);
}

#[test]
fn facts_of_another_kind_are_not_this_kind() {
    let facts = [fact("SP", "expense", 40)];
    let cut = [share("LP", 1)];
    let v = apply_facts(100, Some(&facts), AllocationKind::Income, &cut).unwrap().expect("divides");
    assert_eq!(got(&v, "LP"), Some(100));
    assert!(got(&v, "SP").is_none());
}

#[test]
fn kinds_have_stable_names() {
    assert_eq!(AllocationKind::Income.as_str(), "income");
    assert_eq!(AllocationKind::Expense.as_str(), "expense");
    assert_eq!(AllocationKind::Unrealized.as_str(), "unrealized");
}
