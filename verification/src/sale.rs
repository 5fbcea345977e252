//! The legs of a sale: the investment relieved at cost, the cash received,
//! and the realized gain derived from the two.
//!
//! The gain leg is derived here and never supplied: it absorbs whatever the
//! other two legs leave, so a gain taken as a parameter could drift silently
//! while the books tied. There are three legs even when the gain is zero.

use vstd::prelude::*;
use vstd::string::*;
use crate::chart::{PostingRecord, PostingView, postings_view, posted_net};
use crate::checked::fits;
use crate::config::{Rejected, Rejection, outcome, overflow_rejected, roles_rejection};
use crate::rules::ChartRoles;

verus! {

/// An optional currency code, taken by its characters.
pub open spec fn code_of(currency: Option<&str>) -> Option<Seq<char>> {
    match currency {
        Some(c) => Some(c@),
        None => None,
    }
}

/// The three postings of a sale, or why there are none.
pub open spec fn sale_result(roles: ChartRoles, currency: Option<Seq<char>>, instrument: Seq<char>, units: i64, relieved: i64, proceeds: i64) -> Result<Seq<PostingView>, Rejected> {
    if roles_rejection(roles) is Some {
        Err(roles_rejection(roles).unwrap())
    } else if !fits(relieved - proceeds) {
        Err(overflow_rejected("the realized gain"@))
    } else {
        Ok(seq![
            PostingView { dim: roles.investments, amount: (-relieved) as i64, currency, instrument: Some(instrument), quantity: Some((-units) as i64) },
            PostingView { dim: roles.cash, amount: proceeds, currency, instrument: None, quantity: None },
            PostingView { dim: roles.realized_gain, amount: (relieved - proceeds) as i64, currency, instrument: None, quantity: None },
        ])
    }
}

fn text_opt(currency: Option<&str>) -> (r: Option<String>)
    ensures
        crate::chart::text_of(r) == code_of(currency),
{
    match currency {
        Some(c) => Some(String::from_str(c)),
        None => None,
    }
}

/// The legs of a sale, in a chart whose roles are distinct: the investment
/// relieved at cost with its units, the cash received, and the gain, which is
/// negative when the sale made money.
pub fn sale_postings(roles: ChartRoles, currency: Option<&str>, instrument: &str, units: i64, relieved: i64, proceeds: i64) -> (r: Result<Vec<PostingRecord>, Rejection>)
    requires
        relieved != i64::MIN,
        units != i64::MIN,
    ensures
        match r {
            Ok(ps) => sale_result(roles, code_of(currency), instrument@, units, relieved, proceeds)
                == Ok::<Seq<PostingView>, Rejected>(postings_view(ps@))
                && posted_net(postings_view(ps@)) == 0,
            Err(e) => sale_result(roles, code_of(currency), instrument@, units, relieved, proceeds)
                == Err::<Seq<PostingView>, Rejected>((e.reason, e.text@)),
        },
{
    match roles.check() {
        Ok(()) => {},
        Err(e) => return Err(e),
    }
    let gain = match crate::checked::sub(relieved, proceeds, "the realized gain") {
        Ok(g) => g,
        Err(o) => {
            proof { reveal_strlit("the realized gain"); }
            return Err(Rejection::overflow(o));
        },
    };
    let mut out: Vec<PostingRecord> = Vec::new();
    out.push(PostingRecord {
        dim: roles.investments,
        amount: -relieved,
        currency: text_opt(currency),
        instrument: Some(String::from_str(instrument)),
        quantity: Some(-units),
    });
    out.push(PostingRecord { dim: roles.cash, amount: proceeds, currency: text_opt(currency), instrument: None, quantity: None });
    out.push(PostingRecord { dim: roles.realized_gain, amount: gain, currency: text_opt(currency), instrument: None, quantity: None });
    proof {
        let v = postings_view(out@);
        let a = seq![out@[0]@];
        let b = seq![out@[0]@, out@[1]@];
        assert(v =~= seq![out@[0]@, out@[1]@, out@[2]@]);
        assert(a.drop_last() =~= Seq::<PostingView>::empty());
        assert(b.drop_last() =~= a);
        assert(v.drop_last() =~= b);
        assert(posted_net(Seq::<PostingView>::empty()) == 0);
        assert(posted_net(a) == -relieved);
        assert(posted_net(b) == -relieved + proceeds);
        assert(posted_net(v) == 0);
    }
    Ok(out)
}

} // verus!
