//! Checked 64-bit arithmetic on figures.
//!
//! Every theorem about a figure is over unbounded integers; the running code is
//! `i64`. A product that wraps does not look wrong — it is a plausible number of
//! the other sign — so every operation here either returns the exact result or
//! says which figure would not fit.

use vstd::prelude::*;
use vstd::string::*;

verus! {

/// Whether an integer is representable as an `i64`.
pub open spec fn fits(x: int) -> bool {
    i64::MIN <= x <= i64::MAX
}

/// A figure that does not fit in 64 bits, named by what it is.
#[derive(Clone, Copy, Debug, PartialEq, Eq)]
pub struct Overflow {
    pub what: &'static str,
}

/// The words of an overflow refusal.
pub open spec fn overflow_message(what: Seq<char>) -> Seq<char> {
    what + " does not fit in 64 bits"@
}

impl Overflow {
    /// What went wrong, in words.
    pub fn message(&self) -> (r: String)
        ensures
            r@ == overflow_message(self.what@),
    {
        let s = String::from_str(self.what);
        s.concat(" does not fit in 64 bits")
    }
}

/// The result of a checked operation whose exact value is `x`.
pub open spec fn checked(x: int, what: &'static str) -> Result<i64, Overflow> {
    if fits(x) {
        Ok(x as i64)
    } else {
        Err(Overflow { what })
    }
}

/// `a + b`, or the figure that would not fit.
pub fn add(a: i64, b: i64, what: &'static str) -> (r: Result<i64, Overflow>)
    ensures
        r == checked(a + b, what),
{
    match a.checked_add(b) {
        Some(v) => Ok(v),
        None => Err(Overflow { what }),
    }
}

/// `a - b`, or the figure that would not fit.
///
/// A difference is never routed through a negation inside `add`: the negation
/// would wrap before anything checked it.
pub fn sub(a: i64, b: i64, what: &'static str) -> (r: Result<i64, Overflow>)
    ensures
        r == checked(a - b, what),
{
    match a.checked_sub(b) {
        Some(v) => Ok(v),
        None => Err(Overflow { what }),
    }
}

/// `a * b`, or the figure that would not fit.
pub fn mul(a: i64, b: i64, what: &'static str) -> (r: Result<i64, Overflow>)
    ensures
        r == checked(a * b, what),
{
    match a.checked_mul(b) {
        Some(v) => Ok(v),
        None => Err(Overflow { what }),
    }
}

/// `-a`, or the figure that would not fit (only `i64::MIN` has no negation).
pub fn neg(a: i64, what: &'static str) -> (r: Result<i64, Overflow>)
    ensures
        r == checked(-a, what),
{
    if a == i64::MIN {
        Err(Overflow { what })
    } else {
        Ok(-a)
    }
}

} // verus!
