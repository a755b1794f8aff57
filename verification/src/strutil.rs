//! Small verified string helpers shared by the parser and the evaluator.

use vstd::prelude::*;
use vstd::string::*;

verus! {

/// Whether two string slices hold the same code points.
pub fn str_eq_str(a: &str, b: &str) -> (r: bool)
    ensures
        r == (a@ == b@),
{
    let na = a.unicode_len();
    let nb = b.unicode_len();
    if na != nb {
        proof {
            assert(a@ != b@);
        }
        return false;
    }
    let mut i: usize = 0;
    while i < na
        invariant
            na == a@.len(),
            na == b@.len(),
            i <= na,
            forall|m: int| 0 <= m < i ==> a@[m] == b@[m],
        decreases na - i,
    {
        if a.get_char(i) != b.get_char(i) {
            return false;
        }
        i = i + 1;
    }
    proof {
        assert(a@ =~= b@);
    }
    true
}

/// Whether a `String` holds the same code points as a literal.
pub fn string_is(s: &String, lit: &str) -> (r: bool)
    ensures
        r == (s@ == lit@),
{
    str_eq_str(s.as_str(), lit)
}

} // verus!
