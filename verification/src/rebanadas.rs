//! String-slice exercises.

use vstd::prelude::*;
use vstd::string::StrSliceExecFns;

verus! {

/// Returns the first word of `s`: the prefix before the first space, or all
/// of `s` when it holds no space.
pub fn first_word<'a>(s: &'a str) -> (r: &'a str)
    ensures
        r@.len() <= s@.len(),
        r@ == s@.subrange(0, r@.len() as int),
        r@.len() < s@.len() ==> s@[r@.len() as int] == ' ',
        forall|k: int| 0 <= k < r@.len() ==> s@[k] != ' ',
{
    let len = s.unicode_len();
    let mut i: usize = 0;
    while i < len
        invariant
            i <= len,
            len == s@.len(),
            forall|k: int| 0 <= k < i ==> s@[k] != ' ',
        decreases len - i,
    {
        if s.get_char(i) == ' ' {
            let r = s.substring_char(0, i);
            proof {
                assert(r@ =~= s@.subrange(0, r@.len() as int));
            }
            return r;
        }
        i = i + 1;
    }
    let r = s.substring_char(0, len);
    proof {
        assert(r@ =~= s@.subrange(0, r@.len() as int));
    }
    r
}

} // verus!
