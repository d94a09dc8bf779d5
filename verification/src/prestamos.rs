//! Borrowing exercises: functions that only read a `String` through a
//! shared reference.

use vstd::prelude::*;
use vstd::string::StrSliceExecFns;

verus! {

/// Returns the length of the borrowed `String`, leaving ownership with
/// the caller.  The unit is characters, the unit of the string's view —
/// not bytes — so multi-byte characters count once.
pub fn calcular_longitud(s: &String) -> (r: usize)
    ensures
        r == s@.len(),
{
    s.as_str().unicode_len()
}

/// Returns the index of the first space in the borrowed `String`, or its
/// length when it holds no space.  The index counts characters, the unit
/// of the string's view, not bytes.
pub fn first_word(s: &String) -> (r: usize)
    ensures
        r <= s@.len(),
        r < s@.len() ==> s@[r as int] == ' ',
        forall|k: int| 0 <= k < r ==> s@[k] != ' ',
{
    let len = s.as_str().unicode_len();
    let mut i: usize = 0;
    while i < len
        invariant
            i <= len,
            len == s@.len(),
            forall|k: int| 0 <= k < i ==> s@[k] != ' ',
        decreases len - i,
    {
        if s.as_str().get_char(i) == ' ' {
            return i;
        }
        i = i + 1;
    }
    len
}

} // verus!
