//! Ownership exercises: functions that move a `String` in and out.

use vstd::prelude::*;
use vstd::string::StrSliceExecFns;
use vstd::string::StringExecFns;

verus! {

/// Hands ownership of a fresh `String` to the caller.
pub fn da_un_ownership() -> (r: String)
    ensures
        r@ == "tuyo"@,
{
    let un_string = String::from_str("tuyo");
    un_string
}

/// Takes ownership of a `String` and gives it back unchanged.
pub fn toma_y_devuelve(un_string: String) -> (r: String)
    ensures
        r == un_string,
{
    un_string
}

/// Takes ownership of a `String` and returns it together with its length.
/// The unit is characters, the unit of the string's view — not bytes — so
/// multi-byte characters count once.
pub fn calcular_longitud(s: String) -> (r: (String, usize))
    ensures
        r.0 == s,
        r.1 == s@.len(),
{
    let length = s.as_str().unicode_len();
    (s, length)
}

/// Builds a `String` inside the function and moves it out to the caller,
/// so that no reference to freed memory can arise.
pub fn colgar() -> (r: String)
    ensures
        r@ == "hola"@,
{
    let s = String::from_str("hola");
    s
}

} // verus!
