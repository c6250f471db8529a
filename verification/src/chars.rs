//! ASCII case mapping.
use vstd::prelude::*;

verus! {

/// `c` with an ASCII lowercase letter mapped to its uppercase.
pub open spec fn upper_spec(c: char) -> char {
    if 'a' <= c && c <= 'z' {
        ((c as u32) - 32) as char
    } else {
        c
    }
}

/// The ASCII uppercase of `c`; any other character as it is.
pub fn to_upper(c: char) -> (r: char)
    ensures
        r == upper_spec(c),
{
    if 'a' <= c && c <= 'z' {
        let b: u8 = (c as u32 - 32) as u8;
        b as char
    } else {
        c
    }
}

} // verus!
