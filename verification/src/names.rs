//! Validation of server and tool identifiers.
//!
//! A name is acceptable when it is non-empty and every character is an ASCII
//! letter, an ASCII digit, `_` or `-`. Invalid server names are never spawned;
//! invalid tool names are dropped from the catalog.

use vstd::prelude::*;

verus! {

/// One acceptable identifier character: ASCII letter, digit, `_` or `-`.
pub open spec fn is_name_char(c: char) -> bool {
    ('a' <= c && c <= 'z') || ('A' <= c && c <= 'Z') || ('0' <= c && c <= '9') || c == '_' || c
        == '-'
}

/// An acceptable identifier: non-empty, all characters from [`is_name_char`].
pub open spec fn is_valid_name(s: Seq<char>) -> bool {
    s.len() > 0 && forall|i: int| 0 <= i < s.len() ==> is_name_char(s[i])
}

/// Decides whether `name` is an acceptable server or tool identifier.
pub fn valid_name(name: &str) -> (r: bool)
    ensures
        r == is_valid_name(name@),
{
    let len: usize = name.unicode_len();
    if len == 0 {
        return false;
    }
    let mut i: usize = 0;
    while i < len
        invariant
            0 < len == name@.len(),
            i <= len,
            forall|j: int| 0 <= j < i ==> is_name_char(name@[j]),
        decreases len - i,
    {
        let c = name.get_char(i);
        let ok = ('a' <= c && c <= 'z') || ('A' <= c && c <= 'Z') || ('0' <= c && c <= '9') || c
            == '_' || c == '-';
        if !ok {
            return false;
        }
        i = i + 1;
    }
    true
}

} // verus!
