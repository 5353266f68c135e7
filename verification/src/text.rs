//! Small verified helpers over `&str` used by the registry and the
//! terminal-command front ends.

use vstd::prelude::*;

verus! {

/// `c` is `l` itself or, when `l` is a lower-case ASCII letter, the
/// corresponding upper-case letter.
pub open spec fn ci_eq_char(c: char, l: char) -> bool {
    c == l || ('A' <= c && c <= 'Z' && c as int + 32 == l as int)
}

/// `s` equals the lower-case ASCII keyword `kw` up to ASCII case.
pub open spec fn ci_matches(s: Seq<char>, kw: Seq<char>) -> bool {
    s.len() == kw.len() && forall|i: int| 0 <= i < s.len() ==> ci_eq_char(s[i], kw[i])
}

/// Compares a string against a lower-case ASCII keyword, ignoring ASCII case.
pub fn str_ci_matches(s: &str, kw: &str) -> (r: bool)
    ensures
        r == ci_matches(s@, kw@),
{
    let n = s.unicode_len();
    if n != kw.unicode_len() {
        return false;
    }
    let mut i: usize = 0;
    while i < n
        invariant
            0 <= i <= n,
            n == s@.len(),
            n == kw@.len(),
            forall|j: int| 0 <= j < i ==> ci_eq_char(s@[j], kw@[j]),
        decreases n - i,
    {
        let c = s.get_char(i);
        let l = kw.get_char(i);
        let cu = c as u32;
        let lu = l as u32;
        if !(cu == lu || ('A' as u32 <= cu && cu <= 'Z' as u32 && cu + 32 == lu)) {
            assert(!ci_eq_char(s@[i as int], kw@[i as int]));
            return false;
        }
        i = i + 1;
    }
    true
}

/// The bytes of an ASCII string, character for character.
pub fn ascii_bytes(s: &str) -> (r: Vec<u8>)
    requires
        vstd::string::is_ascii(s),
    ensures
        r@ == s@.map_values(|c: char| c as u8),
{
    let n = s.unicode_len();
    let mut r: Vec<u8> = Vec::new();
    let mut i: usize = 0;
    while i < n
        invariant
            0 <= i <= n,
            n == s@.len(),
            vstd::string::is_ascii(s),
            r@.len() == i,
            forall|j: int| 0 <= j < i ==> r@[j] == s@[j] as u8,
        decreases n - i,
    {
        let b = s.get_ascii(i);
        r.push(b);
        i = i + 1;
    }
    assert(r@ =~= s@.map_values(|c: char| c as u8));
    r
}

/// Compares two strings for equality of their character sequences.
pub fn str_eq(s: &str, t: &str) -> (r: bool)
    ensures
        r == (s@ == t@),
{
    let n = s.unicode_len();
    if n != t.unicode_len() {
        return false;
    }
    let mut i: usize = 0;
    while i < n
        invariant
            0 <= i <= n,
            n == s@.len(),
            n == t@.len(),
            forall|j: int| 0 <= j < i ==> s@[j] == t@[j],
        decreases n - i,
    {
        if s.get_char(i) != t.get_char(i) {
            return false;
        }
        i = i + 1;
    }
    assert(s@ =~= t@);
    true
}

} // verus!
