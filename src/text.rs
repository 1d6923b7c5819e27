use vstd::prelude::*;

verus! {

/// Compares two strings character by character.
pub fn same_text(a: &str, b: &str) -> (r: bool)
    ensures
        r == (a@ == b@),
{
    let n = a.unicode_len();
    if n != b.unicode_len() {
        return false;
    }
    let mut i: usize = 0;
    while i < n
        invariant
            n == a@.len(),
            n == b@.len(),
            i <= n,
            forall|j: int| 0 <= j < i ==> a@[j] == b@[j],
        decreases n - i,
    {
        if a.get_char(i) != b.get_char(i) {
            return false;
        }
        i = i + 1;
    }
    assert(a@ =~= b@);
    true
}

/// The text ends in ":0".
pub open spec fn has_zero_port(s: Seq<char>) -> bool {
    s.len() >= 2 && s[s.len() - 2] == ':' && s[s.len() - 1] == '0'
}

/// Tests whether the text ends in ":0".
pub fn ends_with_zero_port(s: &str) -> (r: bool)
    ensures
        r == has_zero_port(s@),
{
    let n = s.unicode_len();
    n >= 2 && s.get_char(n - 2) == ':' && s.get_char(n - 1) == '0'
}

} // verus!
