//! Small helpers on strings.
use vstd::prelude::*;

verus! {

/// Appends `c` to `s`.
///
/// Calls `String::push`, which appends the character to the end of the
/// string; the contract states that the characters of `s` gain `c` at the end.
#[verifier::external_body]
pub(crate) fn push_char(s: &mut String, c: char)
    ensures
        final(s)@ == old(s)@.push(c),
{
    s.push(c);
}

/// `a` followed by `b`, as a new string.
pub fn concat_str(a: &str, b: &str) -> (r: String)
    ensures
        r@ == a@ + b@,
{
    let mut r = String::from_str(a);
    r.append(b);
    r
}

/// Whether `s` and `t` hold the same characters.
pub fn str_eq(s: &str, t: &str) -> (b: bool)
    ensures
        b == (s@ == t@),
{
    let n = s.unicode_len();
    if n != t.unicode_len() {
        return false;
    }
    let mut i: usize = 0;
    while i < n
        invariant
            n == s@.len(),
            n == t@.len(),
            i <= n,
            forall|k: int| 0 <= k < i ==> s@[k] == t@[k],
        decreases n - i,
    {
        if s.get_char(i) != t.get_char(i) {
            return false;
        }
        i = i + 1;
    }
    assert(s@ =~= t@);
    true
}

/// `given`, or, when it is empty, `input` followed by a dot and `extension`:
/// the name of the file a tool writes when asked for a name and given none.
pub fn name_or_default(input: &str, given: &str, extension: &str) -> (r: String)
    ensures
        r@ == (if given@.len() == 0 {
            input@ + seq!['.'] + extension@
        } else {
            given@
        }),
{
    if given.unicode_len() == 0 {
        proof {
            reveal_strlit(".");
        }
        let with_dot = concat_str(input, ".");
        concat_str(with_dot.as_str(), extension)
    } else {
        String::from_str(given)
    }
}

} // verus!
