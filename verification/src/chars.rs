//! Character classification and conversions between `&str`, `String` and
//! `Vec<char>`.  All text handled by this crate is modelled in specifications
//! as a `Seq<char>`; these helpers move between the executable and the
//! modelled forms.

use vstd::prelude::*;

verus! {

/// ASCII lower-case letter.
pub open spec fn spec_is_ascii_lower(c: char) -> bool {
    'a' <= c && c <= 'z'
}

/// ASCII upper-case letter.
pub open spec fn spec_is_ascii_upper(c: char) -> bool {
    'A' <= c && c <= 'Z'
}

/// ASCII decimal digit.
pub open spec fn spec_is_ascii_digit(c: char) -> bool {
    '0' <= c && c <= '9'
}

/// ASCII letter.
pub open spec fn spec_is_ascii_alpha(c: char) -> bool {
    spec_is_ascii_lower(c) || spec_is_ascii_upper(c)
}

pub fn is_ascii_digit_char(c: char) -> (r: bool)
    ensures
        r == spec_is_ascii_digit(c),
{
    '0' <= c && c <= '9'
}

pub fn is_ascii_alpha_char(c: char) -> (r: bool)
    ensures
        r == spec_is_ascii_alpha(c),
{
    ('a' <= c && c <= 'z') || ('A' <= c && c <= 'Z')
}

/// Collect the characters of a string slice into a vector, so that the rest
/// of the crate can index text directly.
pub fn str_to_chars(s: &str) -> (r: Vec<char>)
    ensures
        r@ == s@,
{
    let n = s.unicode_len();
    let mut r: Vec<char> = Vec::new();
    let mut i: usize = 0;
    while i < n
        invariant
            n == s@.len(),
            i <= n,
            r@ == s@.subrange(0, i as int),
        decreases n - i,
    {
        r.push(s.get_char(i));
        assert(r@ == s@.subrange(0, i + 1 as int));
        i = i + 1;
    }
    assert(s@.subrange(0, n as int) == s@);
    r
}

/// Build a `String` back out of a character vector.
pub fn chars_to_string(v: &Vec<char>) -> (r: String)
    ensures
        r@ == v@,
{
    let mut r = String::new();
    let mut i: usize = 0;
    while i < v.len()
        invariant
            i <= v@.len(),
            r@ == v@.subrange(0, i as int),
        decreases v@.len() - i,
    {
        push_char(&mut r, v[i]);
        assert(r@ == v@.subrange(0, i + 1 as int));
        i = i + 1;
    }
    assert(v@.subrange(0, v@.len() as int) == v@);
    r
}

/// Relies on `alloc::string::String::push`: appends the given character to
/// the end of the string.
#[verifier::external_body]
pub(crate) fn push_char(s: &mut String, c: char)
    ensures
        final(s)@ == old(s)@.push(c),
{
    s.push(c);
}

/// ASCII whitespace, as trimmed from placeholder names.
pub open spec fn spec_is_space(c: char) -> bool {
    c == ' ' || c == '\t' || c == '\n' || c == '\r' || c == '\u{0b}' || c == '\u{0c}'
}

pub fn is_space_char(c: char) -> (r: bool)
    ensures
        r == spec_is_space(c),
{
    c == ' ' || c == '\t' || c == '\n' || c == '\r' || c == '\u{0b}' || c == '\u{0c}'
}

/// The first position at or after `start` holding `c`, or the length of the
/// sequence when there is none.
pub open spec fn spec_first_idx_from(s: Seq<char>, c: char, start: int) -> int
    recommends
        0 <= start <= s.len(),
    decreases s.len() - start,
{
    if start < 0 || start >= s.len() {
        s.len() as int
    } else if s[start] == c {
        start
    } else {
        spec_first_idx_from(s, c, start + 1)
    }
}

/// Characterization of [`spec_first_idx_from`]: it is the least occurrence
/// index, or the length when the character does not occur.
pub proof fn lemma_first_idx_from(s: Seq<char>, c: char, start: int)
    requires
        0 <= start <= s.len(),
    ensures
        start <= spec_first_idx_from(s, c, start) <= s.len(),
        spec_first_idx_from(s, c, start) < s.len() ==> s[spec_first_idx_from(s, c, start)] == c,
        forall|j: int| start <= j < spec_first_idx_from(s, c, start) ==> s[j] != c,
    decreases s.len() - start,
{
    if start < s.len() && s[start] != c {
        lemma_first_idx_from(s, c, start + 1);
    }
}

/// Find the first occurrence of `c` at or after `start`.
pub fn find_char_from(s: &Vec<char>, c: char, start: usize) -> (r: usize)
    requires
        start <= s@.len(),
    ensures
        r == spec_first_idx_from(s@, c, start as int),
        r <= s@.len(),
{
    proof {
        lemma_first_idx_from(s@, c, start as int);
    }
    let mut i: usize = start;
    while i < s.len()
        invariant
            start <= i <= s@.len(),
            forall|j: int| start <= j < i ==> s@[j] != c,
            start <= spec_first_idx_from(s@, c, start as int) <= s@.len(),
            spec_first_idx_from(s@, c, start as int) < s@.len() ==> s@[spec_first_idx_from(
                s@,
                c,
                start as int,
            )] == c,
            forall|j: int| start <= j < spec_first_idx_from(s@, c, start as int) ==> s@[j] != c,
        decreases s@.len() - i,
    {
        if s[i] == c {
            proof {
                let w = spec_first_idx_from(s@, c, start as int);
                if w < i {
                    assert(s@[w] != c);
                } else if w > i {
                    assert(s@[i as int] != c);
                }
            }
            return i;
        }
        i = i + 1;
    }
    proof {
        let w = spec_first_idx_from(s@, c, start as int);
        if w < s@.len() {
            assert(s@[w] != c);
        }
    }
    s.len()
}

/// Copy one index range of a character vector.
pub fn chars_range_to_vec(s: &Vec<char>, a: usize, b: usize) -> (r: Vec<char>)
    requires
        a <= b <= s@.len(),
    ensures
        r@ == s@.subrange(a as int, b as int),
{
    let mut r: Vec<char> = Vec::new();
    let mut i: usize = a;
    while i < b
        invariant
            a <= i <= b <= s@.len(),
            r@ == s@.subrange(a as int, i as int),
        decreases b - i,
    {
        r.push(s[i]);
        assert(r@ == s@.subrange(a as int, i + 1 as int));
        i = i + 1;
    }
    r
}

/// Compare two string slices character by character.
pub fn str_equal(a: &str, b: &str) -> (r: bool)
    ensures
        r == (a@ == b@),
{
    let n = a.unicode_len();
    if n != b.unicode_len() {
        assert(a@ != b@);
        return false;
    }
    let mut i: usize = 0;
    while i < n
        invariant
            n == a@.len() && n == b@.len(),
            i <= n,
            forall|j: int| 0 <= j < i ==> a@[j] == b@[j],
        decreases n - i,
    {
        if a.get_char(i) != b.get_char(i) {
            return false;
        }
        i = i + 1;
    }
    assert(a@ =~= b@);
    true
}

} // verus!
