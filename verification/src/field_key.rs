//! Validated placeholder / item names.
//!
//! A field key names a template placeholder or a path item.  It is stored
//! lower-cased and must consist of dot-separated sections, each starting with
//! an ASCII letter or `_` and continuing with ASCII letters, digits or `_`.

use vstd::prelude::*;

use crate::chars::spec_is_ascii_alpha;
use crate::chars::spec_is_ascii_digit;
use crate::chars::spec_is_ascii_upper;
use crate::chars::is_ascii_alpha_char;
use crate::chars::is_ascii_digit_char;
use crate::chars::str_to_chars;
use crate::chars::chars_to_string;
use crate::error::Error;

verus! {

/// A character that may start a key section.
pub open spec fn spec_is_key_head(c: char) -> bool {
    spec_is_ascii_alpha(c) || c == '_'
}

/// A character that may appear anywhere in a key after the first position:
/// section characters plus the `.` separator.
pub open spec fn spec_is_key_char(c: char) -> bool {
    spec_is_ascii_alpha(c) || spec_is_ascii_digit(c) || c == '_' || c == '.'
}

/// A valid key: one or more valid sections separated by single dots.
/// Stated positionally: the first character starts a section, every `.` is
/// followed by a section head, and the key neither ends with `.` nor contains
/// a character outside the key alphabet.
pub open spec fn spec_valid_key(s: Seq<char>) -> bool {
    &&& s.len() > 0
    &&& spec_is_key_head(s[0])
    &&& forall|i: int| 0 < i < s.len() ==> spec_is_key_char(#[trigger] s[i])
    &&& s[s.len() - 1] != '.'
    &&& forall|i: int|
        0 <= i < s.len() - 1 && #[trigger] s[i] == '.' ==> spec_is_key_head(s[i + 1])
}

/// ASCII lower-casing of one character.
pub open spec fn spec_lower_char(c: char) -> char {
    if spec_is_ascii_upper(c) {
        ((c as u32) + 32) as char
    } else {
        c
    }
}

/// ASCII lower-casing of a string.
pub open spec fn spec_lower(s: Seq<char>) -> Seq<char> {
    Seq::new(s.len(), |i: int| spec_lower_char(s[i]))
}

/// Lower-case one ASCII character; other characters pass through unchanged.
pub fn lower_char(c: char) -> (r: char)
    ensures
        r == spec_lower_char(c),
{
    match c {
        'A' => 'a',
        'B' => 'b',
        'C' => 'c',
        'D' => 'd',
        'E' => 'e',
        'F' => 'f',
        'G' => 'g',
        'H' => 'h',
        'I' => 'i',
        'J' => 'j',
        'K' => 'k',
        'L' => 'l',
        'M' => 'm',
        'N' => 'n',
        'O' => 'o',
        'P' => 'p',
        'Q' => 'q',
        'R' => 'r',
        'S' => 's',
        'T' => 't',
        'U' => 'u',
        'V' => 'v',
        'W' => 'w',
        'X' => 'x',
        'Y' => 'y',
        'Z' => 'z',
        _ => c,
    }
}

/// A validated field key, stored in lower-cased normalized form.
///
/// Its view is the sequence of characters of the normalized key.
#[derive(Debug)]
pub struct FieldKey {
    key: String,
}

impl Clone for FieldKey {
    fn clone(&self) -> (r: FieldKey)
        ensures
            r@ == self@,
    {
        FieldKey { key: self.key.clone() }
    }
}

impl View for FieldKey {
    type V = Seq<char>;

    closed spec fn view(&self) -> Seq<char> {
        self.key@
    }
}

impl PartialEq for FieldKey {
    fn eq(&self, other: &FieldKey) -> (r: bool) {
        self.key == other.key
    }
}

impl Eq for FieldKey {

}

impl vstd::std_specs::cmp::PartialEqSpecImpl for FieldKey {
    open spec fn obeys_eq_spec() -> bool {
        true
    }

    open spec fn eq_spec(&self, other: &FieldKey) -> bool {
        self@ == other@
    }
}

impl FieldKey {
    /// Every constructed key is valid in its normalized form.
    pub open spec fn wf(&self) -> bool {
        spec_valid_key(self@)
    }

    /// Create a new field key.  The input is ASCII lower-cased and then
    /// validated; an input whose lower-cased form is not a valid key is
    /// rejected.
    pub fn new(key: &str) -> (r: Result<FieldKey, Error>)
        ensures
            r is Ok <==> spec_valid_key(spec_lower(key@)),
            r matches Ok(k) ==> k@ == spec_lower(key@) && k.wf(),
            r matches Err(e) ==> e matches Error::ParseError(m) && m@ == "Invalid field key"@,
    {
        let chars = str_to_chars(key);
        let mut lowered: Vec<char> = Vec::new();
        let mut i: usize = 0;
        while i < chars.len()
            invariant
                chars@ == key@,
                i <= key@.len(),
                lowered@ == spec_lower(key@).subrange(0, i as int),
            decreases key@.len() - i,
        {
            lowered.push(lower_char(chars[i]));
            assert(lowered@ == spec_lower(key@).subrange(0, i + 1 as int));
            i = i + 1;
        }
        assert(lowered@ == spec_lower(key@)) by {
            assert(spec_lower(key@).subrange(0, spec_lower(key@).len() as int) == spec_lower(
                key@,
            ));
        }
        if !validate_chars(&lowered) {
            return Err(Error::ParseError("Invalid field key"));
        }
        Ok(FieldKey { key: chars_to_string(&lowered) })
    }

    /// Access the internal key string.
    pub fn as_str(&self) -> (r: &str)
        ensures
            r@ == self@,
    {
        self.key.as_str()
    }
}

/// A valid key stays valid under ASCII lower-casing: section heads stay
/// heads, key characters stay key characters, and dots are unchanged.
pub proof fn lemma_valid_key_lower(s: Seq<char>)
    requires
        spec_valid_key(s),
    ensures
        spec_valid_key(spec_lower(s)),
{
    let t = spec_lower(s);
    assert(t.len() == s.len());
    assert(spec_is_key_head(t[0]));
    assert forall|i: int| 0 < i < t.len() implies spec_is_key_char(#[trigger] t[i]) by {
        assert(spec_is_key_char(s[i]));
    }
    assert(t[t.len() - 1] != '.');
    assert forall|i: int| 0 <= i < t.len() - 1 && #[trigger] t[i] == '.' implies spec_is_key_head(
        t[i + 1],
    ) by {
        assert(s[i] == '.');
        assert(spec_is_key_head(s[i + 1]));
    }
}

/// Check that a character vector forms a valid key.
pub fn validate_chars(s: &Vec<char>) -> (r: bool)
    ensures
        r == spec_valid_key(s@),
{
    let n = s.len();
    if n == 0 {
        return false;
    }
    let c0 = s[0];
    if !(is_ascii_alpha_char(c0) || c0 == '_') {
        return false;
    }
    if s[n - 1] == '.' {
        return false;
    }
    let mut i: usize = 1;
    while i < n
        invariant
            n == s@.len(),
            1 <= i <= n,
            forall|j: int| 0 < j < i ==> spec_is_key_char(#[trigger] s@[j]),
            forall|j: int|
                0 <= j < i - 1 && #[trigger] s@[j] == '.' ==> spec_is_key_head(s@[j + 1]),
        decreases n - i,
    {
        let c = s[i];
        if !(is_ascii_alpha_char(c) || is_ascii_digit_char(c) || c == '_' || c == '.') {
            return false;
        }
        if s[i - 1] == '.' && !(is_ascii_alpha_char(c) || c == '_') {
            return false;
        }
        i = i + 1;
    }
    true
}

} // verus!
