//! The boundary to the `regex` crate, and a bounded cache of compiled
//! patterns.
//!
//! Caller-supplied string-resolver fragments are real regular expressions;
//! they are compiled and matched by the `regex` crate.  Whether a pattern
//! compiles, and whether it matches a text, are deterministic functions of
//! the pattern and the text; these two functions are named but not defined
//! here, and everything the crate proves about shaped string fields goes
//! through the names.

use vstd::prelude::*;

use crate::chars::push_char;
use crate::error::Error;

verus! {

#[verifier::external_type_specification]
#[verifier::external_body]
pub struct ExRegex(regex::Regex);

/// Whether the `regex` crate accepts a pattern.  Names the success of
/// `regex::Regex::new`, a function of the pattern text alone.
pub uninterp spec fn regex_compiles(pattern: Seq<char>) -> bool;

/// Whether a compiled pattern matches somewhere in a text.  Names the result
/// of `regex::Regex::is_match`, a function of the pattern and the text alone.
pub uninterp spec fn regex_matches(pattern: Seq<char>, text: Seq<char>) -> bool;

/// A compiled pattern, remembering the text it was compiled from.  The only
/// way to obtain one is [`RegexCache::lookup`] or [`compile_pattern`], so the
/// compiled form always belongs to the remembered text.
#[derive(Debug)]
pub struct CompiledRegex {
    pattern: String,
    re: regex::Regex,
}

impl CompiledRegex {
    /// The pattern text this value was compiled from.
    pub closed spec fn pattern_of(&self) -> Seq<char> {
        self.pattern@
    }

    /// The pattern text, as a string.
    pub fn pattern(&self) -> (r: &str)
        ensures
            r@ == self.pattern_of(),
    {
        self.pattern.as_str()
    }

    /// Relies on `regex::Regex::clone` (a derived clone of the compiled
    /// program): the copy is compiled from the same pattern.
    #[verifier::external_body]
    pub fn duplicate(&self) -> (r: CompiledRegex)
        ensures
            r.pattern_of() == self.pattern_of(),
    {
        CompiledRegex { pattern: self.pattern.clone(), re: self.re.clone() }
    }

    /// Relies on `regex::Regex::is_match`: true exactly when the pattern
    /// matches somewhere in the text, a function of pattern and text alone.
    #[verifier::external_body]
    pub fn is_match(&self, text: &str) -> (r: bool)
        ensures
            r == regex_matches(self.pattern_of(), text@),
    {
        self.re.is_match(text)
    }
}

/// Relies on `regex::Regex::new`: whether compilation succeeds is a function
/// of the pattern text alone; on failure the compiler's message is returned.
#[verifier::external_body]
pub fn compile_pattern(pattern: &str) -> (r: Result<CompiledRegex, String>)
    ensures
        r is Ok <==> regex_compiles(pattern@),
        r matches Ok(c) ==> c.pattern_of() == pattern@,
{
    match regex::Regex::new(pattern) {
        Ok(re) => Ok(CompiledRegex { pattern: pattern.to_string(), re }),
        Err(e) => Err(e.to_string()),
    }
}

/// The anchored form of a pattern: `^(?:` + pattern + `)$`, matching only
/// the whole text.  The non-capturing group keeps a top-level alternation in
/// the pattern bound to both anchors: `^(?:png|jpg)$` accepts exactly `png`
/// and `jpg`, where `^png|jpg$` would accept any text beginning with `png`
/// or ending with `jpg`.
pub open spec fn spec_anchored(pattern: Seq<char>) -> Seq<char> {
    seq!['^', '(', '?', ':'] + pattern + seq![')', '$']
}

/// Build the anchored form of a pattern.
pub fn anchor_pattern(pattern: &str) -> (r: String)
    ensures
        r@ == spec_anchored(pattern@),
{
    let mut r = String::new();
    push_char(&mut r, '^');
    push_char(&mut r, '(');
    push_char(&mut r, '?');
    push_char(&mut r, ':');
    r.append(pattern);
    push_char(&mut r, ')');
    push_char(&mut r, '$');
    proof {
        assert(r@ =~= spec_anchored(pattern@));
    }
    r
}

/// A bounded, least-recently-used cache of compiled patterns, keyed by the
/// pattern text.  The most recently used pattern stands first.
#[derive(Debug)]
pub struct RegexCache {
    entries: Vec<CompiledRegex>,
    capacity: usize,
}

impl View for RegexCache {
    type V = Seq<Seq<char>>;

    closed spec fn view(&self) -> Seq<Seq<char>> {
        self.entries@.map(|i: int, e: CompiledRegex| e.pattern_of())
    }
}

impl RegexCache {
    /// The bound this cache was created with.
    pub closed spec fn spec_capacity(&self) -> usize {
        self.capacity
    }

    /// A cache never holds more patterns than its bound; the patterns are
    /// pairwise distinct and every one of them compiled.
    #[verifier::type_invariant]
    closed spec fn inv(&self) -> bool {
        &&& self.capacity >= 1
        &&& self.entries@.len() <= self.capacity
        &&& forall|i: int, j: int| 0 <= i < j < self@.len() ==> self@[i] != self@[j]
        &&& forall|i: int| 0 <= i < self@.len() ==> regex_compiles(#[trigger] self@[i])
    }

    /// Create a cache with the default bound of 512 compiled patterns.
    pub fn new() -> (r: RegexCache)
        ensures
            r@ =~= Seq::<Seq<char>>::empty(),
            r.spec_capacity() == 512,
    {
        RegexCache::with_capacity(512)
    }

    /// Create a cache holding at most `capacity` compiled patterns.
    pub fn with_capacity(capacity: usize) -> (r: RegexCache)
        requires
            capacity >= 1,
        ensures
            r@ =~= Seq::<Seq<char>>::empty(),
            r.spec_capacity() == capacity,
    {
        RegexCache { entries: Vec::new(), capacity }
    }

    /// Fetch the compiled form of a pattern, compiling and remembering it on
    /// a miss.  The pattern moves to the front of the use order; when the
    /// cache is over its bound the least recently used pattern is dropped.
    pub fn lookup(&mut self, pattern: &str) -> (r: Result<CompiledRegex, String>)
        ensures
            r is Ok <==> regex_compiles(pattern@),
            r matches Ok(c) ==> c.pattern_of() == pattern@ && final(self)@ =~= seq![pattern@]
                + old(self)@.remove_value(pattern@).take(
                vstd::math::min(
                    old(self)@.remove_value(pattern@).len() as int,
                    old(self).spec_capacity() - 1,
                ),
            ),
            r is Err ==> final(self)@ == old(self)@,
            final(self).spec_capacity() == old(self).spec_capacity(),
    {
        proof {
            use_type_invariant(&*self);
        }
        let mut found: Option<usize> = None;
        let mut i: usize = 0;
        while found.is_none() && i < self.entries.len()
            invariant
                i <= self@.len(),
                found is None ==> forall|j: int| 0 <= j < i ==> self@[j] != pattern@,
                found matches Some(f) ==> f < self@.len() && self@[f as int] == pattern@,
            decreases self@.len() - i + (if found is None {
                1int
            } else {
                0int
            }),
        {
            if crate::chars::str_equal(self.entries[i].pattern(), pattern) {
                found = Some(i);
            } else {
                i = i + 1;
            }
        }
        let capacity = self.capacity;
        let mut tmp = RegexCache { entries: Vec::new(), capacity };
        core::mem::swap(self, &mut tmp);
        let RegexCache { mut entries, capacity } = tmp;
        let ghost pats = |es: Seq<CompiledRegex>| es.map(|j: int, e: CompiledRegex| e.pattern_of());
        match found {
            Some(i) => {
                proof {
                    assert(pats(entries@) =~= old(self)@);
                    assert(pats(entries@)[i as int] == pattern@);
                    assert(regex_compiles(pattern@));
                    assert(old(self)@.contains(pattern@));
                    old(self)@.index_of_first_ensures(pattern@);
                    let w = old(self)@.index_of_first(pattern@)->0;
                    assert(old(self)@[w] == pattern@);
                    assert(w == i as int);
                    assert(pats(entries@.remove(i as int)) =~= old(self)@.remove_value(pattern@));
                }
                let hit = entries.remove(i);
                let copy = hit.duplicate();
                entries.insert(0, hit);
                proof {
                    assert(pats(entries@) =~= seq![pattern@] + old(self)@.remove(i as int));
                    assert forall|a: int, b: int|
                        0 <= a < b < pats(entries@).len() implies #[trigger] pats(entries@)[a]
                        != #[trigger] pats(entries@)[b] by {
                        let n = old(self)@.len();
                        let f = |x: int|
                            if x == 0 {
                                i as int
                            } else if x <= i {
                                x - 1
                            } else {
                                x
                            };
                        assert(pats(entries@)[a] == old(self)@[f(a)]);
                        assert(pats(entries@)[b] == old(self)@[f(b)]);
                        assert(f(a) != f(b));
                    }
                    assert forall|a: int| 0 <= a < pats(entries@).len() implies regex_compiles(
                        #[trigger] pats(entries@)[a],
                    ) by {
                        let f = |x: int|
                            if x == 0 {
                                i as int
                            } else if x <= i {
                                x - 1
                            } else {
                                x
                            };
                        assert(pats(entries@)[a] == old(self)@[f(a)]);
                    }
                    assert(pats(entries@) =~= seq![pattern@] + old(self)@.remove_value(pattern@));
                    assert(old(self)@.remove_value(pattern@).take(
                        vstd::math::min(
                            old(self)@.remove_value(pattern@).len() as int,
                            old(self).spec_capacity() - 1,
                        ),
                    ) =~= old(self)@.remove_value(pattern@));
                }
                let r = RegexCache { entries, capacity };
                proof {
                    assert(r@ =~= pats(r.entries@));
                }
                *self = r;
                Ok(copy)
            },
            None => {
                proof {
                    assert(!old(self)@.contains(pattern@));
                    old(self)@.index_of_first_ensures(pattern@);
                    assert(old(self)@.remove_value(pattern@) =~= old(self)@);
                }
                match compile_pattern(pattern) {
                    Ok(c) => {
                        let copy = c.duplicate();
                        let ghost base = old(self)@;
                        entries.insert(0, c);
                        proof {
                            assert forall|k: int| 0 <= k < entries@.len() implies #[trigger] pats(
                                entries@,
                            )[k] == (seq![pattern@] + base)[k] by {
                            }
                            assert(pats(entries@) =~= seq![pattern@] + base);
                        }
                        let ghost goal = seq![pattern@] + base.take(
                            vstd::math::min(base.len() as int, capacity - 1),
                        );
                        if entries.len() > capacity {
                            let ghost before = entries@;
                            entries.pop();
                            proof {
                                assert(entries@ =~= before.take(before.len() - 1));
                                assert(base.len() == capacity);
                                assert forall|k: int| 0 <= k < pats(entries@).len() implies
                                    #[trigger] pats(entries@)[k] == goal[k] by {
                                    assert(entries@[k] == before[k]);
                                }
                                assert(pats(entries@) =~= goal);
                            }
                        } else {
                            proof {
                                assert(base.len() <= capacity - 1);
                                assert(base.take(base.len() as int) =~= base);
                                assert forall|k: int| 0 <= k < pats(entries@).len() implies
                                    #[trigger] pats(entries@)[k] == goal[k] by {
                                }
                                assert(pats(entries@) =~= goal);
                            }
                        }
                        let r = RegexCache { entries, capacity };
                        proof {
                            assert(r@ =~= pats(r.entries@));
                            assert forall|a: int, b: int|
                                0 <= a < b < r@.len() implies #[trigger] r@[a] != #[trigger] r@[b]
                                by {
                                if a > 0 {
                                    assert(r@[a] == base[a - 1]);
                                }
                                assert(r@[b] == base[b - 1]);
                            }
                            assert forall|a: int| 0 <= a < r@.len() implies regex_compiles(
                                #[trigger] r@[a],
                            ) by {
                                if a > 0 {
                                    assert(r@[a] == base[a - 1]);
                                }
                            }
                        }
                        *self = r;
                        Ok(copy)
                    },
                    Err(e) => {
                        let r = RegexCache { entries, capacity };
                        proof {
                            assert(r@ =~= old(self)@);
                        }
                        *self = r;
                        Err(e)
                    },
                }
            },
        }
    }
}

impl RegexCache {
    /// Fetch a compiled pattern through the cache, mapping a compile failure
    /// to this crate's error type.
    pub fn regex(&mut self, pattern: &str) -> (r: Result<CompiledRegex, Error>)
        ensures
            r is Ok <==> regex_compiles(pattern@),
            r matches Ok(c) ==> c.pattern_of() == pattern@,
            r matches Err(e) ==> e is RegexError,
            final(self).spec_capacity() == old(self).spec_capacity(),
    {
        match self.lookup(pattern) {
            Ok(c) => Ok(c),
            Err(e) => {
                let mut msg = String::from_str("Regex compile error: ");
                msg.append(e.as_str());
                Err(Error::RegexError(msg))
            },
        }
    }
}

} // verus!
