//! Plain-text path algebra: splitting a template or path into components,
//! joining rendered components back into a path, parent directories,
//! component-wise ancestry, and the lexicographic order paths are sorted by.
//!
//! The path separator is `/`; a leading `/` forms a root component of its
//! own, and empty segments (doubled separators, trailing separators) are
//! skipped, as the standard library's path componentization does.

use vstd::prelude::*;

use crate::chars::find_char_from;
use crate::chars::lemma_first_idx_from;
use crate::chars::spec_first_idx_from;
use crate::chars::chars_range_to_vec;
use crate::chars::push_char;
use crate::chars::str_to_chars;

verus! {

/// Split the suffix of `s` from `start` on `/`, skipping empty segments.
pub open spec fn spec_split_rest(s: Seq<char>, start: int) -> Seq<Seq<char>>
    recommends
        0 <= start <= s.len(),
    decreases s.len() - start,
        via spec_split_rest_decreases
{
    if start < 0 || start >= s.len() {
        Seq::empty()
    } else {
        let e = spec_first_idx_from(s, '/', start);
        if e == start {
            spec_split_rest(s, start + 1)
        } else if e >= s.len() {
            seq![s.subrange(start, s.len() as int)]
        } else {
            seq![s.subrange(start, e)] + spec_split_rest(s, e + 1)
        }
    }
}

#[via_fn]
proof fn spec_split_rest_decreases(s: Seq<char>, start: int) {
    if 0 <= start < s.len() {
        lemma_first_idx_from(s, '/', start);
    }
}

/// The components of a path or template: a leading `/` is the root
/// component, the rest splits on `/` with empty segments skipped.
pub open spec fn spec_components(s: Seq<char>) -> Seq<Seq<char>> {
    if s.len() > 0 && s[0] == '/' {
        seq![seq!['/']] + spec_split_rest(s, 1)
    } else {
        spec_split_rest(s, 0)
    }
}

fn split_rest(s: &Vec<char>, start: usize, out: &mut Vec<Vec<char>>)
    requires
        start <= s@.len(),
    ensures
        final(out)@.len() == old(out)@.len() + spec_split_rest(s@, start as int).len(),
        forall|j: int|
            0 <= j < old(out)@.len() ==> final(out)@[j]@ == old(out)@[j]@,
        forall|j: int|
            0 <= j < spec_split_rest(s@, start as int).len() ==> final(out)@[old(out)@.len() + j]@
                == spec_split_rest(s@, start as int)[j],
    decreases s@.len() - start,
{
    if start >= s.len() {
        return ;
    }
    proof {
        lemma_first_idx_from(s@, '/', start as int);
    }
    let e = find_char_from(s, '/', start);
    if e == start {
        split_rest(s, start + 1, out);
    } else if e >= s.len() {
        out.push(chars_range_to_vec(s, start, s.len()));
    } else {
        out.push(chars_range_to_vec(s, start, e));
        split_rest(s, e + 1, out);
    }
}

/// Split a path or template into its components.
pub fn split_components(s: &Vec<char>) -> (r: Vec<Vec<char>>)
    ensures
        r@.len() == spec_components(s@).len(),
        forall|j: int| 0 <= j < r@.len() ==> r@[j]@ == spec_components(s@)[j],
{
    let mut out: Vec<Vec<char>> = Vec::new();
    if s.len() > 0 && s[0] == '/' {
        let mut root: Vec<char> = Vec::new();
        root.push('/');
        assert(root@ =~= seq!['/']);
        out.push(root);
        split_rest(s, 1, &mut out);
    } else {
        split_rest(s, 0, &mut out);
    }
    out
}

/// Join one rendered component onto a base path: an absolute component
/// replaces the base, an empty component changes nothing, anything else is
/// appended behind a single separator.
pub open spec fn spec_join(base: Seq<char>, comp: Seq<char>) -> Seq<char> {
    if comp.len() > 0 && comp[0] == '/' {
        comp
    } else if comp.len() == 0 {
        base
    } else if base.len() == 0 {
        comp
    } else if base.last() == '/' {
        base + comp
    } else {
        base + seq!['/'] + comp
    }
}

/// Join one component onto a base path, in place.
pub fn join_component(base: &mut String, comp: &str)
    ensures
        final(base)@ == spec_join(old(base)@, comp@),
{
    let comp_chars = str_to_chars(comp);
    if comp_chars.len() > 0 && comp_chars[0] == '/' {
        let mut r = String::new();
        r.append(comp);
        core::mem::swap(base, &mut r);
        return ;
    }
    if comp_chars.len() == 0 {
        return ;
    }
    let base_chars = str_to_chars(base.as_str());
    if base_chars.len() == 0 {
        base.append(comp);
        return ;
    }
    if base_chars[base_chars.len() - 1] == '/' {
        base.append(comp);
    } else {
        push_char(base, '/');
        base.append(comp);
        proof {
            assert(base@ =~= old(base)@ + seq!['/'] + comp@);
        }
    }
}

/// The position after the last `/` of `s`, or `0` when there is none.
pub open spec fn spec_after_last_sep(s: Seq<char>) -> int
    decreases s.len(),
{
    if s.len() == 0 {
        0
    } else if s.last() == '/' {
        s.len() as int
    } else {
        spec_after_last_sep(s.drop_last())
    }
}

/// The parent directory of a path: everything before its final component.
/// The root and the empty path have no parent; a bare name's parent is the
/// empty path; a child of the root keeps the root `/`.
pub open spec fn spec_parent_dir(s: Seq<char>) -> Option<Seq<char>> {
    if s.len() == 0 || s =~= seq!['/'] {
        None
    } else {
        let a = spec_after_last_sep(s);
        if a == 0 {
            Some(Seq::empty())
        } else if a == 1 {
            Some(seq!['/'])
        } else {
            Some(s.subrange(0, a - 1))
        }
    }
}

/// Compute the parent directory of a path.
pub fn parent_dir(s: &str) -> (r: Option<String>)
    ensures
        r is Some <==> spec_parent_dir(s@) is Some,
        r matches Some(p) ==> Some(p@) == spec_parent_dir(s@),
{
    let chars = str_to_chars(s);
    if chars.len() == 0 {
        return None;
    }
    if chars.len() == 1 && chars[0] == '/' {
        assert(chars@ =~= seq!['/']);
        return None;
    }
    proof {
        if s@ =~= seq!['/'] {
            assert(chars@.len() == 1 && chars@[0] == '/');
        }
    }
    let mut a: usize = chars.len();
    assert(s@.subrange(0, s@.len() as int) =~= s@);
    while a > 0 && chars[a - 1] != '/'
        invariant
            a <= chars@.len(),
            spec_after_last_sep(s@) == spec_after_last_sep(s@.subrange(0, a as int)),
            chars@ == s@,
        decreases a,
    {
        proof {
            assert(s@.subrange(0, a as int).drop_last() =~= s@.subrange(0, a as int - 1));
        }
        a = a - 1;
    }
    proof {
        if a > 0 {
            assert(s@.subrange(0, a as int).last() == s@[a as int - 1]);
        }
        assert(spec_after_last_sep(s@) == a);
    }
    if a == 0 {
        Some(String::new())
    } else if a == 1 {
        let mut r = String::new();
        push_char(&mut r, '/');
        assert(r@ =~= seq!['/']);
        Some(r)
    } else {
        Some(crate::chars::chars_to_string(&chars_range_to_vec(&chars, 0, a - 1)))
    }
}

/// One component list is a strict prefix of another: the first path is a
/// literal ancestor directory of the second.
pub open spec fn spec_is_ancestor(a: Seq<char>, b: Seq<char>) -> bool {
    let ca = spec_components(a);
    let cb = spec_components(b);
    ca.len() < cb.len() && ca =~= cb.subrange(0, ca.len() as int)
}

/// Whether `a` names a literal ancestor directory of `b`.
pub fn is_ancestor_path(a: &str, b: &str) -> (r: bool)
    ensures
        r == spec_is_ancestor(a@, b@),
{
    let ca = split_components(&str_to_chars(a));
    let cb = split_components(&str_to_chars(b));
    if ca.len() >= cb.len() {
        return false;
    }
    let mut i: usize = 0;
    while i < ca.len()
        invariant
            i <= ca@.len(),
            ca@.len() < cb@.len(),
            ca@.len() == spec_components(a@).len(),
            cb@.len() == spec_components(b@).len(),
            forall|j: int| 0 <= j < ca@.len() ==> ca@[j]@ == spec_components(a@)[j],
            forall|j: int| 0 <= j < cb@.len() ==> cb@[j]@ == spec_components(b@)[j],
            forall|j: int| 0 <= j < i ==> spec_components(a@)[j] == spec_components(b@)[j],
        decreases ca@.len() - i,
    {
        if !chars_equal(&ca[i], &cb[i]) {
            proof {
                assert(spec_components(a@)[i as int] != spec_components(b@)[i as int]);
                assert(!spec_is_ancestor(a@, b@));
            }
            return false;
        }
        i = i + 1;
    }
    proof {
        assert(spec_components(a@) =~= spec_components(b@).subrange(
            0,
            spec_components(a@).len() as int,
        ));
    }
    true
}

/// Compare two character vectors for equality.
pub fn chars_equal(a: &Vec<char>, b: &Vec<char>) -> (r: bool)
    ensures
        r == (a@ == b@),
{
    if a.len() != b.len() {
        return false;
    }
    let mut i: usize = 0;
    while i < a.len()
        invariant
            i <= a@.len(),
            a@.len() == b@.len(),
            forall|j: int| 0 <= j < i ==> a@[j] == b@[j],
        decreases a@.len() - i,
    {
        if a[i] != b[i] {
            return false;
        }
        i = i + 1;
    }
    assert(a@ =~= b@);
    true
}

/// After the inserted separator, the suffix splits to the single appended
/// component.
proof fn lemma_split_rest_tail(p: Seq<char>, c: Seq<char>)
    requires
        c.len() > 0,
        forall|i: int| 0 <= i < c.len() ==> c[i] != '/',
    ensures
        spec_split_rest(p + seq!['/'] + c, p.len() as int + 1) == seq![c],
{
    let s = p + seq!['/'] + c;
    let start = p.len() as int + 1;
    lemma_first_idx_from(s, '/', start);
    let e = spec_first_idx_from(s, '/', start);
    if e < s.len() {
        assert(s[e] == '/');
        assert(s[e] == c[e - start]);
    }
    assert(e == s.len());
    assert(s.subrange(start, s.len() as int) =~= c);
}

/// Splitting distributes over an appended separator and component: the
/// appended component becomes one further component, whatever the prefix
/// splits to.
proof fn lemma_split_rest_append(p: Seq<char>, c: Seq<char>, start: int)
    requires
        0 <= start <= p.len(),
        c.len() > 0,
        forall|i: int| 0 <= i < c.len() ==> c[i] != '/',
    ensures
        spec_split_rest(p + seq!['/'] + c, start) == spec_split_rest(p, start).push(c),
    decreases p.len() - start,
{
    let s = p + seq!['/'] + c;
    lemma_first_idx_from(s, '/', start);
    lemma_first_idx_from(p, '/', start);
    let es = spec_first_idx_from(s, '/', start);
    let ep = spec_first_idx_from(p, '/', start);
    if start == p.len() {
        assert(s[start] == '/');
        assert(es == start);
        lemma_split_rest_tail(p, c);
        assert(spec_split_rest(s, start) == spec_split_rest(s, start + 1));
        assert(spec_split_rest(p, start) =~= Seq::<Seq<char>>::empty());
        assert(Seq::<Seq<char>>::empty().push(c) =~= seq![c]);
    } else if ep < p.len() {
        assert(p[ep] == '/');
        assert(s[ep] == p[ep]);
        assert(es == ep) by {
            if es < ep {
                assert(s[es] == '/');
                assert(p[es] == s[es]);
            } else if es > ep {
                assert(s[ep] != '/');
            }
        }
        if ep == start {
            lemma_split_rest_append(p, c, start + 1);
        } else {
            lemma_split_rest_append(p, c, ep + 1);
            assert(s.subrange(start, es) =~= p.subrange(start, ep));
            assert(spec_split_rest(s, start) == seq![s.subrange(start, es)] + spec_split_rest(
                s,
                es + 1,
            ));
            assert(spec_split_rest(p, start) == seq![p.subrange(start, ep)] + spec_split_rest(
                p,
                ep + 1,
            ));
            assert((seq![p.subrange(start, ep)] + spec_split_rest(p, ep + 1)).push(c)
                =~= seq![p.subrange(start, ep)] + spec_split_rest(p, ep + 1).push(c));
        }
    } else {
        assert(ep == p.len());
        assert(s[p.len() as int] == '/');
        assert(es == p.len()) by {
            if es < p.len() {
                assert(s[es] == '/');
                assert(p[es] == s[es]);
            } else if es > p.len() {
                assert(s[p.len() as int] != '/');
            }
        }
        lemma_split_rest_tail(p, c);
        assert(es < s.len());
        assert(es != start);
        assert(spec_split_rest(s, start) == seq![s.subrange(start, es)] + spec_split_rest(
            s,
            es + 1,
        ));
        assert(s.subrange(start, es) =~= p.subrange(start, p.len() as int));
        assert(spec_split_rest(p, start) == seq![p.subrange(start, p.len() as int)]);
        assert(seq![p.subrange(start, p.len() as int)] + seq![c] =~= spec_split_rest(
            p,
            start,
        ).push(c));
    }
}

/// Joining one separator-free component onto a path adds exactly one
/// component to its splitting.  The base must not end with a separator
/// (the root `/` itself is fine), which every join-built path satisfies.
pub proof fn lemma_components_of_join(base: Seq<char>, comp: Seq<char>)
    requires
        comp.len() > 0,
        comp[0] != '/',
        forall|i: int| 0 <= i < comp.len() ==> comp[i] != '/',
        base.len() > 0 ==> (base.last() != '/' || base =~= seq!['/']),
    ensures
        spec_components(spec_join(base, comp)) == spec_components(base).push(comp),
        spec_join(base, comp).len() > 0,
        spec_join(base, comp).last() != '/',
{
    let j = spec_join(base, comp);
    if base.len() == 0 {
        assert(j == comp);
        assert(spec_components(base) =~= Seq::<Seq<char>>::empty());
        lemma_first_idx_from(comp, '/', 0);
        let e = spec_first_idx_from(comp, '/', 0);
        if e < comp.len() {
            assert(comp[e] == '/');
        }
        assert(e == comp.len());
        assert(comp.subrange(0, comp.len() as int) =~= comp);
        assert(spec_components(comp) =~= seq![comp]);
    } else if base =~= seq!['/'] {
        assert(base.last() == '/');
        assert(j == base + comp);
        assert(j[0] == '/');
        assert(j.last() == comp.last());
        assert(spec_components(base) =~= seq![seq!['/']]) by {
            assert(spec_split_rest(base, 1) =~= Seq::<Seq<char>>::empty());
        }
        assert(spec_components(j) == seq![seq!['/']] + spec_split_rest(j, 1));
        assert(spec_split_rest(j, 1) =~= seq![comp]) by {
            lemma_first_idx_from(j, '/', 1);
            let e = spec_first_idx_from(j, '/', 1);
            if e < j.len() {
                assert(j[e] == comp[e - 1]);
            }
            assert(e == j.len());
            assert(j.subrange(1, j.len() as int) =~= comp);
        }
        assert(seq![seq!['/']] + seq![comp] =~= spec_components(base).push(comp));
    } else {
        assert(base.last() != '/');
        assert(j == base + seq!['/'] + comp);
        assert(j.last() == comp.last());
        if base[0] == '/' {
            assert(j[0] == '/');
            lemma_split_rest_append(base, comp, 1);
            assert(spec_components(j) == seq![seq!['/']] + spec_split_rest(base, 1).push(comp));
            assert(seq![seq!['/']] + spec_split_rest(base, 1).push(comp) =~= (seq![seq!['/']]
                + spec_split_rest(base, 1)).push(comp));
        } else {
            assert(j[0] == base[0]);
            lemma_split_rest_append(base, comp, 0);
        }
    }
}

/// Lexicographic order on paths by character code, the order workspace
/// output is sorted in.  It agrees with the standard library's byte-wise
/// string order, since UTF-8 preserves code-point order.
pub open spec fn spec_lex_leq(a: Seq<char>, b: Seq<char>) -> bool
    decreases a.len(),
{
    if a.len() == 0 {
        true
    } else if b.len() == 0 {
        false
    } else if a[0] == b[0] {
        spec_lex_leq(a.drop_first(), b.drop_first())
    } else {
        a[0] < b[0]
    }
}

/// Decide the lexicographic order of two paths.
pub fn lex_leq(a: &str, b: &str) -> (r: bool)
    ensures
        r == spec_lex_leq(a@, b@),
{
    let ca = str_to_chars(a);
    let cb = str_to_chars(b);
    let mut i: usize = 0;
    assert(a@.subrange(0, a@.len() as int) =~= a@);
    assert(b@.subrange(0, b@.len() as int) =~= b@);
    while i < ca.len() && i < cb.len()
        invariant
            i <= ca@.len() && i <= cb@.len(),
            ca@ == a@ && cb@ == b@,
            spec_lex_leq(a@, b@) == spec_lex_leq(
                a@.subrange(i as int, a@.len() as int),
                b@.subrange(i as int, b@.len() as int),
            ),
        decreases ca@.len() - i,
    {
        proof {
            let sa = a@.subrange(i as int, a@.len() as int);
            let sb = b@.subrange(i as int, b@.len() as int);
            assert(sa.drop_first() =~= a@.subrange(i as int + 1, a@.len() as int));
            assert(sb.drop_first() =~= b@.subrange(i as int + 1, b@.len() as int));
        }
        if ca[i] != cb[i] {
            return ca[i] < cb[i];
        }
        i = i + 1;
    }
    proof {
        let sa = a@.subrange(i as int, a@.len() as int);
        let sb = b@.subrange(i as int, b@.len() as int);
        if i >= ca@.len() {
            assert(sa.len() == 0);
        } else {
            assert(sb.len() == 0 && sa.len() > 0);
        }
    }
    ca.len() <= cb.len()
}

/// The lexicographic order is total.
pub proof fn lemma_lex_total(a: Seq<char>, b: Seq<char>)
    ensures
        spec_lex_leq(a, b) || spec_lex_leq(b, a),
        spec_lex_leq(a, b) && spec_lex_leq(b, a) ==> a == b,
    decreases a.len(),
{
    if a.len() > 0 && b.len() > 0 && a[0] == b[0] {
        lemma_lex_total(a.drop_first(), b.drop_first());
        if spec_lex_leq(a, b) && spec_lex_leq(b, a) {
            assert(a.drop_first() == b.drop_first());
            assert forall|j: int| 0 <= j < a.len() implies a[j] == b[j] by {
                if j > 0 {
                    assert(a[j] == a.drop_first()[j - 1]);
                    assert(b[j] == b.drop_first()[j - 1]);
                }
            }
            assert(a =~= b);
        }
    } else if a.len() > 0 && b.len() > 0 {
        assert(!(spec_lex_leq(a, b) && spec_lex_leq(b, a)));
    } else if a.len() == 0 && b.len() == 0 {
        assert(a =~= b);
    }
}

/// The lexicographic order is transitive.
pub proof fn lemma_lex_trans(a: Seq<char>, b: Seq<char>, c: Seq<char>)
    requires
        spec_lex_leq(a, b),
        spec_lex_leq(b, c),
    ensures
        spec_lex_leq(a, c),
    decreases a.len(),
{
    if a.len() > 0 && b.len() > 0 && c.len() > 0 {
        if a[0] == b[0] && b[0] == c[0] {
            lemma_lex_trans(a.drop_first(), b.drop_first(), c.drop_first());
        }
    }
}

} // verus!
