//! Matching one concrete path component against one parsed template
//! component, recovering the text each placeholder captured.
//!
//! The semantics are those of the anchored regular expression the component
//! renders to: literal characters match one-for-one with either separator
//! accepted for a separator, and every placeholder is non-greedy — it takes
//! the shortest window that lets the rest of the component match.  A shaped
//! string placeholder accepts exactly the windows its caller-supplied
//! fragment matches in full; that test is the `regex` crate's.

use vstd::prelude::*;

use crate::chars::chars_range_to_vec;
use crate::chars::chars_to_string;
use crate::chars::is_ascii_digit_char;
use crate::chars::spec_is_ascii_digit;
use crate::digits::spec_all_digits;
use crate::field_key::FieldKey;
use crate::resolver::Resolver;
use crate::resolver::ResolverModel;
use crate::rx::CompiledRegex;
use crate::rx::anchor_pattern;
use crate::rx::regex_matches;
use crate::rx::spec_anchored;
use crate::token::Token;
use crate::token::TokenModel;
use crate::token::spec_effective_resolver;
use crate::token::spec_token_views;
use crate::Resolvers;

verus! {

/// One pattern character against one text character: separators are
/// interchangeable, everything else matches itself.
pub open spec fn spec_lit_char_matches(p: char, t: char) -> bool {
    if p == '/' || p == '\\' {
        t == '/' || t == '\\'
    } else {
        t == p
    }
}

/// A literal token matches the start of the text, character by character.
pub open spec fn spec_lit_matches_at(lit: Seq<char>, text: Seq<char>) -> bool {
    lit.len() <= text.len() && forall|i: int|
        0 <= i < lit.len() ==> spec_lit_char_matches(#[trigger] lit[i], text[i])
}

/// The windows a placeholder may capture under a resolver: any non-empty
/// text for an unshaped placeholder, at least `max(padding, 1)` digits for an
/// integer, and exactly the full matches of the caller's fragment for a
/// shaped string.
///
/// Integer windows are ASCII digits only, a deliberately stricter choice
/// than a Unicode digit class: a window with non-ASCII digits is reported as
/// no match rather than failing the later `u16` parse.  Unshaped windows
/// admit any character, including a newline.
pub open spec fn spec_var_window_ok(m: ResolverModel, w: Seq<char>) -> bool {
    match m {
        ResolverModel::Default => w.len() >= 1,
        ResolverModel::Str(None) => w.len() >= 1,
        ResolverModel::Ent(_) => w.len() >= 1,
        ResolverModel::Int(padding) => w.len() >= (if padding < 1 {
            1int
        } else {
            padding as int
        }) && spec_all_digits(w),
        ResolverModel::Str(Some(pat)) => regex_matches(spec_anchored(pat), w),
    }
}

/// Match a token sequence against a whole text: the first token consumes a
/// prefix and the rest must match the remainder; an empty token sequence
/// matches only the empty text.  The captures come back in token order.
pub open spec fn spec_match_tokens(
    ts: Seq<TokenModel>,
    rs: Map<Seq<char>, ResolverModel>,
    text: Seq<char>,
) -> Option<Seq<(Seq<char>, Seq<char>)>>
    decreases ts.len(), text.len() + 1, 0int,
{
    if ts.len() == 0 {
        if text.len() == 0 {
            Some(Seq::empty())
        } else {
            None
        }
    } else {
        match ts[0] {
            TokenModel::Lit(l) => if spec_lit_matches_at(l, text) {
                spec_match_tokens(ts.drop_first(), rs, text.skip(l.len() as int))
            } else {
                None
            },
            TokenModel::Var(k) => spec_match_var(
                ts.drop_first(),
                rs,
                k,
                spec_effective_resolver(rs, k),
                text,
                0,
            ),
        }
    }
}

/// Non-greedy placeholder matching: try the window of length `w`; if it is
/// admissible and the rest of the tokens match the remainder, capture it;
/// otherwise try the next longer window.
pub open spec fn spec_match_var(
    rest: Seq<TokenModel>,
    rs: Map<Seq<char>, ResolverModel>,
    k: Seq<char>,
    m: ResolverModel,
    text: Seq<char>,
    w: int,
) -> Option<Seq<(Seq<char>, Seq<char>)>>
    decreases rest.len() + 1, text.len() - w, 1int,
{
    if w < 0 || w > text.len() {
        None
    } else {
        let window = text.subrange(0, w);
        let attempt: Option<Seq<(Seq<char>, Seq<char>)>> = if spec_var_window_ok(m, window) {
            match spec_match_tokens(rest, rs, text.skip(w)) {
                Some(pairs) => Some(seq![(k, window)] + pairs),
                None => None,
            }
        } else {
            None
        };
        match attempt {
            Some(r) => Some(r),
            None => if w == text.len() {
                None
            } else {
                spec_match_var(rest, rs, k, m, text, w + 1)
            },
        }
    }
}

/// Every shaped string placeholder among the tokens has its anchored
/// fragment among the compiled patterns.
pub open spec fn spec_patterns_covered(
    ts: Seq<TokenModel>,
    rs: Map<Seq<char>, ResolverModel>,
    compiled: Seq<CompiledRegex>,
) -> bool {
    forall|i: int|
        0 <= i < ts.len() ==> (#[trigger] ts[i] matches TokenModel::Var(k) ==> (
        match spec_effective_resolver(rs, k) {
            ResolverModel::Str(Some(p)) => exists|e: int|
                0 <= e < compiled.len() && (#[trigger] compiled[e]).pattern_of() == spec_anchored(
                    p,
                ),
            _ => true,
        }))
}

/// Coverage of a token suffix extends to the suffix one step further in.
proof fn lemma_covered_drop_first(
    ts: Seq<TokenModel>,
    rs: Map<Seq<char>, ResolverModel>,
    compiled: Seq<CompiledRegex>,
    ti: int,
)
    requires
        0 <= ti < ts.len(),
        spec_patterns_covered(ts.skip(ti), rs, compiled),
    ensures
        spec_patterns_covered(ts.skip(ti + 1), rs, compiled),
{
    let a = ts.skip(ti);
    let b = ts.skip(ti + 1);
    assert forall|i: int|
        0 <= i < b.len() implies (#[trigger] b[i] matches TokenModel::Var(k) ==> (
    match spec_effective_resolver(rs, k) {
        ResolverModel::Str(Some(p)) => exists|e: int|
            0 <= e < compiled.len() && (#[trigger] compiled[e]).pattern_of() == spec_anchored(p),
        _ => true,
    })) by {
        assert(b[i] == a[i + 1]);
    }
}

/// The views of captured pairs.
pub open spec fn spec_pair_views(ps: Seq<(FieldKey, String)>) -> Seq<(Seq<char>, Seq<char>)> {
    ps.map(|i: int, pr: (FieldKey, String)| (pr.0@, pr.1@))
}

/// A final placeholder is non-greedy but must reach the end of the text:
/// matching it against the whole remaining text succeeds exactly when the
/// full text is an admissible window.
proof fn lemma_match_var_last(
    rs: Map<Seq<char>, ResolverModel>,
    k: Seq<char>,
    m: ResolverModel,
    text: Seq<char>,
    w: int,
)
    requires
        0 <= w <= text.len(),
    ensures
        spec_match_var(Seq::empty(), rs, k, m, text, w) == (if spec_var_window_ok(m, text) {
            Some(seq![(k, text)])
        } else {
            None::<Seq<(Seq<char>, Seq<char>)>>
        }),
    decreases text.len() - w,
{
    if w == text.len() {
        assert(text.subrange(0, w) =~= text);
        assert(text.skip(w).len() == 0);
    } else {
        assert(text.skip(w).len() > 0);
        assert(spec_match_tokens(Seq::empty(), rs, text.skip(w)) is None);
        lemma_match_var_last(rs, k, m, text, w + 1);
    }
}

/// A literal matches its own text.
proof fn lemma_lit_self_match(l: Seq<char>, rest: Seq<char>)
    ensures
        spec_lit_matches_at(l, l + rest),
{
    assert forall|i: int| 0 <= i < l.len() implies spec_lit_char_matches(
        #[trigger] l[i],
        (l + rest)[i],
    ) by {
        assert((l + rest)[i] == l[i]);
    }
}

/// A component without placeholders matches exactly its own rendering, and
/// captures nothing.
pub proof fn lemma_literal_component_match(
    ts: Seq<TokenModel>,
    rs: Map<Seq<char>, ResolverModel>,
    fields: Map<Seq<char>, crate::value::PathValueModel>,
)
    requires
        forall|i: int| 0 <= i < ts.len() ==> (#[trigger] ts[i]) is Lit,
    ensures
        crate::token::spec_render_tokens(ts, fields, rs) is Ok,
        spec_match_tokens(ts, rs, crate::token::spec_render_tokens(ts, fields, rs)->Ok_0)
            == Some(Seq::<(Seq<char>, Seq<char>)>::empty()),
    decreases ts.len(),
{
    if ts.len() == 0 {
    } else {
        assert(ts[0] is Lit);
        let l = ts[0]->Lit_0;
        let rest = ts.drop_first();
        assert(forall|i: int| 0 <= i < rest.len() ==> (#[trigger] rest[i]) is Lit) by {
            assert(forall|i: int| 0 <= i < rest.len() ==> rest[i] == ts[i + 1]);
        }
        lemma_literal_component_match(rest, rs, fields);
        let rr = crate::token::spec_render_tokens(rest, fields, rs)->Ok_0;
        assert(crate::token::spec_render_tokens(ts, fields, rs) == Ok::<
            Seq<char>,
            crate::token::RenderError,
        >(l + rr)) by {
            assert(crate::token::spec_render_token(ts[0], fields, rs) == Ok::<
                Seq<char>,
                crate::token::RenderError,
            >(l));
        }
        lemma_lit_self_match(l, rr);
        assert((l + rr).skip(l.len() as int) =~= rr);
    }
}

/// Round trip through one component whose only placeholder stands last:
/// rendering the component from a field value and matching the rendered text
/// back recovers exactly that value.  The placeholder's resolver must fit
/// the value (an integer resolver for an integer, no caller-supplied
/// fragment), and a string value must not be empty.
pub proof fn lemma_component_round_trip(
    ts: Seq<TokenModel>,
    rs: Map<Seq<char>, ResolverModel>,
    fields: Map<Seq<char>, crate::value::PathValueModel>,
    k: Seq<char>,
    lit: Option<Seq<char>>,
)
    requires
        ts == (match lit {
            None => seq![TokenModel::Var(k)],
            Some(l) => seq![TokenModel::Lit(l), TokenModel::Var(k)],
        }),
        fields.contains_key(k),
        (match fields[k] {
            crate::value::PathValueModel::Int(_) => spec_effective_resolver(rs, k) is Int,
            crate::value::PathValueModel::Str(s) => s.len() >= 1 && (spec_effective_resolver(
                rs,
                k,
            ) is Default || spec_effective_resolver(rs, k) == ResolverModel::Str(
                None::<Seq<char>>,
            )),
        }),
    ensures
        crate::token::spec_render_tokens(ts, fields, rs) is Ok,
        spec_match_tokens(ts, rs, crate::token::spec_render_tokens(ts, fields, rs)->Ok_0)
            == Some(
            seq![
                (
                    k,
                    crate::token::spec_render_value(fields[k], spec_effective_resolver(rs, k))->Some_0,
                ),
            ],
        ),
        crate::resolver::spec_to_path_value(
            spec_effective_resolver(rs, k),
            crate::token::spec_render_value(fields[k], spec_effective_resolver(rs, k))->Some_0,
        ) == Some(fields[k]),
{
    let m = spec_effective_resolver(rs, k);
    let rendered = crate::token::spec_render_value(fields[k], m);
    assert(rendered is Some) by {
        match fields[k] {
            crate::value::PathValueModel::Int(n) => {},
            crate::value::PathValueModel::Str(s) => {},
        }
    }
    let v = rendered->Some_0;
    assert(spec_var_window_ok(m, v)) by {
        match fields[k] {
            crate::value::PathValueModel::Int(n) => {
                let padding = m->Int_0;
                crate::digits::lemma_padded_round_trip(n, padding as int);
            },
            crate::value::PathValueModel::Str(s) => {},
        }
    }
    assert(crate::resolver::spec_to_path_value(m, v) == Some(fields[k])) by {
        match fields[k] {
            crate::value::PathValueModel::Int(n) => {
                let padding = m->Int_0;
                crate::digits::lemma_padded_round_trip(n, padding as int);
            },
            crate::value::PathValueModel::Str(s) => {},
        }
    }
    match lit {
        None => {
            assert(crate::token::spec_render_tokens(ts, fields, rs) == Ok::<
                Seq<char>,
                crate::token::RenderError,
            >(v + Seq::empty())) by {
                assert(ts[0] == TokenModel::Var(k));
                assert(crate::token::spec_render_token(ts[0], fields, rs) == Ok::<
                    Seq<char>,
                    crate::token::RenderError,
                >(v));
                assert(ts.drop_first() =~= Seq::<TokenModel>::empty());
                assert(crate::token::spec_render_tokens(ts.drop_first(), fields, rs) == Ok::<
                    Seq<char>,
                    crate::token::RenderError,
                >(Seq::empty()));
            }
            assert(v + Seq::<char>::empty() =~= v);
            assert(ts.drop_first() =~= Seq::<TokenModel>::empty());
            lemma_match_var_last(rs, k, m, v, 0);
        },
        Some(l) => {
            let text = l + v;
            assert(crate::token::spec_render_tokens(ts, fields, rs) == Ok::<
                Seq<char>,
                crate::token::RenderError,
            >(text)) by {
                assert(ts[0] == TokenModel::Lit(l));
                assert(crate::token::spec_render_token(ts[0], fields, rs) == Ok::<
                    Seq<char>,
                    crate::token::RenderError,
                >(l));
                let rest = ts.drop_first();
                assert(rest =~= seq![TokenModel::Var(k)]);
                assert(rest[0] == TokenModel::Var(k));
                assert(crate::token::spec_render_token(rest[0], fields, rs) == Ok::<
                    Seq<char>,
                    crate::token::RenderError,
                >(v));
                assert(rest.drop_first() =~= Seq::<TokenModel>::empty());
                assert(crate::token::spec_render_tokens(rest.drop_first(), fields, rs) == Ok::<
                    Seq<char>,
                    crate::token::RenderError,
                >(Seq::empty()));
                assert(crate::token::spec_render_tokens(rest, fields, rs) == Ok::<
                    Seq<char>,
                    crate::token::RenderError,
                >(v + Seq::empty()));
                assert(v + Seq::<char>::empty() =~= v);
                assert(l + (v + Seq::<char>::empty()) =~= l + v);
            }
            lemma_lit_self_match(l, v);
            assert((l + v).skip(l.len() as int) =~= v);
            assert(ts.drop_first() =~= seq![TokenModel::Var(k)]);
            assert(seq![TokenModel::Var(k)].drop_first() =~= Seq::<TokenModel>::empty());
            lemma_match_var_last(rs, k, m, v, 0);
            assert(spec_match_tokens(seq![TokenModel::Var(k)], rs, v) == Some(seq![(k, v)]));
        },
    }
}

/// Decide whether a window is admissible for a placeholder's resolver.
fn window_ok(
    resv: Option<&Resolver>,
    window: &Vec<char>,
    compiled: &Vec<CompiledRegex>,
) -> (r: bool)
    requires
        (match resv {
            Some(rr) => rr@ matches ResolverModel::Str(Some(p)) ==> exists|e: int|
                0 <= e < compiled@.len() && (#[trigger] compiled@[e]).pattern_of()
                    == spec_anchored(p),
            None => true,
        }),
    ensures
        r == spec_var_window_ok(
            match resv {
                Some(rr) => rr@,
                None => ResolverModel::Default,
            },
            window@,
        ),
{
    let ghost m = match resv {
        Some(rr) => rr@,
        None => ResolverModel::Default,
    };
    match resv {
        None => window.len() >= 1,
        Some(Resolver::Default) => window.len() >= 1,
        Some(Resolver::String { pattern: None }) => window.len() >= 1,
        Some(Resolver::Entity { .. }) => window.len() >= 1,
        Some(Resolver::Integer { padding }) => {
            proof {
                assert(m == ResolverModel::Int(*padding));
            }
            let need: usize = if *padding < 1 {
                1
            } else {
                *padding as usize
            };
            if window.len() < need {
                return false;
            }
            let mut i: usize = 0;
            while i < window.len()
                invariant
                    i <= window@.len(),
                    forall|j: int| 0 <= j < i ==> spec_is_ascii_digit(#[trigger] window@[j]),
                    m == (match resv {
                        Some(rr) => rr@,
                        None => ResolverModel::Default,
                    }),
                    m == ResolverModel::Int(*padding),
                    window@.len() >= (if *padding < 1 {
                        1int
                    } else {
                        *padding as int
                    }),
                decreases window@.len() - i,
            {
                if !is_ascii_digit_char(window[i]) {
                    proof {
                        assert(!spec_all_digits(window@));
                    }
                    return false;
                }
                i = i + 1;
            }
            proof {
                assert(spec_all_digits(window@));
            }
            true
        },
        Some(Resolver::String { pattern: Some(p) }) => {
            proof {
                assert(m == ResolverModel::Str(Some(p@)));
            }
            let anchored = anchor_pattern(p.as_str());
            let mut e: usize = 0;
            let ghost pv = p@;
            while e < compiled.len()
                invariant
                    e <= compiled@.len(),
                    anchored@ == spec_anchored(pv),
                    m == (match resv {
                        Some(rr) => rr@,
                        None => ResolverModel::Default,
                    }),
                    m == ResolverModel::Str(Some(pv)),
                    forall|l: int|
                        0 <= l < e ==> (#[trigger] compiled@[l]).pattern_of() != spec_anchored(pv),
                    exists|l: int|
                        0 <= l < compiled@.len() && (#[trigger] compiled@[l]).pattern_of()
                            == spec_anchored(pv),
                decreases compiled@.len() - e,
            {
                if crate::chars::str_equal(compiled[e].pattern(), anchored.as_str()) {
                    let text = chars_to_string(window);
                    return compiled[e].is_match(text.as_str());
                }
                e = e + 1;
            }
            proof {
                assert(false);
            }
            false
        },
    }
}

/// Match the token suffix starting at `ti` against the text suffix starting
/// at `pos`.
pub(crate) fn match_tokens_at(
    tokens: &Vec<Token>,
    ti: usize,
    rs: &Resolvers,
    compiled: &Vec<CompiledRegex>,
    text: &Vec<char>,
    pos: usize,
) -> (r: Option<Vec<(FieldKey, String)>>)
    requires
        ti <= tokens@.len(),
        pos <= text@.len(),
        spec_patterns_covered(spec_token_views(tokens@).skip(ti as int), rs@, compiled@),
    ensures
        (match spec_match_tokens(
            spec_token_views(tokens@).skip(ti as int),
            rs@,
            text@.skip(pos as int),
        ) {
            Some(ps) => r matches Some(v) && spec_pair_views(v@) == ps,
            None => r is None,
        }),
    decreases tokens@.len() - ti, text@.len() - pos + 1, 0int,
{
    let ghost ts = spec_token_views(tokens@).skip(ti as int);
    let ghost sub = text@.skip(pos as int);
    if ti == tokens.len() {
        proof {
            assert(ts.len() == 0);
        }
        if pos == text.len() {
            let r: Vec<(FieldKey, String)> = Vec::new();
            proof {
                assert(spec_pair_views(r@) =~= Seq::<(Seq<char>, Seq<char>)>::empty());
            }
            return Some(r);
        }
        return None;
    }
    proof {
        assert(ts[0] == tokens@[ti as int]@);
        assert(ts.drop_first() =~= spec_token_views(tokens@).skip(ti as int + 1));
    }
    match &tokens[ti] {
        Token::Literal(l) => {
            let lc = crate::chars::str_to_chars(l.as_str());
            let n = text.len();
            if lc.len() > n - pos {
                proof {
                    assert(!spec_lit_matches_at(l@, sub));
                }
                return None;
            }
            let mut i: usize = 0;
            while i < lc.len()
                invariant
                    i <= lc@.len(),
                    lc@ == l@,
                    n == text@.len(),
                    pos + lc@.len() <= n,
                    sub == text@.skip(pos as int),
                    ts == spec_token_views(tokens@).skip(ti as int),
                    ts.len() > 0,
                    ts[0] == TokenModel::Lit(l@),
                    forall|j: int|
                        0 <= j < i ==> spec_lit_char_matches(#[trigger] lc@[j], text@[pos + j]),
                decreases lc@.len() - i,
            {
                let pc = lc[i];
                let tc = text[pos + i];
                let ok = if pc == '/' || pc == '\\' {
                    tc == '/' || tc == '\\'
                } else {
                    tc == pc
                };
                if !ok {
                    proof {
                        assert(sub[i as int] == text@[pos + i]);
                        assert(!spec_lit_char_matches(l@[i as int], sub[i as int]));
                        assert(!spec_lit_matches_at(l@, sub));
                    }
                    return None;
                }
                i = i + 1;
            }
            proof {
                assert forall|j: int| 0 <= j < l@.len() implies spec_lit_char_matches(
                    #[trigger] l@[j],
                    sub[j],
                ) by {
                    assert(sub[j] == text@[pos + j]);
                }
                assert(spec_lit_matches_at(l@, sub));
                assert(sub.skip(l@.len() as int) =~= text@.skip(pos + l@.len()));
                lemma_covered_drop_first(spec_token_views(tokens@), rs@, compiled@, ti as int);
            }
            match_tokens_at(tokens, ti + 1, rs, compiled, text, pos + lc.len())
        },
        Token::Variable(key) => {
            proof {
                assert(ts[0] matches TokenModel::Var(k) && k == key@);
                lemma_covered_drop_first(spec_token_views(tokens@), rs@, compiled@, ti as int);
            }
            match_var_at(tokens, ti + 1, rs, compiled, key, text, pos, 0)
        },
    }
}

/// Try windows of increasing length for one placeholder at `pos`, matching
/// the rest of the tokens behind each admissible window.
fn match_var_at(
    tokens: &Vec<Token>,
    ti: usize,
    rs: &Resolvers,
    compiled: &Vec<CompiledRegex>,
    key: &FieldKey,
    text: &Vec<char>,
    pos: usize,
    w: usize,
) -> (r: Option<Vec<(FieldKey, String)>>)
    requires
        ti <= tokens@.len(),
        pos + w <= text@.len(),
        spec_patterns_covered(spec_token_views(tokens@).skip(ti as int), rs@, compiled@),
        (match spec_effective_resolver(rs@, key@) {
            ResolverModel::Str(Some(p)) => exists|e: int|
                0 <= e < compiled@.len() && (#[trigger] compiled@[e]).pattern_of() == spec_anchored(
                    p,
                ),
            _ => true,
        }),
    ensures
        (match spec_match_var(
            spec_token_views(tokens@).skip(ti as int),
            rs@,
            key@,
            spec_effective_resolver(rs@, key@),
            text@.skip(pos as int),
            w as int,
        ) {
            Some(ps) => r matches Some(v) && spec_pair_views(v@) == ps,
            None => r is None,
        }),
    decreases tokens@.len() - ti + 1, text@.len() - pos - w, 1int,
{
    let ghost rest = spec_token_views(tokens@).skip(ti as int);
    let ghost sub = text@.skip(pos as int);
    let ghost m = spec_effective_resolver(rs@, key@);
    let n = text.len();
    proof {
        assert(n == text@.len());
    }
    let window = chars_range_to_vec(text, pos, pos + w);
    proof {
        assert(window@ =~= sub.subrange(0, w as int));
    }
    let resv = rs.get(key);
    proof {
        match resv {
            Some(rr) => {
                assert(rr@ == rs@[key@]);
                assert(m == rr@);
            },
            None => {
                assert(m == ResolverModel::Default);
            },
        }
    }
    let mut attempt: Option<Vec<(FieldKey, String)>> = None;
    if window_ok(resv, &window, compiled) {
        proof {
            assert(sub.skip(w as int) =~= text@.skip(pos + w));
        }
        match match_tokens_at(tokens, ti, rs, compiled, text, pos + w) {
            Some(pairs) => {
                let ghost pv = pairs@;
                let mut v = pairs;
                v.insert(0, (key.clone(), chars_to_string(&window)));
                proof {
                    assert(spec_pair_views(v@) =~= seq![(key@, window@)] + spec_pair_views(pv));
                }
                attempt = Some(v);
            },
            None => (),
        }
    }
    match attempt {
        Some(v) => Some(v),
        None => {
            if pos + w == text.len() {
                None
            } else {
                match_var_at(tokens, ti, rs, compiled, key, text, pos, w + 1)
            }
        },
    }
}

} // verus!
