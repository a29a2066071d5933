//! The four query primitives over a built config: render a key to a path,
//! extract fields back out of a path, find the key that renders to a path,
//! and plan a filesystem search for partially resolved templates.

use vstd::prelude::*;

use crate::chars::str_equal;
use crate::chars::str_to_chars;
use crate::config::Config;
use crate::config::spec_chain;
use crate::error::Error;
use crate::field_key::FieldKey;
use crate::field_key::spec_lower;
use crate::field_key::spec_valid_key;
use crate::path_item::PathItemModel;
use crate::pathtext::join_component;
use crate::pathtext::spec_join;
use crate::resolver::ResolverModel;
use crate::matcher::spec_match_tokens;
use crate::matcher::spec_patterns_covered;
use crate::matcher::match_tokens_at;
use crate::matcher::spec_pair_views;
use crate::path_item::PathItem;
use crate::pathtext::spec_components;
use crate::pathtext::split_components;
use crate::resolver::Resolver;
use crate::resolver::spec_to_path_value;
use crate::rx::regex_compiles;
use crate::rx::spec_anchored;
use crate::token::RenderError;
use crate::token::Token;
use crate::token::TokenModel;
use crate::token::Tokens;
use crate::token::spec_effective_resolver;
use crate::token::spec_has_variables;
use crate::token::spec_to_literal_tokens;
use crate::token::spec_tokens_text;
use crate::token::spec_render_error_matches;
use crate::token::spec_render_tokens;
use crate::value::PathValueModel;
use crate::PathAttributes;
use crate::Resolvers;

verus! {

/// The path a chain of arena nodes renders to under a field map: each
/// node's component is rendered and joined onto the path so far, and the
/// first failing component decides the error.
pub open spec fn spec_render_chain(
    items: Seq<PathItemModel>,
    chain: Seq<int>,
    fields: Map<Seq<char>, PathValueModel>,
    rs: Map<Seq<char>, ResolverModel>,
) -> Result<Seq<char>, RenderError>
    decreases chain.len(),
{
    if chain.len() == 0 {
        Ok(Seq::empty())
    } else {
        match spec_render_chain(items, chain.drop_last(), fields, rs) {
            Err(e) => Err(e),
            Ok(base) => match spec_render_tokens(items[chain.last()].path, fields, rs) {
                Err(e) => Err(e),
                Ok(comp) => Ok(spec_join(base, comp)),
            },
        }
    }
}

/// What `get_path` returns for a declared key: the rendering of the key's
/// root-first chain.
pub open spec fn spec_path_of(
    c: &Config,
    k: Seq<char>,
    fields: Map<Seq<char>, PathValueModel>,
) -> Result<Seq<char>, RenderError>
    recommends
        c.wf(),
        c.item_map@.contains_key(k),
{
    spec_render_chain(
        c.items_model(),
        spec_chain(c.items_model(), c.item_map@[k] as int),
        fields,
        c.resolvers@,
    )
}

/// Render the chain of a declared key into one path.
pub(crate) fn render_path(config: &Config, key: &FieldKey, fields: &PathAttributes) -> (r: Result<
    String,
    Error,
>)
    requires
        config.wf(),
        config.item_map@.contains_key(key@),
    ensures
        spec_path_of(config, key@, fields@) matches Ok(s) ==> r matches Ok(p) && p@ == s,
        spec_path_of(config, key@, fields@) matches Err(e) ==> r is Err
            && spec_render_error_matches(e, fields@, config.resolvers@, &r->Err_0),
{
    let parts = match config.get_item(key) {
        Some(parts) => parts,
        None => {
            proof {
                assert(false);
            }
            return Err(Error::MissingItemError(key.clone()));
        },
    };
    let ghost items_m = config.items_model();
    let ghost chain = spec_chain(items_m, config.item_map@[key@] as int);
    let mut path = String::new();
    let mut i: usize = 0;
    proof {
        assert(chain.take(0) =~= Seq::<int>::empty());
    }
    while i < parts.len()
        invariant
            config.wf(),
            parts@.len() == chain.len(),
            items_m == config.items_model(),
            chain == spec_chain(items_m, config.item_map@[key@] as int),
            config.item_map@.contains_key(key@),
            i <= parts@.len(),
            forall|j: int|
                0 <= j < chain.len() ==> 0 <= #[trigger] chain[j] < items_m.len() && parts@[j]@
                    == items_m[chain[j]],
            spec_render_chain(items_m, chain.take(i as int), fields@, config.resolvers@) == Ok::<
                Seq<char>,
                RenderError,
            >(path@),
        decreases parts@.len() - i,
    {
        proof {
            assert(chain.take(i as int + 1).drop_last() =~= chain.take(i as int));
            assert(chain.take(i as int + 1).last() == chain[i as int]);
        }
        let mut part = String::new();
        match parts[i].path.draw(&mut part, fields, &config.resolvers) {
            Ok(()) => (),
            Err(e) => {
                proof {
                    assert(spec_render_tokens(items_m[chain[i as int]].path, fields@,
                        config.resolvers@) is Err);
                    assert(spec_render_chain(items_m, chain.take(i as int + 1), fields@,
                        config.resolvers@) is Err);
                    crate::path_resolver::lemma_render_chain_prefix_err(
                        items_m,
                        chain,
                        fields@,
                        config.resolvers@,
                        i as int + 1,
                    );
                }
                return Err(e);
            },
        }
        join_component(&mut path, part.as_str());
        i = i + 1;
    }
    proof {
        assert(chain.take(chain.len() as int) =~= chain);
    }
    Ok(path)
}

/// A failing prefix decides the whole chain's error.
pub proof fn lemma_render_chain_prefix_err(
    items: Seq<PathItemModel>,
    chain: Seq<int>,
    fields: Map<Seq<char>, PathValueModel>,
    rs: Map<Seq<char>, ResolverModel>,
    i: int,
)
    requires
        0 <= i <= chain.len(),
        spec_render_chain(items, chain.take(i), fields, rs) is Err,
    ensures
        spec_render_chain(items, chain, fields, rs) == spec_render_chain(
            items,
            chain.take(i),
            fields,
            rs,
        ),
    decreases chain.len() - i,
{
    if i < chain.len() {
        assert(chain.take(i + 1).drop_last() =~= chain.take(i));
        lemma_render_chain_prefix_err(items, chain, fields, rs, i + 1);
    } else {
        assert(chain.take(i) =~= chain);
    }
}

/// Resolve a key and a full set of field values into one concrete path.
/// Every placeholder on the key's chain must have a value.
pub fn get_path(config: &Config, key: &str, fields: &PathAttributes) -> (r: Result<String, Error>)
    requires
        config.wf(),
    ensures
        !spec_valid_key(spec_lower(key@)) ==> (r matches Err(e) && e is ParseError),
        spec_valid_key(spec_lower(key@)) && !config.item_map@.contains_key(spec_lower(key@)) ==> (
        r matches Err(e) && e matches Error::MissingItemError(k) && k@ == spec_lower(key@)),
        spec_valid_key(spec_lower(key@)) && config.item_map@.contains_key(spec_lower(key@)) ==> {
            &&& spec_path_of(config, spec_lower(key@), fields@) matches Ok(s) ==> r matches Ok(p)
                && p@ == s
            &&& spec_path_of(config, spec_lower(key@), fields@) matches Err(e) ==> r is Err
                && spec_render_error_matches(e, fields@, config.resolvers@, &r->Err_0)
        },
{
    let k = match FieldKey::new(key) {
        Ok(k) => k,
        Err(e) => {
            return Err(e);
        },
    };
    if !config.item_map.contains_key(&k) {
        return Err(Error::MissingItemError(k));
    }
    render_path(config, &k, fields)
}

/// What scanning the declared keys in declaration order from position `i`
/// yields: the first key whose rendered path equals the probed path, `None`
/// when no key matches, or the first rendering error.
pub open spec fn spec_key_scan(
    c: &Config,
    fields: Map<Seq<char>, PathValueModel>,
    path: Seq<char>,
    i: int,
) -> Result<Option<Seq<char>>, RenderError>
    recommends
        c.wf(),
        0 <= i <= c.item_map.key_seq().len(),
    decreases c.item_map.key_seq().len() - i,
{
    if i < 0 || i >= c.item_map.key_seq().len() {
        Ok(None)
    } else {
        let k = c.item_map.key_seq()[i];
        match spec_path_of(c, k, fields) {
            Err(e) => Err(e),
            Ok(s) => if s == path {
                Ok(Some(k))
            } else {
                spec_key_scan(c, fields, path, i + 1)
            },
        }
    }
}

/// Find the first declared key, in declaration order, whose rendered path
/// under the given fields equals the probed path.
pub fn get_key<'a>(config: &'a Config, path: &str, fields: &PathAttributes) -> (r: Result<
    Option<&'a FieldKey>,
    Error,
>)
    requires
        config.wf(),
    ensures
        spec_key_scan(config, fields@, path@, 0) matches Ok(k) ==> r matches Ok(rk) && (match k {
            Some(kv) => rk matches Some(f) && f@ == kv,
            None => rk is None,
        }),
        spec_key_scan(config, fields@, path@, 0) matches Err(e) ==> r is Err
            && spec_render_error_matches(e, fields@, config.resolvers@, &r->Err_0),
{
    let n = config.item_map.len();
    let mut i: usize = 0;
    while i < n
        invariant
            config.wf(),
            n == config.item_map.key_seq().len(),
            i <= n,
            spec_key_scan(config, fields@, path@, 0) == spec_key_scan(
                config,
                fields@,
                path@,
                i as int,
            ),
        decreases n - i,
    {
        let k = config.item_map.key_at(i);
        let other = match render_path(config, k, fields) {
            Ok(p) => p,
            Err(e) => {
                return Err(e);
            },
        };
        if str_equal(other.as_str(), path) {
            return Ok(Some(k));
        }
        i = i + 1;
    }
    Ok(None)
}

/// The two ways extraction can fail once a path has matched shape-wise:
/// captured digits that do not fit `u16`, and one field captured twice with
/// two different values.
pub enum ExtractError {
    IntParse(Seq<char>),
    Mismatch(Seq<char>, PathValueModel, PathValueModel),
}

/// Fold captured (key, text) pairs into a field map: each capture parses
/// through its resolver, and a key captured twice must parse to the same
/// value both times.
pub open spec fn spec_fold_captures(
    acc: Map<Seq<char>, PathValueModel>,
    pairs: Seq<(Seq<char>, Seq<char>)>,
    rs: Map<Seq<char>, ResolverModel>,
) -> Result<Map<Seq<char>, PathValueModel>, ExtractError>
    decreases pairs.len(),
{
    if pairs.len() == 0 {
        Ok(acc)
    } else {
        let k = pairs[0].0;
        let w = pairs[0].1;
        match spec_to_path_value(spec_effective_resolver(rs, k), w) {
            None => Err(ExtractError::IntParse(w)),
            Some(v) => if acc.contains_key(k) && acc[k] != v {
                Err(ExtractError::Mismatch(k, v, acc[k]))
            } else {
                spec_fold_captures(acc.insert(k, v), pairs.drop_first(), rs)
            },
        }
    }
}

/// Walk the chain components from position `i`: each node's tokens must
/// match the corresponding path component, and the captures fold into the
/// accumulated field map.
pub open spec fn spec_extract_from(
    items: Seq<PathItemModel>,
    chain: Seq<int>,
    rs: Map<Seq<char>, ResolverModel>,
    comps: Seq<Seq<char>>,
    i: int,
    acc: Map<Seq<char>, PathValueModel>,
) -> Result<Option<Map<Seq<char>, PathValueModel>>, ExtractError>
    recommends
        comps.len() == chain.len(),
    decreases chain.len() - i,
{
    if i < 0 || i >= chain.len() {
        Ok(Some(acc))
    } else {
        match spec_match_tokens(items[chain[i]].path, rs, comps[i]) {
            None => Ok(None),
            Some(pairs) => match spec_fold_captures(acc, pairs, rs) {
                Err(e) => Err(e),
                Ok(acc2) => spec_extract_from(items, chain, rs, comps, i + 1, acc2),
            },
        }
    }
}

/// What `get_fields` returns for a declared key: `None` when the path does
/// not fit the key's shape, otherwise the extracted field map.
pub open spec fn spec_fields_of(c: &Config, k: Seq<char>, path: Seq<char>) -> Result<
    Option<Map<Seq<char>, PathValueModel>>,
    ExtractError,
>
    recommends
        c.wf(),
        c.item_map@.contains_key(k),
{
    let chain = spec_chain(c.items_model(), c.item_map@[k] as int);
    let comps = spec_components(path);
    if comps.len() != chain.len() {
        Ok(None)
    } else {
        spec_extract_from(
            c.items_model(),
            chain,
            c.resolvers@,
            comps,
            0,
            Map::empty(),
        )
    }
}

/// Every shaped string placeholder on the chain has an anchored fragment the
/// `regex` crate accepts.
pub open spec fn spec_chain_patterns_ok(
    items: Seq<PathItemModel>,
    chain: Seq<int>,
    rs: Map<Seq<char>, ResolverModel>,
) -> bool {
    forall|i: int, j: int|
        0 <= i < chain.len() && 0 <= j < items[chain[i]].path.len() ==> (
        #[trigger] items[chain[i]].path[j] matches TokenModel::Var(k) ==> (
        match spec_effective_resolver(rs, k) {
            ResolverModel::Str(Some(p)) => regex_compiles(spec_anchored(p)),
            _ => true,
        }))
}

/// Coverage survives adding further compiled patterns.
proof fn lemma_covered_grow(
    ts: Seq<TokenModel>,
    rs: Map<Seq<char>, ResolverModel>,
    a: Seq<crate::rx::CompiledRegex>,
    b: Seq<crate::rx::CompiledRegex>,
)
    requires
        spec_patterns_covered(ts, rs, a),
        a.len() <= b.len(),
        forall|e: int| 0 <= e < a.len() ==> b[e] == a[e],
    ensures
        spec_patterns_covered(ts, rs, b),
{
    assert forall|i: int|
        0 <= i < ts.len() implies (#[trigger] ts[i] matches TokenModel::Var(k) ==> (
    match spec_effective_resolver(rs, k) {
        ResolverModel::Str(Some(p)) => exists|e: int|
            0 <= e < b.len() && (#[trigger] b[e]).pattern_of() == spec_anchored(p),
        _ => true,
    })) by {
        match ts[i] {
            TokenModel::Var(k) => {
                match spec_effective_resolver(rs, k) {
                    ResolverModel::Str(Some(p)) => {
                        let e = choose|e: int|
                            0 <= e < a.len() && (#[trigger] a[e]).pattern_of() == spec_anchored(
                                p,
                            );
                        assert(b[e].pattern_of() == spec_anchored(p));
                    },
                    _ => (),
                }
            },
            _ => (),
        }
    }
}

/// Compile the anchored fragment of every shaped string placeholder on the
/// chain, so matching can consult them.
fn compile_chain_patterns(parts: &Vec<&PathItem>, rs: &Resolvers) -> (r: Result<
    Vec<crate::rx::CompiledRegex>,
    Error,
>)
    ensures
        r matches Ok(v) ==> forall|i: int|
            0 <= i < parts@.len() ==> spec_patterns_covered(
                (#[trigger] parts@[i])@.path,
                rs@,
                v@,
            ),
        r matches Err(e) ==> e is RegexError && !spec_parts_patterns_ok(parts@, rs@),
{
    let mut compiled: Vec<crate::rx::CompiledRegex> = Vec::new();
    let mut i: usize = 0;
    while i < parts.len()
        invariant
            i <= parts@.len(),
            forall|l: int|
                0 <= l < i ==> spec_patterns_covered((#[trigger] parts@[l])@.path, rs@, compiled@),
        decreases parts@.len() - i,
    {
        let toks = &parts[i].path.tokens;
        let ghost tsv = crate::token::spec_token_views(toks@);
        let mut j: usize = 0;
        while j < toks.len()
            invariant
                j <= toks@.len(),
                tsv == crate::token::spec_token_views(toks@),
                tsv == (parts@[i as int])@.path,
                i < parts@.len(),
                forall|l: int|
                    0 <= l < i ==> spec_patterns_covered(
                        (#[trigger] parts@[l])@.path,
                        rs@,
                        compiled@,
                    ),
                forall|jj: int|
                    0 <= jj < j ==> (#[trigger] tsv[jj] matches TokenModel::Var(k) ==> (
                    match spec_effective_resolver(rs@, k) {
                        ResolverModel::Str(Some(p)) => exists|e: int|
                            0 <= e < compiled@.len() && (#[trigger] compiled@[e]).pattern_of()
                                == spec_anchored(p),
                        _ => true,
                    })),
            decreases toks@.len() - j,
        {
            proof {
                assert(tsv[j as int] == toks@[j as int]@);
            }
            match &toks[j] {
                Token::Literal(_) => {
                    proof {
                        assert(tsv[j as int] is Lit);
                    }
                },
                Token::Variable(key) => {
                    let got = rs.get(key);
                    proof {
                        assert(tsv[j as int] == TokenModel::Var(key@));
                        match got {
                            Some(v) => {
                                assert(spec_effective_resolver(rs@, key@) == v@);
                            },
                            None => {
                                assert(spec_effective_resolver(rs@, key@)
                                    == ResolverModel::Default);
                            },
                        }
                    }
                    match got {
                        Some(Resolver::String { pattern: Some(p) }) => {
                            let anchored = crate::rx::anchor_pattern(p.as_str());
                            match crate::rx::compile_pattern(anchored.as_str()) {
                                Ok(c) => {
                                    let ghost before = compiled@;
                                    compiled.push(c);
                                    proof {
                                        assert(compiled@[before.len() as int].pattern_of()
                                            == spec_anchored(p@));
                                        assert(spec_effective_resolver(rs@, key@)
                                            == ResolverModel::Str(Some(p@)));
                                        assert forall|l: int|
                                            0 <= l < i implies spec_patterns_covered(
                                            (#[trigger] parts@[l])@.path,
                                            rs@,
                                            compiled@,
                                        ) by {
                                            lemma_covered_grow(
                                                (parts@[l])@.path,
                                                rs@,
                                                before,
                                                compiled@,
                                            );
                                        }
                                        assert forall|jj: int|
                                            0 <= jj < j + 1 implies (#[trigger] tsv[jj] matches
                                        TokenModel::Var(k) ==> (
                                        match spec_effective_resolver(rs@, k) {
                                            ResolverModel::Str(Some(pp)) => exists|e: int|
                                                0 <= e < compiled@.len() && (
                                                #[trigger] compiled@[e]).pattern_of()
                                                    == spec_anchored(pp),
                                            _ => true,
                                        })) by {
                                            if jj < j {
                                                match tsv[jj] {
                                                    TokenModel::Var(k) => {
                                                        match spec_effective_resolver(rs@, k) {
                                                            ResolverModel::Str(Some(pp)) => {
                                                                let e = choose|e: int|
                                                                    0 <= e < before.len() && (
                                                                    #[trigger] before[e]).pattern_of()
                                                                        == spec_anchored(pp);
                                                                assert(compiled@[e].pattern_of()
                                                                    == spec_anchored(pp));
                                                            },
                                                            _ => (),
                                                        }
                                                    },
                                                    _ => (),
                                                }
                                            } else {
                                                assert(compiled@[before.len() as int].pattern_of()
                                                    == spec_anchored(p@));
                                            }
                                        }
                                    }
                                },
                                Err(msg) => {
                                    proof {
                                        assert(!regex_compiles(spec_anchored(p@)));
                                        assert((parts@[i as int])@.path[j as int]
                                            == TokenModel::Var(key@));
                                        assert(!spec_parts_patterns_ok(parts@, rs@));
                                    }
                                    return Err(Error::RegexError(msg));
                                },
                            }
                        },
                        _ => (),
                    }
                },
            }
            j = j + 1;
        }
        proof {
            assert(spec_patterns_covered((parts@[i as int])@.path, rs@, compiled@));
        }
        i = i + 1;
    }
    Ok(compiled)
}

/// Every shaped string placeholder on a reconstructed chain has a fragment
/// the `regex` crate accepts.
pub open spec fn spec_parts_patterns_ok(ps: Seq<&PathItem>, rs: Map<
    Seq<char>,
    ResolverModel,
>) -> bool {
    forall|i: int, j: int|
        0 <= i < ps.len() && 0 <= j < (#[trigger] ps[i])@.path.len() ==> ((#[trigger] ps[i]@.path[j])
        matches TokenModel::Var(k) ==> (match spec_effective_resolver(rs, k) {
            ResolverModel::Str(Some(p)) => regex_compiles(spec_anchored(p)),
            _ => true,
        }))
}

/// What the error returned for a failed extraction holds: an unparseable
/// capture carries its text, a mismatch carries the key and both values.
pub open spec fn spec_extract_error_matches(xe: ExtractError, err: &Error) -> bool {
    match xe {
        ExtractError::IntParse(w) => match err {
            Error::ParseIntegerError(t) => t@ == w,
            _ => false,
        },
        ExtractError::Mismatch(mk, mv, mo) => match err {
            Error::MismatchedFieldError { key, value, other_value } => key@ == mk && value@ == mv
                && other_value@ == mo,
            _ => false,
        },
    }
}

/// Extract the field values a concrete path holds for a key: `None` when
/// the path does not fit the key's shape, the extracted map otherwise.  A
/// field captured in two components must parse to the same value in both.
pub fn get_fields(config: &Config, key: &str, path: &str) -> (r: Result<
    Option<PathAttributes>,
    Error,
>)
    requires
        config.wf(),
    ensures
        !spec_valid_key(spec_lower(key@)) ==> (r matches Err(e) && e is ParseError),
        spec_valid_key(spec_lower(key@)) && !config.item_map@.contains_key(spec_lower(key@)) ==> (
        r matches Err(e) && e matches Error::MissingItemError(k) && k@ == spec_lower(key@)),
        spec_valid_key(spec_lower(key@)) && config.item_map@.contains_key(spec_lower(key@)) && (
        r matches Err(e) && e is RegexError) ==> !spec_chain_patterns_ok(
            config.items_model(),
            spec_chain(config.items_model(), config.item_map@[spec_lower(key@)] as int),
            config.resolvers@,
        ),
        spec_valid_key(spec_lower(key@)) && config.item_map@.contains_key(spec_lower(key@))
            && spec_chain_patterns_ok(
            config.items_model(),
            spec_chain(config.items_model(), config.item_map@[spec_lower(key@)] as int),
            config.resolvers@,
        ) ==> (match spec_fields_of(config, spec_lower(key@), path@) {
            Ok(fo) => r matches Ok(ro) && (match fo {
                Some(m) => ro matches Some(f) && f@ == m,
                None => ro is None,
            }),
            Err(xe) => r matches Err(e) && spec_extract_error_matches(xe, &e),
        }),
{
    let k = match FieldKey::new(key) {
        Ok(k) => k,
        Err(e) => {
            return Err(e);
        },
    };
    if !config.item_map.contains_key(&k) {
        return Err(Error::MissingItemError(k));
    }
    let parts = match config.get_item(&k) {
        Some(parts) => parts,
        None => {
            proof {
                assert(false);
            }
            return Err(Error::MissingItemError(k));
        },
    };
    let ghost items_m = config.items_model();
    let ghost chain = spec_chain(items_m, config.item_map@[k@] as int);
    let compiled = match compile_chain_patterns(&parts, &config.resolvers) {
        Ok(v) => v,
        Err(e) => {
            proof {
                assert(!spec_parts_patterns_ok(parts@, config.resolvers@));
                assert(!spec_chain_patterns_ok(items_m, chain, config.resolvers@)) by {
                    if spec_chain_patterns_ok(items_m, chain, config.resolvers@) {
                        assert forall|i: int, j: int|
                            0 <= i < parts@.len() && 0 <= j < (#[trigger] parts@[i])@.path.len()
                            implies ((#[trigger] parts@[i]@.path[j]) matches TokenModel::Var(k2)
                            ==> (match spec_effective_resolver(config.resolvers@, k2) {
                            ResolverModel::Str(Some(p)) => regex_compiles(spec_anchored(p)),
                            _ => true,
                        })) by {
                            assert(parts@[i]@ == items_m[chain[i]]);
                        }
                    }
                }
            }
            return Err(e);
        },
    };
    let path_chars = str_to_chars(path);
    let comps = split_components(&path_chars);
    let ghost comps_v = spec_components(path@);
    if comps.len() != parts.len() {
        return Ok(None);
    }
    let mut out: PathAttributes = crate::attrs::AttrMap::new();
    let mut i: usize = 0;
    proof {
        assert(Map::<Seq<char>, PathValueModel>::empty() =~= out@);
    }
    while i < parts.len()
        invariant
            config.wf(),
            items_m == config.items_model(),
            chain == spec_chain(items_m, config.item_map@[k@] as int),
            config.item_map@.contains_key(k@),
            k@ == spec_lower(key@),
            spec_valid_key(spec_lower(key@)),
            parts@.len() == chain.len(),
            comps@.len() == parts@.len(),
            comps_v == spec_components(path@),
            comps_v.len() == comps@.len(),
            forall|j: int| 0 <= j < comps@.len() ==> (#[trigger] comps@[j])@ == comps_v[j],
            forall|j: int|
                0 <= j < chain.len() ==> 0 <= #[trigger] chain[j] < items_m.len() && parts@[j]@
                    == items_m[chain[j]],
            forall|l: int|
                0 <= l < parts@.len() ==> spec_patterns_covered(
                    (#[trigger] parts@[l])@.path,
                    config.resolvers@,
                    compiled@,
                ),
            i <= parts@.len(),
            spec_extract_from(items_m, chain, config.resolvers@, comps_v, 0, Map::empty())
                == spec_extract_from(items_m, chain, config.resolvers@, comps_v, i as int, out@),
        decreases parts@.len() - i,
    {
        let toks = &parts[i].path.tokens;
        proof {
            assert(crate::token::spec_token_views(toks@) == items_m[chain[i as int]].path);
            assert(crate::token::spec_token_views(toks@).skip(0) =~= crate::token::spec_token_views(
                toks@,
            ));
            assert(comps@[i as int]@.skip(0) =~= comps@[i as int]@);
            assert(spec_patterns_covered(
                crate::token::spec_token_views(toks@).skip(0),
                config.resolvers@,
                compiled@,
            ));
        }
        let pairs = match match_tokens_at(toks, 0, &config.resolvers, &compiled, &comps[i], 0) {
            Some(pairs) => pairs,
            None => {
                proof {
                    assert(spec_match_tokens(
                        items_m[chain[i as int]].path,
                        config.resolvers@,
                        comps_v[i as int],
                    ) is None);
                }
                return Ok(None);
            },
        };
        let ghost pvs = spec_pair_views(pairs@);
        let ghost acc_entry = out@;
        let mut l: usize = 0;
        proof {
            assert(pvs.skip(0) =~= pvs);
        }
        while l < pairs.len()
            invariant
                l <= pairs@.len(),
                pvs == spec_pair_views(pairs@),
                spec_fold_captures(acc_entry, pvs, config.resolvers@) == spec_fold_captures(
                    out@,
                    pvs.skip(l as int),
                    config.resolvers@,
                ),
                config.wf(),
                items_m == config.items_model(),
                chain == spec_chain(items_m, config.item_map@[k@] as int),
                config.item_map@.contains_key(k@),
                k@ == spec_lower(key@),
                spec_valid_key(spec_lower(key@)),
                comps_v == spec_components(path@),
                comps_v.len() == chain.len(),
                0 <= i < chain.len(),
                spec_match_tokens(
                    items_m[chain[i as int]].path,
                    config.resolvers@,
                    comps_v[i as int],
                ) == Some(pvs),
                spec_extract_from(items_m, chain, config.resolvers@, comps_v, 0, Map::empty())
                    == spec_extract_from(
                    items_m,
                    chain,
                    config.resolvers@,
                    comps_v,
                    i as int,
                    acc_entry,
                ),
            decreases pairs@.len() - l,
        {
            proof {
                assert(pvs.skip(l as int)[0] == pvs[l as int]);
                assert(pvs.skip(l as int).drop_first() =~= pvs.skip(l as int + 1));
                assert(pvs[l as int] == (pairs@[l as int].0@, pairs@[l as int].1@));
            }
            let pk = &pairs[l].0;
            let default_resolver = Resolver::Default;
            let got = config.resolvers.get(pk);
            let resv: &Resolver = match got {
                Some(r) => r,
                None => &default_resolver,
            };
            proof {
                assert(resv@ == spec_effective_resolver(config.resolvers@, pk@));
            }
            let value = match resv.to_path_value(pairs[l].1.as_str()) {
                Ok(v) => v,
                Err(e) => {
                    proof {
                        assert(spec_to_path_value(resv@, pairs@[l as int].1@) is None);
                        assert(spec_fold_captures(out@, pvs.skip(l as int), config.resolvers@)
                            == Err::<Map<Seq<char>, PathValueModel>, ExtractError>(
                            ExtractError::IntParse(pairs@[l as int].1@),
                        ));
                        lemma_extract_from_err(
                            items_m,
                            chain,
                            config.resolvers@,
                            comps_v,
                            i as int,
                            acc_entry,
                            pvs,
                        );
                    }
                    return Err(e);
                },
            };
            match out.get(pk) {
                Some(old_value) => {
                    if !old_value.same_value(&value) {
                        let err = Error::MismatchedFieldError {
                            key: pk.clone(),
                            value: value.clone(),
                            other_value: old_value.clone(),
                        };
                        proof {
                            assert(spec_to_path_value(resv@, pairs@[l as int].1@) == Some(
                                value@,
                            ));
                            assert(out@.contains_key(pairs@[l as int].0@) && out@[pairs@[l as int].0@]
                                != value@);
                            assert(spec_fold_captures(out@, pvs.skip(l as int), config.resolvers@)
                                == Err::<Map<Seq<char>, PathValueModel>, ExtractError>(
                                ExtractError::Mismatch(
                                    pairs@[l as int].0@,
                                    value@,
                                    out@[pairs@[l as int].0@],
                                ),
                            ));
                            lemma_extract_from_err(
                                items_m,
                                chain,
                                config.resolvers@,
                                comps_v,
                                i as int,
                                acc_entry,
                                pvs,
                            );
                        }
                        return Err(err);
                    }
                },
                None => (),
            }
            let pk_owned = pairs[l].0.clone();
            out.insert(pk_owned, value);
            l = l + 1;
        }
        proof {
            assert(pvs.skip(pvs.len() as int) =~= Seq::<(Seq<char>, Seq<char>)>::empty());
            assert(spec_fold_captures(acc_entry, pvs, config.resolvers@) == Ok::<
                Map<Seq<char>, PathValueModel>,
                ExtractError,
            >(out@));
        }
        i = i + 1;
    }
    proof {
        assert(spec_extract_from(
            items_m,
            chain,
            config.resolvers@,
            comps_v,
            parts@.len() as int,
            out@,
        ) == Ok::<Option<Map<Seq<char>, PathValueModel>>, ExtractError>(Some(out@)));
    }
    Ok(Some(out))
}

/// Once folding the captures of component `i` has failed, the whole
/// extraction fails with that error.
proof fn lemma_extract_from_err(
    items: Seq<PathItemModel>,
    chain: Seq<int>,
    rs: Map<Seq<char>, ResolverModel>,
    comps: Seq<Seq<char>>,
    i: int,
    acc_entry: Map<Seq<char>, PathValueModel>,
    pvs: Seq<(Seq<char>, Seq<char>)>,
)
    requires
        0 <= i < chain.len(),
        spec_match_tokens(items[chain[i]].path, rs, comps[i]) == Some(pvs),
        spec_fold_captures(acc_entry, pvs, rs) is Err,
    ensures
        spec_extract_from(items, chain, rs, comps, i, acc_entry) == Err::<
            Option<Map<Seq<char>, PathValueModel>>,
            ExtractError,
        >(spec_fold_captures(acc_entry, pvs, rs)->Err_0),
{
}

/// Clone a resolver table, preserving its model exactly.
fn clone_resolvers(rs: &Resolvers) -> (r: Resolvers)
    ensures
        r@ == rs@,
{
    let mut out: Resolvers = crate::attrs::AttrMap::new();
    let n = rs.len();
    let mut i: usize = 0;
    while i < n
        invariant
            n == rs.key_seq().len(),
            i <= n,
            forall|j: int|
                0 <= j < i ==> out@.contains_key(#[trigger] rs.key_seq()[j]) && out@[rs.key_seq()[j]]
                    == rs@[rs.key_seq()[j]],
            forall|k: Seq<char>| out@.contains_key(k) ==> #[trigger] rs@.contains_key(k),
            forall|k: Seq<char>| out@.contains_key(k) ==> #[trigger] out@[k] == rs@[k],
        decreases n - i,
    {
        let k = rs.key_at(i);
        let v = rs.val_at(i);
        out.insert(k.clone(), v.clone());
        i = i + 1;
    }
    proof {
        assert forall|k: Seq<char>| rs@.contains_key(k) implies out@.contains_key(k) by {
            rs.lemma_contains(k);
            let j = choose|j: int| 0 <= j < rs.key_seq().len() && rs.key_seq()[j] == k;
        }
        assert(out@ =~= rs@);
    }
    out
}

/// Where a search walk stands after advancing over fully literal segments:
/// either every segment was consumed (a leaf path), or the walk paused at a
/// segment that still holds placeholders, with the path accumulated so far.
pub enum AdvanceOutcome {
    Leaf(Seq<char>),
    Pause(Seq<char>, int),
}

/// Advance from segment `j`: literal segments extend the accumulated root,
/// the first segment with a placeholder pauses the walk.
pub open spec fn spec_advance(segs: Seq<Seq<TokenModel>>, j: int, root: Seq<char>) -> AdvanceOutcome
    decreases segs.len() - j,
{
    if j < 0 || j >= segs.len() {
        AdvanceOutcome::Leaf(root)
    } else if spec_has_variables(segs[j]) {
        AdvanceOutcome::Pause(root, j)
    } else {
        spec_advance(segs, j + 1, spec_join(root, spec_tokens_text(segs[j])))
    }
}

/// How one directory listing is consumed: each entry name that matches the
/// paused segment is joined onto the paused root and advanced; a walk that
/// consumes every segment yields a result, one that pauses again becomes a
/// further directory to list.
pub open spec fn spec_apply_listing(
    segs: Seq<Seq<TokenModel>>,
    rs: Map<Seq<char>, ResolverModel>,
    root: Seq<char>,
    si: int,
    names: Seq<Seq<char>>,
    pending: Seq<(Seq<char>, int)>,
    results: Seq<Seq<char>>,
) -> (Seq<(Seq<char>, int)>, Seq<Seq<char>>)
    decreases names.len(),
{
    if names.len() == 0 {
        (pending, results)
    } else {
        let n = names[0];
        if 0 <= si < segs.len() && spec_match_tokens(segs[si], rs, n) is Some {
            let child = spec_join(root, n);
            match spec_advance(segs, si + 1, child) {
                AdvanceOutcome::Leaf(p) => spec_apply_listing(
                    segs,
                    rs,
                    root,
                    si,
                    names.drop_first(),
                    pending,
                    results.push(p),
                ),
                AdvanceOutcome::Pause(r2, j2) => spec_apply_listing(
                    segs,
                    rs,
                    root,
                    si,
                    names.drop_first(),
                    pending.push((r2, j2)),
                    results,
                ),
            }
        } else {
            spec_apply_listing(segs, rs, root, si, names.drop_first(), pending, results)
        }
    }
}

/// A paused filesystem search: the key's segments with every resolvable
/// placeholder already rendered, the directories still to be listed, and the
/// paths found so far.  The caller lists each directory `next_dir` names and
/// hands the entry names back through `provide_listing`; the search itself
/// performs no filesystem access.
#[derive(Debug)]
pub struct FindPaths {
    segments: Vec<Tokens>,
    resolvers: Resolvers,
    compiled: Vec<crate::rx::CompiledRegex>,
    pending: Vec<(String, usize)>,
    results: Vec<String>,
}

impl FindPaths {
    /// The partially resolved segments.
    pub closed spec fn segments_v(&self) -> Seq<Seq<TokenModel>> {
        self.segments@.map(|i: int, t: Tokens| t@)
    }

    /// The resolver table the search matches with.
    pub closed spec fn resolvers_v(&self) -> Map<Seq<char>, ResolverModel> {
        self.resolvers@
    }

    /// The directories still to be listed, with the segment each paused at.
    pub closed spec fn pending_v(&self) -> Seq<(Seq<char>, int)> {
        self.pending@.map(|i: int, p: (String, usize)| (p.0@, p.1 as int))
    }

    /// The paths found so far.
    pub closed spec fn results_v(&self) -> Seq<Seq<char>> {
        self.results@.map(|i: int, p: String| p@)
    }

    /// The search is well-formed: every paused segment index is in range and
    /// every shaped placeholder's fragment stands compiled.
    pub closed spec fn wf(&self) -> bool {
        &&& forall|i: int|
            0 <= i < self.pending_v().len() ==> 0 <= (#[trigger] self.pending_v()[i]).1
                < self.segments_v().len()
        &&& forall|i: int|
            0 <= i < self.segments_v().len() ==> spec_patterns_covered(
                #[trigger] self.segments_v()[i],
                self.resolvers@,
                self.compiled@,
            )
    }

    /// The next directory the caller should list, or `None` when the search
    /// has finished.
    pub fn next_dir(&self) -> (r: Option<&String>)
        ensures
            r is Some <==> self.pending_v().len() > 0,
            r matches Some(d) ==> d@ == self.pending_v()[self.pending_v().len() - 1].0,
    {
        if self.pending.len() > 0 {
            let ghost n = self.pending_v().len();
            Some(&self.pending[self.pending.len() - 1].0)
        } else {
            None
        }
    }

    /// The paths found so far; the final answer once `next_dir` is `None`.
    pub fn results(&self) -> (r: &Vec<String>)
        ensures
            r@.map(|i: int, p: String| p@) == self.results_v(),
    {
        &self.results
    }

    /// Consume one directory listing for the most recently paused directory:
    /// matching entry names extend the search, fully consumed walks yield
    /// result paths.
    pub fn provide_listing(&mut self, names: &Vec<String>) -> (done: bool)
        requires
            old(self).wf(),
            old(self).pending_v().len() > 0,
        ensures
            final(self).wf(),
            final(self).segments_v() == old(self).segments_v(),
            final(self).resolvers_v() == old(self).resolvers_v(),
            ({
                let task = old(self).pending_v()[old(self).pending_v().len() - 1];
                let (p2, r2) = spec_apply_listing(
                    old(self).segments_v(),
                    old(self).resolvers_v(),
                    task.0,
                    task.1,
                    names@.map(|i: int, s: String| s@),
                    old(self).pending_v().drop_last(),
                    old(self).results_v(),
                );
                final(self).pending_v() == p2 && final(self).results_v() == r2
            }),
            done == (final(self).pending_v().len() == 0),
    {
        let task = match self.pending.pop() {
            Some(t) => t,
            None => {
                proof {
                    assert(false);
                }
                return true;
            },
        };
        let (root, si) = task;
        let ghost names_v = names@.map(|i: int, s: String| s@);
        let ghost segs = self.segments_v();
        let ghost rsv = self.resolvers@;
        let ghost pend0 = self.pending_v();
        let ghost res0 = self.results_v();
        proof {
            assert(pend0 =~= old(self).pending_v().drop_last());
            assert((root@, si as int) == old(self).pending_v()[old(self).pending_v().len() - 1]);
        }
        let seg_count = self.segments.len();
        let mut l: usize = 0;
        proof {
            assert(names_v.skip(0) =~= names_v);
        }
        while l < names.len()
            invariant
                l <= names@.len(),
                names_v == names@.map(|i: int, s: String| s@),
                segs == self.segments_v(),
                rsv == self.resolvers@,
                self.wf(),
                seg_count == segs.len(),
                0 <= si < seg_count,
                spec_apply_listing(segs, rsv, root@, si as int, names_v, pend0, res0) ==
                    spec_apply_listing(
                    segs,
                    rsv,
                    root@,
                    si as int,
                    names_v.skip(l as int),
                    self.pending_v(),
                    self.results_v(),
                ),
            decreases names@.len() - l,
        {
            proof {
                assert(names_v.skip(l as int)[0] == names_v[l as int]);
                assert(names_v.skip(l as int).drop_first() =~= names_v.skip(l as int + 1));
                assert(names_v[l as int] == names@[l as int]@);
            }
            let name_chars = str_to_chars(names[l].as_str());
            let toks = &self.segments[si].tokens;
            proof {
                assert(crate::token::spec_token_views(toks@) == segs[si as int]);
                assert(crate::token::spec_token_views(toks@).skip(0)
                    =~= crate::token::spec_token_views(toks@));
                assert(name_chars@.skip(0) =~= name_chars@);
            }
            let matched = match_tokens_at(
                toks,
                0,
                &self.resolvers,
                &self.compiled,
                &name_chars,
                0,
            );
            match matched {
                Some(_) => {
                    let mut child = crate::chars::chars_to_string(
                        &crate::chars::str_to_chars(root.as_str()),
                    );
                    join_component(&mut child, names[l].as_str());
                    let outcome = advance_walk(&self.segments, si + 1, child);
                    match outcome {
                        Ok(p) => {
                            let ghost pv = p@;
                            let ghost prev = self.results_v();
                            self.results.push(p);
                            proof {
                                assert(self.results_v() =~= prev.push(pv));
                            }
                        },
                        Err(paused) => {
                            let ghost rv = paused.0@;
                            let ghost jv = paused.1 as int;
                            let ghost prev = self.pending_v();
                            proof {
                                lemma_advance_pause_in_range(segs, si as int + 1, child@);
                            }
                            self.pending.push(paused);
                            proof {
                                assert(self.pending_v() =~= prev.push((rv, jv)));
                            }
                        },
                    }
                },
                None => (),
            }
            l = l + 1;
        }
        proof {
            assert(names_v.skip(names_v.len() as int) =~= Seq::<Seq<char>>::empty());
        }
        self.pending.len() == 0
    }
}

/// The chain's components with every placeholder the fields resolve already
/// rendered to literal text; the first failing component decides the error.
pub open spec fn spec_resolve_chain(
    items: Seq<PathItemModel>,
    chain: Seq<int>,
    fields: Map<Seq<char>, PathValueModel>,
    rs: Map<Seq<char>, ResolverModel>,
) -> Result<Seq<Seq<TokenModel>>, RenderError>
    decreases chain.len(),
{
    if chain.len() == 0 {
        Ok(Seq::empty())
    } else {
        match spec_resolve_chain(items, chain.drop_last(), fields, rs) {
            Err(e) => Err(e),
            Ok(pre) => match spec_to_literal_tokens(items[chain.last()].path, fields, rs) {
                Err(e) => Err(e),
                Ok(ts) => Ok(pre.push(ts)),
            },
        }
    }
}

/// Every shaped string placeholder among the resolved segments has a
/// fragment the `regex` crate accepts.
pub open spec fn spec_segments_patterns_ok(segs: Seq<Seq<TokenModel>>, rs: Map<
    Seq<char>,
    ResolverModel,
>) -> bool {
    forall|i: int, j: int|
        0 <= i < segs.len() && 0 <= j < segs[i].len() ==> (#[trigger] segs[i][j] matches
        TokenModel::Var(k) ==> (match spec_effective_resolver(rs, k) {
            ResolverModel::Str(Some(p)) => regex_compiles(spec_anchored(p)),
            _ => true,
        }))
}

/// Compile the anchored fragment of every shaped string placeholder among
/// the resolved segments.
fn compile_segment_patterns(segments: &Vec<Tokens>, rs: &Resolvers) -> (r: Result<
    Vec<crate::rx::CompiledRegex>,
    Error,
>)
    ensures
        r matches Ok(v) ==> forall|i: int|
            0 <= i < segments@.len() ==> spec_patterns_covered(
                (#[trigger] segments@[i])@,
                rs@,
                v@,
            ),
        r matches Err(e) ==> e is RegexError && !spec_segments_patterns_ok(
            segments@.map(|i: int, t: Tokens| t@),
            rs@,
        ),
{
    let ghost segs = segments@.map(|i: int, t: Tokens| t@);
    let mut compiled: Vec<crate::rx::CompiledRegex> = Vec::new();
    let mut i: usize = 0;
    while i < segments.len()
        invariant
            segs == segments@.map(|i: int, t: Tokens| t@),
            i <= segments@.len(),
            forall|l: int|
                0 <= l < i ==> spec_patterns_covered((#[trigger] segments@[l])@, rs@, compiled@),
        decreases segments@.len() - i,
    {
        let toks = &segments[i].tokens;
        let ghost tsv = crate::token::spec_token_views(toks@);
        proof {
            assert(tsv == (segments@[i as int])@);
            assert(tsv == segs[i as int]);
        }
        let mut j: usize = 0;
        while j < toks.len()
            invariant
                j <= toks@.len(),
                tsv == crate::token::spec_token_views(toks@),
                tsv == (segments@[i as int])@,
                tsv == segs[i as int],
                segs == segments@.map(|i: int, t: Tokens| t@),
                i < segments@.len(),
                forall|l: int|
                    0 <= l < i ==> spec_patterns_covered(
                        (#[trigger] segments@[l])@,
                        rs@,
                        compiled@,
                    ),
                forall|jj: int|
                    0 <= jj < j ==> (#[trigger] tsv[jj] matches TokenModel::Var(k) ==> (
                    match spec_effective_resolver(rs@, k) {
                        ResolverModel::Str(Some(p)) => exists|e: int|
                            0 <= e < compiled@.len() && (#[trigger] compiled@[e]).pattern_of()
                                == spec_anchored(p),
                        _ => true,
                    })),
            decreases toks@.len() - j,
        {
            proof {
                assert(tsv[j as int] == toks@[j as int]@);
            }
            match &toks[j] {
                Token::Literal(_) => {
                    proof {
                        assert(tsv[j as int] is Lit);
                    }
                },
                Token::Variable(key) => {
                    let got = rs.get(key);
                    proof {
                        assert(tsv[j as int] == TokenModel::Var(key@));
                        match got {
                            Some(v) => {
                                assert(spec_effective_resolver(rs@, key@) == v@);
                            },
                            None => {
                                assert(spec_effective_resolver(rs@, key@)
                                    == ResolverModel::Default);
                            },
                        }
                    }
                    match got {
                        Some(Resolver::String { pattern: Some(p) }) => {
                            let anchored = crate::rx::anchor_pattern(p.as_str());
                            match crate::rx::compile_pattern(anchored.as_str()) {
                                Ok(c) => {
                                    let ghost before = compiled@;
                                    compiled.push(c);
                                    proof {
                                        assert(compiled@[before.len() as int].pattern_of()
                                            == spec_anchored(p@));
                                        assert(spec_effective_resolver(rs@, key@)
                                            == ResolverModel::Str(Some(p@)));
                                        assert forall|l: int|
                                            0 <= l < i implies spec_patterns_covered(
                                            (#[trigger] segments@[l])@,
                                            rs@,
                                            compiled@,
                                        ) by {
                                            lemma_covered_grow(
                                                (segments@[l])@,
                                                rs@,
                                                before,
                                                compiled@,
                                            );
                                        }
                                        assert forall|jj: int|
                                            0 <= jj < j + 1 implies (#[trigger] tsv[jj] matches
                                        TokenModel::Var(k) ==> (
                                        match spec_effective_resolver(rs@, k) {
                                            ResolverModel::Str(Some(pp)) => exists|e: int|
                                                0 <= e < compiled@.len() && (
                                                #[trigger] compiled@[e]).pattern_of()
                                                    == spec_anchored(pp),
                                            _ => true,
                                        })) by {
                                            if jj < j {
                                                match tsv[jj] {
                                                    TokenModel::Var(k) => {
                                                        match spec_effective_resolver(rs@, k) {
                                                            ResolverModel::Str(Some(pp)) => {
                                                                let e = choose|e: int|
                                                                    0 <= e < before.len() && (
                                                                    #[trigger] before[e]).pattern_of()
                                                                        == spec_anchored(pp);
                                                                assert(compiled@[e].pattern_of()
                                                                    == spec_anchored(pp));
                                                            },
                                                            _ => (),
                                                        }
                                                    },
                                                    _ => (),
                                                }
                                            } else {
                                                assert(compiled@[before.len() as int].pattern_of()
                                                    == spec_anchored(p@));
                                            }
                                        }
                                    }
                                },
                                Err(msg) => {
                                    proof {
                                        assert(!regex_compiles(spec_anchored(p@)));
                                        assert(segs[i as int][j as int] == TokenModel::Var(
                                            key@,
                                        ));
                                        assert(!spec_segments_patterns_ok(segs, rs@));
                                    }
                                    return Err(Error::RegexError(msg));
                                },
                            }
                        },
                        _ => (),
                    }
                },
            }
            j = j + 1;
        }
        proof {
            assert(spec_patterns_covered((segments@[i as int])@, rs@, compiled@));
        }
        i = i + 1;
    }
    Ok(compiled)
}

/// A freshly planned search: the given segments and resolvers, the given
/// paused directories, and no results yet.
pub open spec fn spec_fresh_plan(
    plan: &FindPaths,
    segs: Seq<Seq<TokenModel>>,
    rs: Map<Seq<char>, ResolverModel>,
    pending: Seq<(Seq<char>, int)>,
) -> bool {
    &&& plan.wf()
    &&& plan.segments_v() == segs
    &&& plan.resolvers_v() == rs
    &&& plan.pending_v() =~= pending
    &&& plan.results_v() =~= Seq::<Seq<char>>::empty()
}

/// Plan a filesystem search for the paths a partially resolved key can name.
/// The given fields are applied to every segment; the search pauses at the
/// first segment that still holds a placeholder.  A search whose very first
/// unresolved segment has no accumulated directory in front of it cannot
/// start and is rejected.
pub fn find_paths(config: &Config, key: &str, fields: &PathAttributes) -> (r: Result<
    FindPaths,
    Error,
>)
    requires
        config.wf(),
    ensures
        !spec_valid_key(spec_lower(key@)) ==> (r matches Err(e) && e is ParseError),
        spec_valid_key(spec_lower(key@)) && !config.item_map@.contains_key(spec_lower(key@)) ==> (
        r matches Err(e) && e matches Error::MissingItemError(k) && k@ == spec_lower(key@)),
        spec_valid_key(spec_lower(key@)) && config.item_map@.contains_key(spec_lower(key@)) ==> ({
            let chain = spec_chain(
                config.items_model(),
                config.item_map@[spec_lower(key@)] as int,
            );
            match spec_resolve_chain(config.items_model(), chain, fields@, config.resolvers@) {
                Err(e) => r is Err && spec_render_error_matches(
                    e,
                    fields@,
                    config.resolvers@,
                    &r->Err_0,
                ),
                Ok(segs) => ((((r matches Err(e) && e is RegexError)
                    ==> !spec_segments_patterns_ok(segs, config.resolvers@))) && ((
                match spec_advance(segs, 0, Seq::empty()) {
                    AdvanceOutcome::Pause(root, j) => root.len() == 0 ==> (r matches Err(e)
                        && e is VariableRootPathError),
                    AdvanceOutcome::Leaf(_) => true,
                })) && ((
                spec_segments_patterns_ok(segs, config.resolvers@) ==> (
                    match spec_advance(segs, 0, Seq::empty()) {
                        AdvanceOutcome::Pause(root, j) => {
                            if root.len() == 0 {
                                r matches Err(e) && e is VariableRootPathError
                            } else {
                                r matches Ok(plan) && spec_fresh_plan(
                                    &plan,
                                    segs,
                                    config.resolvers@,
                                    seq![(root, j)],
                                )
                            }
                        },
                        AdvanceOutcome::Leaf(_) => r matches Ok(plan) && spec_fresh_plan(
                            &plan,
                            segs,
                            config.resolvers@,
                            Seq::empty(),
                        ),
                    })))),
            }
        }),
{
    let k = match FieldKey::new(key) {
        Ok(k) => k,
        Err(e) => {
            return Err(e);
        },
    };
    if !config.item_map.contains_key(&k) {
        return Err(Error::MissingItemError(k));
    }
    let parts = match config.get_item(&k) {
        Some(parts) => parts,
        None => {
            proof {
                assert(false);
            }
            return Err(Error::MissingItemError(k));
        },
    };
    let ghost items_m = config.items_model();
    let ghost chain = spec_chain(items_m, config.item_map@[k@] as int);
    let mut segments: Vec<Tokens> = Vec::new();
    let mut i: usize = 0;
    proof {
        assert(chain.take(0) =~= Seq::<int>::empty());
        assert(segments@.map(|i: int, t: Tokens| t@) =~= Seq::<Seq<TokenModel>>::empty());
    }
    while i < parts.len()
        invariant
            config.wf(),
            items_m == config.items_model(),
            chain == spec_chain(items_m, config.item_map@[k@] as int),
            config.item_map@.contains_key(k@),
            k@ == spec_lower(key@),
            spec_valid_key(spec_lower(key@)),
            parts@.len() == chain.len(),
            i <= parts@.len(),
            forall|j: int|
                0 <= j < chain.len() ==> 0 <= #[trigger] chain[j] < items_m.len() && parts@[j]@
                    == items_m[chain[j]],
            spec_resolve_chain(items_m, chain.take(i as int), fields@, config.resolvers@) == Ok::<
                Seq<Seq<TokenModel>>,
                RenderError,
            >(segments@.map(|i: int, t: Tokens| t@)),
        decreases parts@.len() - i,
    {
        proof {
            assert(chain.take(i as int + 1).drop_last() =~= chain.take(i as int));
            assert(chain.take(i as int + 1).last() == chain[i as int]);
        }
        let resolved = match parts[i].path.try_to_literal_token(fields, &config.resolvers) {
            Ok(t) => t,
            Err(e) => {
                proof {
                    lemma_resolve_chain_prefix_err(
                        items_m,
                        chain,
                        fields@,
                        config.resolvers@,
                        i as int + 1,
                    );
                }
                return Err(e);
            },
        };
        let ghost before = segments@.map(|i: int, t: Tokens| t@);
        segments.push(resolved);
        proof {
            assert(segments@.map(|i: int, t: Tokens| t@) =~= before.push(
                segments@[segments@.len() - 1]@,
            ));
        }
        i = i + 1;
    }
    proof {
        assert(chain.take(chain.len() as int) =~= chain);
    }
    let ghost segs = segments@.map(|i: int, t: Tokens| t@);
    match advance_walk(&segments, 0, String::new()) {
        Ok(_) => {
            let compiled = match compile_segment_patterns(&segments, &config.resolvers) {
                Ok(v) => v,
                Err(e) => {
                    return Err(e);
                },
            };
            let resolvers = clone_resolvers(&config.resolvers);
            let plan = FindPaths {
                segments,
                resolvers,
                compiled,
                pending: Vec::new(),
                results: Vec::new(),
            };
            proof {
                assert(plan.pending_v() =~= Seq::<(Seq<char>, int)>::empty());
                assert(plan.results_v() =~= Seq::<Seq<char>>::empty());
            }
            Ok(plan)
        },
        Err(paused) => {
            if paused.0.as_str().unicode_len() == 0 {
                proof {
                    assert(spec_advance(segs, 0, Seq::empty())
                        matches AdvanceOutcome::Pause(root, j) && root.len() == 0);
                }
                return Err(Error::VariableRootPathError);
            }
            let compiled = match compile_segment_patterns(&segments, &config.resolvers) {
                Ok(v) => v,
                Err(e) => {
                    return Err(e);
                },
            };
            let resolvers = clone_resolvers(&config.resolvers);
            let ghost rv = paused.0@;
            let ghost jv = paused.1 as int;
            proof {
                lemma_advance_pause_in_range(segs, 0, Seq::empty());
            }
            let mut pending: Vec<(String, usize)> = Vec::new();
            pending.push(paused);
            let plan = FindPaths { segments, resolvers, compiled, pending, results: Vec::new() };
            proof {
                assert(plan.pending_v() =~= seq![(rv, jv)]);
                assert(plan.results_v() =~= Seq::<Seq<char>>::empty());
            }
            Ok(plan)
        },
    }
}

/// A failing prefix decides the whole chain's resolution error.
proof fn lemma_resolve_chain_prefix_err(
    items: Seq<PathItemModel>,
    chain: Seq<int>,
    fields: Map<Seq<char>, PathValueModel>,
    rs: Map<Seq<char>, ResolverModel>,
    i: int,
)
    requires
        0 <= i <= chain.len(),
        spec_resolve_chain(items, chain.take(i), fields, rs) is Err,
    ensures
        spec_resolve_chain(items, chain, fields, rs) == spec_resolve_chain(
            items,
            chain.take(i),
            fields,
            rs,
        ),
    decreases chain.len() - i,
{
    if i < chain.len() {
        assert(chain.take(i + 1).drop_last() =~= chain.take(i));
        lemma_resolve_chain_prefix_err(items, chain, fields, rs, i + 1);
    } else {
        assert(chain.take(i) =~= chain);
    }
}

/// Advance over literal segments from `j`, extending the root: `Ok` is a
/// fully consumed walk (a leaf path), `Err` carries the paused root and
/// segment.
fn advance_walk(segments: &Vec<Tokens>, j: usize, root: String) -> (r: Result<
    String,
    (String, usize),
>)
    requires
        j <= segments@.len(),
    ensures
        (match spec_advance(
            segments@.map(|i: int, t: Tokens| t@),
            j as int,
            root@,
        ) {
            AdvanceOutcome::Leaf(p) => r matches Ok(q) && q@ == p,
            AdvanceOutcome::Pause(rr, jj) => r matches Err(e) && e.0@ == rr && e.1 == jj,
        }),
    decreases segments@.len() - j,
{
    let ghost segs = segments@.map(|i: int, t: Tokens| t@);
    if j == segments.len() {
        return Ok(root);
    }
    proof {
        assert(segs[j as int] == segments@[j as int]@);
    }
    if segments[j].has_variable_tokens() {
        return Err((root, j));
    }
    let text = segments[j].template_text();
    let mut root2 = root;
    join_component(&mut root2, text.as_str());
    advance_walk(segments, j + 1, root2)
}

/// A paused advance always pauses within the segment list.
proof fn lemma_advance_pause_in_range(segs: Seq<Seq<TokenModel>>, j: int, root: Seq<char>)
    ensures
        spec_advance(segs, j, root) matches AdvanceOutcome::Pause(r2, j2) ==> 0 <= j2
            < segs.len(),
    decreases segs.len() - j,
{
    if 0 <= j < segs.len() && !spec_has_variables(segs[j]) {
        lemma_advance_pause_in_range(segs, j + 1, spec_join(root, spec_tokens_text(segs[j])));
    }
}

/// A placeholder whose round trip is exact: it has a value, its resolver
/// fits the value's type and is not a caller-supplied fragment, and the
/// rendered text is separator-free (a string value must also be non-empty).
pub open spec fn spec_rt_var_ok(
    k: Seq<char>,
    fields: Map<Seq<char>, PathValueModel>,
    rs: Map<Seq<char>, ResolverModel>,
) -> bool {
    &&& fields.contains_key(k)
    &&& (match fields[k] {
        PathValueModel::Int(_) => spec_effective_resolver(rs, k) is Int,
        PathValueModel::Str(s) => s.len() >= 1 && (spec_effective_resolver(rs, k) is Default
            || spec_effective_resolver(rs, k) == ResolverModel::Str(None::<Seq<char>>)),
    })
    &&& (forall|i: int|
        0 <= i < crate::token::spec_render_value(
            fields[k],
            spec_effective_resolver(rs, k),
        )->Some_0.len() ==> #[trigger] crate::token::spec_render_value(
            fields[k],
            spec_effective_resolver(rs, k),
        )->Some_0[i] != '/')
}

/// A chain component in round-trip shape: all-literal, or its only
/// placeholder standing last.
pub open spec fn spec_rt_component_ok(
    ts: Seq<TokenModel>,
    fields: Map<Seq<char>, PathValueModel>,
    rs: Map<Seq<char>, ResolverModel>,
) -> bool {
    ||| (forall|j: int| 0 <= j < ts.len() ==> (#[trigger] ts[j]) is Lit)
    ||| (ts.len() == 1 && ts[0] is Var && spec_rt_var_ok(ts[0]->Var_0, fields, rs))
    ||| (ts.len() == 2 && ts[0] is Lit && ts[1] is Var && spec_rt_var_ok(ts[1]->Var_0, fields, rs))
}

/// A rendered component that splits back off cleanly: the chain's first
/// component may be the root `/`, every other one is a non-empty name
/// without separators.
pub open spec fn spec_rt_rendered_ok(text: Seq<char>, is_first: bool) -> bool {
    ||| (is_first && text =~= seq!['/'])
    ||| (text.len() > 0 && forall|i: int| 0 <= i < text.len() ==> #[trigger] text[i] != '/')
}

/// Some component of the chain binds this placeholder.
pub open spec fn spec_chain_has_var(
    items: Seq<PathItemModel>,
    chain: Seq<int>,
    i: int,
    key: Seq<char>,
) -> bool {
    exists|a: int, j: int|
        i <= a < chain.len() && 0 <= j < items[chain[a]].path.len()
            && #[trigger] items[chain[a]].path[j] == TokenModel::Var(key)
}

/// Everything the round-trip law asks of a key's chain under a field map.
pub open spec fn spec_rt_chain_ok(
    c: &Config,
    k: Seq<char>,
    fields: Map<Seq<char>, PathValueModel>,
) -> bool {
    let items = c.items_model();
    let chain = spec_chain(items, c.item_map@[k] as int);
    let rs = c.resolvers@;
    &&& forall|i: int|
        0 <= i < chain.len() ==> spec_rt_component_ok(
            (#[trigger] items[chain[i]]).path,
            fields,
            rs,
        )
    &&& forall|i: int|
        0 <= i < chain.len() ==> spec_rt_rendered_ok(
            spec_render_tokens((#[trigger] items[chain[i]]).path, fields, rs)->Ok_0,
            i == 0,
        )
    &&& forall|key: Seq<char>|
        #[trigger] fields.contains_key(key) ==> spec_chain_has_var(items, chain, 0, key)
}

/// In round-trip shape, every component renders, and captures back exactly
/// its placeholder's value.
proof fn lemma_rt_component(
    ts: Seq<TokenModel>,
    fields: Map<Seq<char>, PathValueModel>,
    rs: Map<Seq<char>, ResolverModel>,
)
    requires
        spec_rt_component_ok(ts, fields, rs),
    ensures
        spec_render_tokens(ts, fields, rs) is Ok,
        (forall|j: int| 0 <= j < ts.len() ==> (#[trigger] ts[j]) is Lit) ==> spec_match_tokens(
            ts,
            rs,
            spec_render_tokens(ts, fields, rs)->Ok_0,
        ) == Some(Seq::<(Seq<char>, Seq<char>)>::empty()),
        !(forall|j: int| 0 <= j < ts.len() ==> (#[trigger] ts[j]) is Lit) ==> ({
            let k = ts[ts.len() - 1]->Var_0;
            &&& ts[ts.len() - 1] is Var
            &&& spec_match_tokens(ts, rs, spec_render_tokens(ts, fields, rs)->Ok_0) == Some(
                seq![
                    (
                        k,
                        crate::token::spec_render_value(
                            fields[k],
                            spec_effective_resolver(rs, k),
                        )->Some_0,
                    ),
                ],
            )
            &&& spec_to_path_value(
                spec_effective_resolver(rs, k),
                crate::token::spec_render_value(fields[k], spec_effective_resolver(rs, k))->Some_0,
            ) == Some(fields[k])
        }),
{
    if forall|j: int| 0 <= j < ts.len() ==> (#[trigger] ts[j]) is Lit {
        crate::matcher::lemma_literal_component_match(ts, rs, fields);
    } else if ts.len() == 1 && ts[0] is Var {
        let k = ts[0]->Var_0;
        assert(ts =~= seq![TokenModel::Var(k)]);
        crate::matcher::lemma_component_round_trip(ts, rs, fields, k, None);
    } else {
        assert(ts.len() == 2 && ts[0] is Lit && ts[1] is Var);
        let k = ts[1]->Var_0;
        let l = ts[0]->Lit_0;
        assert(ts =~= seq![TokenModel::Lit(l), TokenModel::Var(k)]);
        crate::matcher::lemma_component_round_trip(ts, rs, fields, k, Some(l));
    }
}

/// The rendered chain prefix joins into a path whose components are exactly
/// the rendered components.
proof fn lemma_chain_path_components(
    items: Seq<PathItemModel>,
    chain: Seq<int>,
    fields: Map<Seq<char>, PathValueModel>,
    rs: Map<Seq<char>, ResolverModel>,
    n: int,
)
    requires
        0 <= n <= chain.len(),
        forall|i: int|
            0 <= i < chain.len() ==> spec_render_tokens(
                items[#[trigger] chain[i]].path,
                fields,
                rs,
            ) is Ok,
        forall|i: int|
            0 <= i < chain.len() ==> spec_rt_rendered_ok(
                spec_render_tokens(items[#[trigger] chain[i]].path, fields, rs)->Ok_0,
                i == 0,
            ),
    ensures
        spec_render_chain(items, chain.take(n), fields, rs) is Ok,
        spec_components(spec_render_chain(items, chain.take(n), fields, rs)->Ok_0) =~= Seq::new(
            n as nat,
            |i: int| spec_render_tokens(items[chain[i]].path, fields, rs)->Ok_0,
        ),
        n > 0 ==> spec_render_chain(items, chain.take(n), fields, rs)->Ok_0.len() > 0,
        ({
            let p = spec_render_chain(items, chain.take(n), fields, rs)->Ok_0;
            p.len() > 0 ==> (p.last() != '/' || p =~= seq!['/'])
        }),
    decreases n,
{
    if n == 0 {
        assert(chain.take(0) =~= Seq::<int>::empty());
        assert(spec_components(Seq::<char>::empty()) =~= Seq::<Seq<char>>::empty());
    } else {
        lemma_chain_path_components(items, chain, fields, rs, n - 1);
        assert(chain.take(n).drop_last() =~= chain.take(n - 1));
        assert(chain.take(n).last() == chain[n - 1]);
        let base = spec_render_chain(items, chain.take(n - 1), fields, rs)->Ok_0;
        let comp = spec_render_tokens(items[chain[n - 1]].path, fields, rs)->Ok_0;
        assert(spec_render_chain(items, chain.take(n), fields, rs) == Ok::<
            Seq<char>,
            RenderError,
        >(crate::pathtext::spec_join(base, comp)));
        if n == 1 {
            assert(base =~= Seq::<char>::empty());
            if comp =~= seq!['/'] {
                assert(crate::pathtext::spec_join(base, comp) == comp);
                assert(spec_components(comp) =~= seq![seq!['/']]) by {
                    assert(crate::pathtext::spec_split_rest(comp, 1)
                        =~= Seq::<Seq<char>>::empty());
                }
                assert(spec_components(comp) =~= Seq::new(
                    1nat,
                    |i: int| spec_render_tokens(items[chain[i]].path, fields, rs)->Ok_0,
                ));
            } else {
                assert(comp.len() > 0 && forall|i: int| 0 <= i < comp.len() ==> #[trigger] comp[i]
                    != '/');
                crate::pathtext::lemma_components_of_join(base, comp);
                assert(spec_components(base) =~= Seq::<Seq<char>>::empty());
                assert(spec_components(base).push(comp) =~= Seq::new(
                    1nat,
                    |i: int| spec_render_tokens(items[chain[i]].path, fields, rs)->Ok_0,
                ));
            }
        } else {
            assert(!(comp =~= seq!['/']) ==> comp.len() > 0);
            assert(spec_rt_rendered_ok(comp, false));
            assert(comp.len() > 0 && forall|i: int| 0 <= i < comp.len() ==> #[trigger] comp[i]
                != '/');
            assert(comp[0] != '/');
            crate::pathtext::lemma_components_of_join(base, comp);
            assert(spec_components(base).push(comp) =~= Seq::new(
                n as nat,
                |i: int| spec_render_tokens(items[chain[i]].path, fields, rs)->Ok_0,
            )) by {
                assert(spec_components(base) =~= Seq::new(
                    (n - 1) as nat,
                    |i: int| spec_render_tokens(items[chain[i]].path, fields, rs)->Ok_0,
                ));
            }
        }
    }
}

/// Extraction over the rendered components folds to exactly the fields the
/// chain's placeholders carry, on top of any accumulator that agrees with
/// the fields.
proof fn lemma_rt_extract(
    items: Seq<PathItemModel>,
    chain: Seq<int>,
    fields: Map<Seq<char>, PathValueModel>,
    rs: Map<Seq<char>, ResolverModel>,
    comps: Seq<Seq<char>>,
    i: int,
    acc: Map<Seq<char>, PathValueModel>,
)
    requires
        0 <= i <= chain.len(),
        comps.len() == chain.len(),
        forall|a: int|
            0 <= a < chain.len() ==> spec_rt_component_ok(
                (#[trigger] items[chain[a]]).path,
                fields,
                rs,
            ),
        forall|a: int|
            i <= a < chain.len() ==> #[trigger] comps[a] == spec_render_tokens(
                items[chain[a]].path,
                fields,
                rs,
            )->Ok_0,
        forall|key: Seq<char>|
            #[trigger] acc.contains_key(key) ==> fields.contains_key(key) && acc[key]
                == fields[key],
    ensures
        spec_extract_from(items, chain, rs, comps, i, acc) matches Ok(o) && o matches Some(m) && (
        forall|key: Seq<char>|
            #[trigger] m.contains_key(key) <==> (acc.contains_key(key) || spec_chain_has_var(
                items,
                chain,
                i,
                key,
            ))) && (forall|key: Seq<char>|
            #[trigger] m.contains_key(key) ==> fields.contains_key(key) && m[key] == fields[key]),
    decreases chain.len() - i,
{
    if i == chain.len() {
        assert(spec_extract_from(items, chain, rs, comps, i, acc) == Ok::<
            Option<Map<Seq<char>, PathValueModel>>,
            ExtractError,
        >(Some(acc)));
        assert(forall|key: Seq<char>| !spec_chain_has_var(items, chain, i, key));
    } else {
        let ts = items[chain[i]].path;
        lemma_rt_component(ts, fields, rs);
        if forall|j: int| 0 <= j < ts.len() ==> (#[trigger] ts[j]) is Lit {
            assert(spec_match_tokens(ts, rs, comps[i]) == Some(
                Seq::<(Seq<char>, Seq<char>)>::empty(),
            ));
            assert(spec_fold_captures(acc, Seq::empty(), rs) == Ok::<
                Map<Seq<char>, PathValueModel>,
                ExtractError,
            >(acc));
            lemma_rt_extract(items, chain, fields, rs, comps, i + 1, acc);
            assert forall|key: Seq<char>|
                spec_chain_has_var(items, chain, i, key) implies spec_chain_has_var(
                items,
                chain,
                i + 1,
                key,
            ) by {
                let (a, j) = choose|a: int, j: int|
                    i <= a < chain.len() && 0 <= j < items[chain[a]].path.len()
                        && #[trigger] items[chain[a]].path[j] == TokenModel::Var(key);
                assert(a != i);
            }
        } else {
            let k0 = ts[ts.len() - 1]->Var_0;
            let v = crate::token::spec_render_value(
                fields[k0],
                spec_effective_resolver(rs, k0),
            )->Some_0;
            let pairs = seq![(k0, v)];
            assert(spec_match_tokens(ts, rs, comps[i]) == Some(pairs));
            assert(spec_to_path_value(spec_effective_resolver(rs, k0), v) == Some(fields[k0]));
            let acc2 = acc.insert(k0, fields[k0]);
            assert(spec_fold_captures(acc, pairs, rs) == Ok::<
                Map<Seq<char>, PathValueModel>,
                ExtractError,
            >(acc2)) by {
                assert(pairs.len() == 1);
                assert(pairs[0].0 == k0 && pairs[0].1 == v);
                assert(spec_to_path_value(spec_effective_resolver(rs, k0), v) == Some(
                    fields[k0],
                ));
                assert(!(acc.contains_key(k0) && acc[k0] != fields[k0]));
                assert(pairs.drop_first() =~= Seq::<(Seq<char>, Seq<char>)>::empty());
                assert(spec_fold_captures(acc2, pairs.drop_first(), rs) == Ok::<
                    Map<Seq<char>, PathValueModel>,
                    ExtractError,
                >(acc2));
            }
            assert(forall|key: Seq<char>|
                #[trigger] acc2.contains_key(key) ==> fields.contains_key(key) && acc2[key]
                    == fields[key]);
            lemma_rt_extract(items, chain, fields, rs, comps, i + 1, acc2);
            assert forall|key: Seq<char>|
                spec_chain_has_var(items, chain, i, key) implies (key == k0
                || spec_chain_has_var(items, chain, i + 1, key)) by {
                let (a, j) = choose|a: int, j: int|
                    i <= a < chain.len() && 0 <= j < items[chain[a]].path.len()
                        && #[trigger] items[chain[a]].path[j] == TokenModel::Var(key);
                if a == i {
                    assert(ts[j] == TokenModel::Var(key));
                    assert(j == ts.len() - 1);
                }
            }
            assert forall|key: Seq<char>|
                (key == k0 || spec_chain_has_var(items, chain, i + 1, key)) implies
                spec_chain_has_var(items, chain, i, key) by {
                if key == k0 {
                    assert(items[chain[i]].path[ts.len() - 1] == TokenModel::Var(k0));
                }
            }
        }
    }
}

/// Round trip: rendering a key's chain and then extracting fields back out
/// of the rendered path recovers exactly the fields that were given.  The
/// chain must be in round-trip shape: every component all-literal or ending
/// in its only placeholder, resolvers fitting their values, rendered parts
/// separator-free, and the fields covering no keys beyond the chain's
/// placeholders.
pub proof fn lemma_round_trip(c: &Config, k: Seq<char>, fields: Map<Seq<char>, PathValueModel>)
    requires
        c.wf(),
        c.item_map@.contains_key(k),
        spec_rt_chain_ok(c, k, fields),
    ensures
        spec_path_of(c, k, fields) is Ok,
        spec_fields_of(c, k, spec_path_of(c, k, fields)->Ok_0) == Ok::<
            Option<Map<Seq<char>, PathValueModel>>,
            ExtractError,
        >(Some(fields)),
{
    let items = c.items_model();
    let chain = spec_chain(items, c.item_map@[k] as int);
    let rs = c.resolvers@;
    assert forall|i: int|
        0 <= i < chain.len() implies spec_render_tokens(
        items[#[trigger] chain[i]].path,
        fields,
        rs,
    ) is Ok by {
        lemma_rt_component(items[chain[i]].path, fields, rs);
    }
    lemma_chain_path_components(items, chain, fields, rs, chain.len() as int);
    assert(chain.take(chain.len() as int) =~= chain);
    let path = spec_render_chain(items, chain, fields, rs)->Ok_0;
    let comps = spec_components(path);
    assert(comps =~= Seq::new(
        chain.len(),
        |i: int| spec_render_tokens(items[chain[i]].path, fields, rs)->Ok_0,
    ));
    assert(comps.len() == chain.len());
    lemma_rt_extract(items, chain, fields, rs, comps, 0, Map::empty());
    let m = spec_extract_from(items, chain, rs, comps, 0, Map::empty())->Ok_0->Some_0;
    assert forall|key: Seq<char>| #[trigger] fields.contains_key(key) implies m.contains_key(
        key,
    ) by {
        assert(spec_chain_has_var(items, chain, 0, key));
    }
    assert(m =~= fields);
    assert(spec_fields_of(c, k, path) == spec_extract_from(
        items,
        chain,
        rs,
        comps,
        0,
        Map::empty(),
    ));
}

} // verus!
