//! The template grammar: parsing one path component into literal and
//! placeholder tokens, and the three renderers over the parsed form (literal
//! text, regular-expression fragment, glob fragment).
//!
//! A component such as `shot_{frame}.exr` parses into
//! `[Literal("shot_"), Variable(frame), Literal(".exr")]`.  Anything between
//! `{` and `}` is trimmed and must be a valid field key; a stray brace is a
//! parse error.

use vstd::prelude::*;

use crate::chars::chars_range_to_vec;
use crate::chars::chars_to_string;
use crate::chars::find_char_from;
use crate::chars::is_space_char;
use crate::chars::lemma_first_idx_from;
use crate::chars::spec_first_idx_from;
use crate::chars::spec_is_space;
use crate::chars::str_to_chars;
use crate::digits::spec_padded_int;
use crate::digits::padded_int_chars;
use crate::error::Error;
use crate::field_key::FieldKey;
use crate::field_key::spec_lower;
use crate::field_key::spec_valid_key;
use crate::field_key::validate_chars;
use crate::resolver::Resolver;
use crate::resolver::ResolverModel;
use crate::resolver::spec_resolver_pattern;
use crate::value::PathValue;
use crate::value::PathValueModel;
use crate::PathAttributes;
use crate::Resolvers;

verus! {

/// One template atom: literal text, or a placeholder bound to a field key.
/// Produced only by the tokenizer.
#[derive(Debug)]
pub enum Token {
    Literal(String),
    Variable(FieldKey),
}

/// Mathematical model of a [`Token`].
pub enum TokenModel {
    Lit(Seq<char>),
    Var(Seq<char>),
}

impl View for Token {
    type V = TokenModel;

    open spec fn view(&self) -> TokenModel {
        match self {
            Token::Literal(s) => TokenModel::Lit(s@),
            Token::Variable(k) => TokenModel::Var(k@),
        }
    }
}

impl Clone for Token {
    fn clone(&self) -> (r: Token)
        ensures
            r@ == self@,
    {
        match self {
            Token::Literal(s) => Token::Literal(s.clone()),
            Token::Variable(k) => Token::Variable(k.clone()),
        }
    }
}

/// A parsed template component: an ordered sequence of tokens.
#[derive(Debug)]
pub struct Tokens {
    pub tokens: Vec<Token>,
}

/// The views of a token sequence.
pub open spec fn spec_token_views(ts: Seq<Token>) -> Seq<TokenModel> {
    ts.map(|i: int, t: Token| t@)
}

impl View for Tokens {
    type V = Seq<TokenModel>;

    open spec fn view(&self) -> Seq<TokenModel> {
        spec_token_views(self.tokens@)
    }
}

impl Clone for Tokens {
    fn clone(&self) -> (r: Tokens)
        ensures
            r@ == self@,
    {
        let mut tokens: Vec<Token> = Vec::new();
        let mut i: usize = 0;
        while i < self.tokens.len()
            invariant
                i <= self.tokens@.len(),
                tokens@.len() == i,
                forall|j: int| 0 <= j < i ==> tokens@[j]@ == self.tokens@[j]@,
            decreases self.tokens@.len() - i,
        {
            tokens.push(self.tokens[i].clone());
            i = i + 1;
        }
        let r = Tokens { tokens };
        assert(r@ =~= self@);
        r
    }
}

/// Drop leading whitespace.
pub open spec fn spec_trim_start(s: Seq<char>) -> Seq<char>
    decreases s.len(),
{
    if s.len() > 0 && spec_is_space(s[0]) {
        spec_trim_start(s.drop_first())
    } else {
        s
    }
}

/// Drop trailing whitespace.
pub open spec fn spec_trim_end(s: Seq<char>) -> Seq<char>
    decreases s.len(),
{
    if s.len() > 0 && spec_is_space(s.last()) {
        spec_trim_end(s.drop_last())
    } else {
        s
    }
}

/// Drop leading and trailing whitespace.
pub open spec fn spec_trim(s: Seq<char>) -> Seq<char> {
    spec_trim_end(spec_trim_start(s))
}

proof fn lemma_trim_start_at(s: Seq<char>, a: int)
    requires
        0 <= a <= s.len(),
        forall|j: int| 0 <= j < a ==> spec_is_space(#[trigger] s[j]),
        a == s.len() || !spec_is_space(s[a]),
    ensures
        spec_trim_start(s) == s.subrange(a, s.len() as int),
    decreases a,
{
    if a == 0 {
        if s.len() == 0 || !spec_is_space(s[0]) {
            assert(s.subrange(0, s.len() as int) =~= s);
        }
    } else {
        let t = s.drop_first();
        assert(t =~= s.subrange(1, s.len() as int));
        lemma_trim_start_at(t, a - 1);
        assert(t.subrange(a - 1, t.len() as int) =~= s.subrange(a, s.len() as int));
    }
}

proof fn lemma_trim_end_at(s: Seq<char>, b: int)
    requires
        0 <= b <= s.len(),
        forall|j: int| b <= j < s.len() ==> spec_is_space(#[trigger] s[j]),
        b == 0 || !spec_is_space(s[b - 1]),
    ensures
        spec_trim_end(s) == s.subrange(0, b),
    decreases s.len(),
{
    if b == s.len() {
        if s.len() == 0 || !spec_is_space(s.last()) {
            assert(s.subrange(0, b) =~= s);
        }
    } else {
        let t = s.drop_last();
        assert(t =~= s.subrange(0, s.len() - 1));
        lemma_trim_end_at(t, b);
        assert(t.subrange(0, b) =~= s.subrange(0, b));
    }
}

/// Trim the index range `[a, b)` of `s`: the returned pair bounds the same
/// text with surrounding whitespace dropped.
fn trim_range(s: &Vec<char>, a: usize, b: usize) -> (r: (usize, usize))
    requires
        a <= b <= s@.len(),
    ensures
        a <= r.0 <= r.1 <= b,
        s@.subrange(r.0 as int, r.1 as int) == spec_trim(s@.subrange(a as int, b as int)),
{
    let ghost orig = s@.subrange(a as int, b as int);
    let mut lo: usize = a;
    while lo < b && is_space_char(s[lo])
        invariant
            a <= lo <= b <= s@.len(),
            forall|j: int| a <= j < lo ==> spec_is_space(#[trigger] s@[j]),
        decreases b - lo,
    {
        lo = lo + 1;
    }
    proof {
        assert forall|j: int| 0 <= j < lo - a implies spec_is_space(#[trigger] orig[j]) by {
            assert(orig[j] == s@[a + j]);
        }
        lemma_trim_start_at(orig, lo - a);
    }
    let ghost started = orig.subrange(lo - a, orig.len() as int);
    assert(started =~= s@.subrange(lo as int, b as int));
    let mut hi: usize = b;
    while hi > lo && is_space_char(s[hi - 1])
        invariant
            lo <= hi <= b <= s@.len(),
            forall|j: int| hi <= j < b ==> spec_is_space(#[trigger] s@[j]),
        decreases hi,
    {
        hi = hi - 1;
    }
    proof {
        assert forall|j: int| hi - lo <= j < started.len() implies spec_is_space(
            #[trigger] started[j],
        ) by {
            assert(started[j] == s@[lo + j]);
        }
        if hi > lo {
            assert(started[hi - lo - 1] == s@[hi - 1]);
        }
        lemma_trim_end_at(started, hi - lo);
        assert(started.subrange(0, hi - lo) =~= s@.subrange(lo as int, hi as int));
    }
    (lo, hi)
}

/// The three ways tokenizing a component can fail.
pub enum TokenizeError {
    /// A `}` with no `{` before it.
    MissingOpen,
    /// A `{` with no `}` after it.
    MissingClose,
    /// The text between the braces is not a valid field key.
    InvalidVar,
}

/// Tokenize the suffix of `s` starting at `start`.
///
/// Everything before the first `{` is a literal token (omitted when empty);
/// the trimmed text between the braces must be a valid field key and becomes
/// a variable token holding its lower-cased form; the remainder after `}` is
/// tokenized recursively.  A `}` before the first `{` or a `{` without `}` is
/// an error.
pub open spec fn spec_tokenize_from(s: Seq<char>, start: int) -> Result<
    Seq<TokenModel>,
    TokenizeError,
>
    recommends
        0 <= start <= s.len(),
    decreases s.len() - start,
        via spec_tokenize_from_decreases
{
    let ob = spec_first_idx_from(s, '{', start);
    let cb_first = spec_first_idx_from(s, '}', start);
    if ob == s.len() {
        if cb_first < s.len() {
            Err(TokenizeError::MissingOpen)
        } else if start == s.len() {
            Ok(Seq::empty())
        } else {
            Ok(seq![TokenModel::Lit(s.subrange(start, s.len() as int))])
        }
    } else if cb_first < ob {
        Err(TokenizeError::MissingOpen)
    } else {
        let cb = spec_first_idx_from(s, '}', ob);
        if cb == s.len() {
            Err(TokenizeError::MissingClose)
        } else {
            let inside = spec_trim(s.subrange(ob + 1, cb));
            if !spec_valid_key(inside) {
                Err(TokenizeError::InvalidVar)
            } else {
                match spec_tokenize_from(s, cb + 1) {
                    Err(e) => Err(e),
                    Ok(rest) => Ok(
                        (if ob > start {
                            seq![TokenModel::Lit(s.subrange(start, ob))]
                        } else {
                            Seq::empty()
                        }) + seq![TokenModel::Var(spec_lower(inside))] + rest,
                    ),
                }
            }
        }
    }
}

#[via_fn]
proof fn spec_tokenize_from_decreases(s: Seq<char>, start: int) {
    if 0 <= start <= s.len() {
        lemma_first_idx_from(s, '{', start);
        let ob = spec_first_idx_from(s, '{', start);
        if ob < s.len() {
            lemma_first_idx_from(s, '}', ob);
        }
    }
}

/// Tokenize a whole component.
pub open spec fn spec_tokenize(s: Seq<char>) -> Result<Seq<TokenModel>, TokenizeError> {
    spec_tokenize_from(s, 0)
}

/// The parse-error text for each way tokenizing can fail.
pub open spec fn spec_tokenize_error_text(e: TokenizeError) -> Seq<char> {
    match e {
        TokenizeError::MissingOpen => "Missing opening '{'"@,
        TokenizeError::MissingClose => "Missing closing '}'"@,
        TokenizeError::InvalidVar => "Invalid variable"@,
    }
}

impl Tokens {
    /// Parse one path-component template.
    pub fn new(value: &str) -> (r: Result<Tokens, Error>)
        ensures
            spec_tokenize(value@) matches Ok(ts) ==> r matches Ok(t) && t@ == ts,
            spec_tokenize(value@) matches Err(e) ==> r matches Err(err) && err matches
                Error::ParseError(m) && m@ == spec_tokenize_error_text(e),
    {
        let chars = str_to_chars(value);
        let mut tokens: Vec<Token> = Vec::new();
        match tokenize_from(&chars, 0, &mut tokens) {
            Ok(()) => {
                proof {
                    assert(spec_token_views(tokens@) =~= spec_tokenize(
                        value@,
                    )->Ok_0);
                }
                Ok(Tokens { tokens })
            },
            Err(e) => Err(e),
        }
    }
}

/// Parse one path-component template given as characters.
pub fn tokens_from_chars(chars: &Vec<char>) -> (r: Result<Tokens, Error>)
    ensures
        spec_tokenize(chars@) matches Ok(ts) ==> r matches Ok(t) && t@ == ts,
        spec_tokenize(chars@) matches Err(e) ==> r matches Err(err) && err matches
            Error::ParseError(m) && m@ == spec_tokenize_error_text(e),
{
    let mut tokens: Vec<Token> = Vec::new();
    match tokenize_from(chars, 0, &mut tokens) {
        Ok(()) => {
            proof {
                assert(spec_token_views(tokens@) =~= spec_tokenize(chars@)->Ok_0);
            }
            Ok(Tokens { tokens })
        },
        Err(e) => Err(e),
    }
}

/// Tokenize the suffix of `chars` starting at `start`, appending the parsed
/// tokens.
fn tokenize_from(chars: &Vec<char>, start: usize, tokens: &mut Vec<Token>) -> (r: Result<
    (),
    Error,
>)
    requires
        start <= chars@.len(),
    ensures
        spec_tokenize_from(chars@, start as int) matches Ok(ts) ==> r is Ok && spec_token_views(
            final(tokens)@,
        ) == spec_token_views(old(tokens)@) + ts,
        spec_tokenize_from(chars@, start as int) matches Err(e) ==> r matches Err(err)
            && err matches Error::ParseError(m) && m@ == spec_tokenize_error_text(e),
    decreases chars@.len() - start,
{
    proof {
        lemma_first_idx_from(chars@, '{', start as int);
        lemma_first_idx_from(chars@, '}', start as int);
    }
    let ob = find_char_from(chars, '{', start);
    let cb_first = find_char_from(chars, '}', start);
    if ob == chars.len() {
        if cb_first < chars.len() {
            return Err(Error::ParseError("Missing opening '{'"));
        }
        if start < chars.len() {
            let lit = chars_range_to_vec(chars, start, chars.len());
            tokens.push(Token::Literal(chars_to_string(&lit)));
            proof {
                assert(spec_token_views(tokens@) =~= spec_token_views(old(tokens)@)
                    + spec_tokenize_from(chars@, start as int)->Ok_0);
            }
        } else {
            proof {
                assert(spec_token_views(tokens@) =~= spec_token_views(old(tokens)@)
                    + spec_tokenize_from(chars@, start as int)->Ok_0);
            }
        }
        return Ok(());
    }
    if cb_first < ob {
        return Err(Error::ParseError("Missing opening '{'"));
    }
    proof {
        lemma_first_idx_from(chars@, '}', ob as int);
    }
    let cb = find_char_from(chars, '}', ob);
    if cb == chars.len() {
        return Err(Error::ParseError("Missing closing '}'"));
    }
    let (ilo, ihi) = trim_range(chars, ob + 1, cb);
    let ghost inside = spec_trim(chars@.subrange(ob as int + 1, cb as int));
    let inside_chars = chars_range_to_vec(chars, ilo, ihi);
    assert(inside_chars@ == inside);
    if !validate_chars(&inside_chars) {
        return Err(Error::ParseError("Invalid variable"));
    }
    let ghost prefix_views = spec_token_views(tokens@);
    if ob > start {
        let lit = chars_range_to_vec(chars, start, ob);
        tokens.push(Token::Literal(chars_to_string(&lit)));
        proof {
            assert(spec_token_views(tokens@) =~= prefix_views + seq![
                TokenModel::Lit(chars@.subrange(start as int, ob as int)),
            ]);
        }
    }
    let key = match FieldKey::new(chars_to_string(&inside_chars).as_str()) {
        Ok(k) => k,
        Err(_) => {
            proof {
                crate::field_key::lemma_valid_key_lower(inside);
            }
            return Err(Error::ParseError("Invalid variable"));
        },
    };
    let ghost before_var = spec_token_views(tokens@);
    tokens.push(Token::Variable(key));
    proof {
        assert(spec_token_views(tokens@) =~= before_var + seq![TokenModel::Var(spec_lower(
            inside,
        ))]);
    }
    let r = tokenize_from(chars, cb + 1, tokens);
    proof {
        if spec_tokenize_from(chars@, start as int) is Ok {
            assert(spec_token_views(tokens@) =~= spec_token_views(old(tokens)@)
                + spec_tokenize_from(chars@, start as int)->Ok_0);
        }
    }
    r
}

/// The two ways rendering a token can fail: the placeholder has no value in
/// the field map, or the value's type does not fit the declared resolver.
pub enum RenderError {
    MissingField(Seq<char>),
    TypeMismatch(Seq<char>),
}

/// The resolver in force for a placeholder: the declared one, or the default.
pub open spec fn spec_effective_resolver(
    rs: Map<Seq<char>, ResolverModel>,
    k: Seq<char>,
) -> ResolverModel {
    if rs.contains_key(k) {
        rs[k]
    } else {
        ResolverModel::Default
    }
}

/// How one field value renders under a resolver: integers render zero-padded
/// to the resolver's padding (no padding under the default resolver), strings
/// render as they are; a value whose type does not fit the resolver does not
/// render.
pub open spec fn spec_render_value(v: PathValueModel, m: ResolverModel) -> Option<Seq<char>> {
    match v {
        PathValueModel::Int(n) => match m {
            ResolverModel::Default => Some(spec_padded_int(n, 0)),
            ResolverModel::Int(padding) => Some(spec_padded_int(n, padding as int)),
            _ => None,
        },
        PathValueModel::Str(s) => match m {
            ResolverModel::Default => Some(s),
            ResolverModel::Str(_) => Some(s),
            _ => None,
        },
    }
}

/// How one token renders: literals copy their text, variables render their
/// field value.
pub open spec fn spec_render_token(
    t: TokenModel,
    fields: Map<Seq<char>, PathValueModel>,
    rs: Map<Seq<char>, ResolverModel>,
) -> Result<Seq<char>, RenderError> {
    match t {
        TokenModel::Lit(s) => Ok(s),
        TokenModel::Var(k) => if !fields.contains_key(k) {
            Err(RenderError::MissingField(k))
        } else {
            match spec_render_value(fields[k], spec_effective_resolver(rs, k)) {
                Some(s) => Ok(s),
                None => Err(RenderError::TypeMismatch(k)),
            }
        },
    }
}

/// How a token sequence renders: the concatenation of its tokens' renderings,
/// or the first failure.
pub open spec fn spec_render_tokens(
    ts: Seq<TokenModel>,
    fields: Map<Seq<char>, PathValueModel>,
    rs: Map<Seq<char>, ResolverModel>,
) -> Result<Seq<char>, RenderError>
    decreases ts.len(),
{
    if ts.len() == 0 {
        Ok(Seq::empty())
    } else {
        match spec_render_token(ts[0], fields, rs) {
            Err(e) => Err(e),
            Ok(s) => match spec_render_tokens(ts.drop_first(), fields, rs) {
                Err(e) => Err(e),
                Ok(rest) => Ok(s + rest),
            },
        }
    }
}

/// A token is resolved by a field map when it is a literal or its placeholder
/// has a value.
pub open spec fn spec_token_resolved_by(t: TokenModel, fields: Map<
    Seq<char>,
    PathValueModel,
>) -> bool {
    match t {
        TokenModel::Lit(_) => true,
        TokenModel::Var(k) => fields.contains_key(k),
    }
}

/// Every token of the sequence is resolved by the field map.
pub open spec fn spec_tokens_resolved_by(
    ts: Seq<TokenModel>,
    fields: Map<Seq<char>, PathValueModel>,
) -> bool {
    forall|i: int| 0 <= i < ts.len() ==> spec_token_resolved_by(#[trigger] ts[i], fields)
}

/// The sequence holds at least one placeholder.
pub open spec fn spec_has_variables(ts: Seq<TokenModel>) -> bool {
    exists|i: int| 0 <= i < ts.len() && #[trigger] ts[i] is Var
}

/// How one token partially resolves: a variable with a value becomes the
/// literal it renders to; one without a value stays a variable.
pub open spec fn spec_to_literal_token(
    t: TokenModel,
    fields: Map<Seq<char>, PathValueModel>,
    rs: Map<Seq<char>, ResolverModel>,
) -> Result<TokenModel, RenderError> {
    match t {
        TokenModel::Lit(s) => Ok(TokenModel::Lit(s)),
        TokenModel::Var(k) => if !fields.contains_key(k) {
            Ok(TokenModel::Var(k))
        } else {
            match spec_render_value(fields[k], spec_effective_resolver(rs, k)) {
                Some(s) => Ok(TokenModel::Lit(s)),
                None => Err(RenderError::TypeMismatch(k)),
            }
        },
    }
}

/// Partial resolution of a token sequence, token by token.
pub open spec fn spec_to_literal_tokens(
    ts: Seq<TokenModel>,
    fields: Map<Seq<char>, PathValueModel>,
    rs: Map<Seq<char>, ResolverModel>,
) -> Result<Seq<TokenModel>, RenderError>
    decreases ts.len(),
{
    if ts.len() == 0 {
        Ok(Seq::empty())
    } else {
        match spec_to_literal_token(ts[0], fields, rs) {
            Err(e) => Err(e),
            Ok(t) => match spec_to_literal_tokens(ts.drop_first(), fields, rs) {
                Err(e) => Err(e),
                Ok(rest) => Ok(seq![t] + rest),
            },
        }
    }
}

/// The characters the `regex` crate treats as meta characters and escapes.
pub open spec fn spec_is_regex_meta(c: char) -> bool {
    ||| c == '\\'
    ||| c == '.'
    ||| c == '+'
    ||| c == '*'
    ||| c == '?'
    ||| c == '('
    ||| c == ')'
    ||| c == '|'
    ||| c == '['
    ||| c == ']'
    ||| c == '{'
    ||| c == '}'
    ||| c == '^'
    ||| c == '$'
    ||| c == '#'
    ||| c == '&'
    ||| c == '-'
    ||| c == '~'
}

fn is_regex_meta(c: char) -> (r: bool)
    ensures
        r == spec_is_regex_meta(c),
{
    c == '\\' || c == '.' || c == '+' || c == '*' || c == '?' || c == '(' || c == ')' || c == '|'
        || c == '[' || c == ']' || c == '{' || c == '}' || c == '^' || c == '$' || c == '#' || c
        == '&' || c == '-' || c == '~'
}

/// The character class matching either path separator, used in place of an
/// escaped separator so that generated patterns match both path styles.
pub open spec fn spec_separator_class() -> Seq<char> {
    seq!['[', '\\', '\\', '/', ']']
}

/// How one literal character appears in a generated regular expression: a
/// path separator becomes the separator class, a meta character is escaped,
/// anything else is copied.
pub open spec fn spec_regex_lit_char(c: char) -> Seq<char> {
    if c == '/' || c == '\\' {
        spec_separator_class()
    } else if spec_is_regex_meta(c) {
        seq!['\\', c]
    } else {
        seq![c]
    }
}

/// The regular-expression fragment for literal text.
pub open spec fn spec_regex_lit(s: Seq<char>) -> Seq<char>
    decreases s.len(),
{
    if s.len() == 0 {
        Seq::empty()
    } else {
        spec_regex_lit(s.drop_last()) + spec_regex_lit_char(s.last())
    }
}

/// The regular-expression fragment for one token: escaped text for a
/// literal, a capturing group around the resolver's pattern for a variable.
pub open spec fn spec_regex_token(t: TokenModel, rs: Map<Seq<char>, ResolverModel>) -> Seq<char> {
    match t {
        TokenModel::Lit(s) => spec_regex_lit(s),
        TokenModel::Var(k) => seq!['('] + spec_resolver_pattern(spec_effective_resolver(rs, k))
            + seq![')'],
    }
}

/// The regular-expression fragment for a token sequence.
pub open spec fn spec_regex_tokens(ts: Seq<TokenModel>, rs: Map<
    Seq<char>,
    ResolverModel,
>) -> Seq<char>
    decreases ts.len(),
{
    if ts.len() == 0 {
        Seq::empty()
    } else {
        spec_regex_tokens(ts.drop_last(), rs) + spec_regex_token(ts.last(), rs)
    }
}

/// How one literal character appears in a generated glob: separators are
/// normalized, everything else is copied.
pub open spec fn spec_glob_char(c: char) -> char {
    if c == '/' || c == '\\' {
        '/'
    } else {
        c
    }
}

/// The glob fragment for one token: normalized text for a literal, a single
/// `*` wildcard for a variable.
pub open spec fn spec_glob_token(t: TokenModel) -> Seq<char> {
    match t {
        TokenModel::Lit(s) => s.map(|i: int, c: char| spec_glob_char(c)),
        TokenModel::Var(_) => seq!['*'],
    }
}

/// The glob fragment for a token sequence.
pub open spec fn spec_glob_tokens(ts: Seq<TokenModel>) -> Seq<char>
    decreases ts.len(),
{
    if ts.len() == 0 {
        Seq::empty()
    } else {
        spec_glob_tokens(ts.drop_last()) + spec_glob_token(ts.last())
    }
}

/// The template text a token sequence prints back to: literal text as it is,
/// a variable as its key in braces.
pub open spec fn spec_token_text(t: TokenModel) -> Seq<char> {
    match t {
        TokenModel::Lit(s) => s,
        TokenModel::Var(k) => seq!['{'] + k + seq!['}'],
    }
}

/// The template text of a token sequence.
pub open spec fn spec_tokens_text(ts: Seq<TokenModel>) -> Seq<char>
    decreases ts.len(),
{
    if ts.len() == 0 {
        Seq::empty()
    } else {
        spec_tokens_text(ts.drop_last()) + spec_token_text(ts.last())
    }
}

impl Token {
    /// Render this token into `buf`.  On an error the buffer is unchanged.
    pub fn draw(&self, buf: &mut String, fields: &PathAttributes, resolvers: &Resolvers) -> (r:
        Result<(), Error>)
        ensures
            spec_render_token(self@, fields@, resolvers@) matches Ok(s) ==> r is Ok && final(buf)@ == old(buf)@ + s,
            spec_render_token(self@, fields@, resolvers@) matches Err(e) ==> r is Err && final(buf)@ == old(buf)@
                && spec_render_error_matches(e, fields@, resolvers@, &r->Err_0),
    {
        match self {
            Token::Literal(s) => {
                buf.append(s.as_str());
                Ok(())
            },
            Token::Variable(key) => {
                let value = match fields.get(key) {
                    Some(value) => value,
                    None => {
                        return Err(Error::MissingFieldError(key.clone()));
                    },
                };
                match value {
                    PathValue::Integer(n) => {
                        let padding: u8 = match resolvers.get(key) {
                            None => 0,
                            Some(Resolver::Default) => 0,
                            Some(Resolver::Integer { padding }) => *padding,
                            Some(other) => {
                                return Err(
                                    Error::ResolverTypeMismatchError {
                                        resolver: other.clone(),
                                        value: value.clone(),
                                    },
                                );
                            },
                        };
                        buf.append(chars_to_string(&padded_int_chars(*n, padding)).as_str());
                        Ok(())
                    },
                    PathValue::String(sv) => {
                        match resolvers.get(key) {
                            None => (),
                            Some(Resolver::Default) => (),
                            Some(Resolver::String { .. }) => (),
                            Some(other) => {
                                return Err(
                                    Error::ResolverTypeMismatchError {
                                        resolver: other.clone(),
                                        value: value.clone(),
                                    },
                                );
                            },
                        }
                        buf.append(sv.as_str());
                        Ok(())
                    },
                }
            },
        }
    }
}

/// What the error returned for a failed token rendering holds: a missing
/// field carries its key, a type mismatch carries the resolver in force and
/// the offending value.
pub open spec fn spec_render_error_matches(
    e: RenderError,
    fields: Map<Seq<char>, PathValueModel>,
    rs: Map<Seq<char>, ResolverModel>,
    err: &Error,
) -> bool {
    match e {
        RenderError::MissingField(k) => err matches Error::MissingFieldError(fk) && fk@ == k,
        RenderError::TypeMismatch(k) => err matches Error::ResolverTypeMismatchError {
            resolver,
            value,
        } && resolver@ == spec_effective_resolver(rs, k) && value@ == fields[k],
    }
}

impl Tokens {
    /// Render the whole component into `buf`.  On an error the buffer holds
    /// the renderings of the tokens before the failing one.
    pub fn draw(&self, buf: &mut String, fields: &PathAttributes, resolvers: &Resolvers) -> (r:
        Result<(), Error>)
        ensures
            spec_render_tokens(self@, fields@, resolvers@) matches Ok(s) ==> r is Ok && final(buf)@ == old(buf)@ + s,
            spec_render_tokens(self@, fields@, resolvers@) matches Err(e) ==> r is Err
                && spec_render_error_matches(e, fields@, resolvers@, &r->Err_0) && old(
                buf,
            )@.is_prefix_of(final(buf)@),
    {
        let ghost ts = self@;
        let mut i: usize = 0;
        let ghost base = buf@;
        proof {
            assert(ts.skip(0) =~= ts);
            let rt = spec_render_tokens(ts, fields@, resolvers@);
            if rt is Ok {
                assert(buf@.subrange(base.len() as int, buf@.len() as int) + rt->Ok_0
                    =~= rt->Ok_0);
            }
        }
        while i < self.tokens.len()
            invariant
                i <= ts.len(),
                ts == self@,
                base.is_prefix_of(buf@),
                spec_render_tokens(ts, fields@, resolvers@) == (match spec_render_tokens(
                    ts.skip(i as int),
                    fields@,
                    resolvers@,
                ) {
                    Ok(s) => Ok::<Seq<char>, RenderError>(buf@.subrange(
                        base.len() as int,
                        buf@.len() as int,
                    ) + s),
                    Err(e) => Err(e),
                }),
                base == old(buf)@,
            decreases ts.len() - i,
        {
            proof {
                assert(ts.skip(i as int)[0] == ts[i as int]);
                assert(ts.skip(i as int).drop_first() =~= ts.skip(i as int + 1));
            }
            let ghost pre = buf@;
            match self.tokens[i].draw(buf, fields, resolvers) {
                Ok(()) => {
                    proof {
                        let rt = spec_render_token(ts[i as int], fields@, resolvers@);
                        if rt is Ok {
                            let s = rt->Ok_0;
                            assert(buf@ == pre + s);
                            assert(buf@.subrange(base.len() as int, buf@.len() as int)
                                =~= pre.subrange(base.len() as int, pre.len() as int) + s);
                            let rest = spec_render_tokens(ts.skip(i as int + 1), fields@,
                                resolvers@);
                            if rest is Ok {
                                assert((pre.subrange(base.len() as int, pre.len() as int) + s)
                                    + rest->Ok_0 =~= pre.subrange(base.len() as int, pre.len() as int)
                                    + (s + rest->Ok_0));
                            }
                        }
                    }
                },
                Err(e) => {
                    return Err(e);
                },
            }
            i = i + 1;
        }
        proof {
            assert(ts.skip(ts.len() as int) =~= Seq::<TokenModel>::empty());
            if spec_render_tokens(ts, fields@, resolvers@) matches Ok(s) {
                assert(buf@ =~= base + (buf@.subrange(base.len() as int, buf@.len() as int)
                    + Seq::<char>::empty()));
            }
        }
        Ok(())
    }

    /// Whether every placeholder of this component has a value in the field
    /// map.
    pub fn is_resolved_by(&self, fields: &PathAttributes) -> (r: bool)
        ensures
            r == spec_tokens_resolved_by(self@, fields@),
    {
        let mut i: usize = 0;
        while i < self.tokens.len()
            invariant
                i <= self@.len(),
                forall|j: int|
                    0 <= j < i ==> spec_token_resolved_by(#[trigger] self@[j], fields@),
            decreases self@.len() - i,
        {
            match &self.tokens[i] {
                Token::Literal(_) => (),
                Token::Variable(key) => {
                    if !fields.contains_key(key) {
                        assert(!spec_token_resolved_by(self@[i as int], fields@));
                        return false;
                    }
                },
            }
            i = i + 1;
        }
        true
    }

    /// Whether this component holds any placeholder at all.
    pub fn has_variable_tokens(&self) -> (r: bool)
        ensures
            r == spec_has_variables(self@),
    {
        let mut i: usize = 0;
        while i < self.tokens.len()
            invariant
                i <= self@.len(),
                forall|j: int| 0 <= j < i ==> !(#[trigger] self@[j] is Var),
            decreases self@.len() - i,
        {
            match &self.tokens[i] {
                Token::Variable(_) => {
                    assert(self@[i as int] is Var);
                    return true;
                },
                Token::Literal(_) => (),
            }
            i = i + 1;
        }
        false
    }

    /// Resolve as far as the field map allows: every placeholder with a value
    /// becomes the literal it renders to, the others stay placeholders.
    pub fn try_to_literal_token(&self, fields: &PathAttributes, resolvers: &Resolvers) -> (r:
        Result<Tokens, Error>)
        ensures
            spec_to_literal_tokens(self@, fields@, resolvers@) matches Ok(ts) ==> r matches Ok(t)
                && t@ == ts,
            spec_to_literal_tokens(self@, fields@, resolvers@) matches Err(e) ==> r is Err
                && spec_render_error_matches(e, fields@, resolvers@, &r->Err_0),
    {
        let ghost ts = self@;
        let mut tokens: Vec<Token> = Vec::new();
        let mut i: usize = 0;
        proof {
            assert(ts.skip(0) =~= ts);
            let rt = spec_to_literal_tokens(ts, fields@, resolvers@);
            if rt is Ok {
                assert(spec_token_views(tokens@) + rt->Ok_0 =~= rt->Ok_0);
            }
        }
        while i < self.tokens.len()
            invariant
                i <= ts.len(),
                ts == self@,
                spec_to_literal_tokens(ts, fields@, resolvers@) == (match spec_to_literal_tokens(
                    ts.skip(i as int),
                    fields@,
                    resolvers@,
                ) {
                    Ok(rest) => Ok::<Seq<TokenModel>, RenderError>(spec_token_views(tokens@)
                        + rest),
                    Err(e) => Err(e),
                }),
            decreases ts.len() - i,
        {
            proof {
                assert(ts.skip(i as int)[0] == ts[i as int]);
                assert(ts.skip(i as int).drop_first() =~= ts.skip(i as int + 1));
            }
            let ghost before = spec_token_views(tokens@);
            match &self.tokens[i] {
                Token::Literal(s) => {
                    tokens.push(Token::Literal(s.clone()));
                },
                Token::Variable(key) => {
                    if !fields.contains_key(key) {
                        tokens.push(Token::Variable(key.clone()));
                    } else {
                        let mut rendered = String::new();
                        match self.tokens[i].draw(&mut rendered, fields, resolvers) {
                            Ok(()) => {
                                tokens.push(Token::Literal(rendered));
                            },
                            Err(e) => {
                                return Err(e);
                            },
                        }
                    }
                },
            }
            proof {
                assert(spec_token_views(tokens@) =~= before + seq![
                    spec_to_literal_token(ts[i as int], fields@, resolvers@)->Ok_0,
                ]);
                let rest = spec_to_literal_tokens(ts.skip(i as int + 1), fields@, resolvers@);
                if rest is Ok {
                    assert((before + seq![
                        spec_to_literal_token(ts[i as int], fields@, resolvers@)->Ok_0,
                    ]) + rest->Ok_0 =~= before + (seq![
                        spec_to_literal_token(ts[i as int], fields@, resolvers@)->Ok_0,
                    ] + rest->Ok_0));
                }
            }
            i = i + 1;
        }
        proof {
            assert(ts.skip(ts.len() as int) =~= Seq::<TokenModel>::empty());
            if spec_to_literal_tokens(ts, fields@, resolvers@) matches Ok(out) {
                assert(spec_token_views(tokens@) =~= spec_token_views(tokens@)
                    + Seq::<TokenModel>::empty());
            }
        }
        Ok(Tokens { tokens })
    }

    /// Append the anchored-fragment regular expression of this component.
    pub fn draw_regex_pattern(&self, buf: &mut String, resolvers: &Resolvers)
        ensures
            final(buf)@ == old(buf)@ + spec_regex_tokens(self@, resolvers@),
    {
        let ghost ts = self@;
        let mut i: usize = 0;
        while i < self.tokens.len()
            invariant
                i <= ts.len(),
                ts == self@,
                buf@ == old(buf)@ + spec_regex_tokens(ts.take(i as int), resolvers@),
            decreases ts.len() - i,
        {
            proof {
                assert(ts.take(i as int + 1).drop_last() =~= ts.take(i as int));
                assert(ts.take(i as int + 1).last() == ts[i as int]);
            }
            match &self.tokens[i] {
                Token::Literal(s) => {
                    draw_regex_literal(buf, s);
                },
                Token::Variable(key) => {
                    let resolver = match resolvers.get(key) {
                        Some(resolver) => resolver.clone(),
                        None => Resolver::Default,
                    };
                    buf.append("(");
                    buf.append(resolver.pattern().as_str());
                    buf.append(")");
                    proof {
                        reveal_strlit("(");
                        reveal_strlit(")");
                        assert("("@ =~= seq!['(']);
                        assert(")"@ =~= seq![')']);
                    }
                },
            }
            i = i + 1;
        }
        proof {
            assert(ts.take(ts.len() as int) =~= ts);
        }
    }

    /// Append the glob fragment of this component.
    pub fn draw_glob_pattern(&self, buf: &mut String)
        ensures
            final(buf)@ == old(buf)@ + spec_glob_tokens(self@),
    {
        let ghost ts = self@;
        let mut i: usize = 0;
        while i < self.tokens.len()
            invariant
                i <= ts.len(),
                ts == self@,
                buf@ == old(buf)@ + spec_glob_tokens(ts.take(i as int)),
            decreases ts.len() - i,
        {
            proof {
                assert(ts.take(i as int + 1).drop_last() =~= ts.take(i as int));
                assert(ts.take(i as int + 1).last() == ts[i as int]);
            }
            match &self.tokens[i] {
                Token::Literal(s) => {
                    let chars = str_to_chars(s.as_str());
                    let mut j: usize = 0;
                    let ghost pre = buf@;
                    while j < chars.len()
                        invariant
                            j <= chars@.len(),
                            chars@.len() == s@.len(),
                            forall|l: int| 0 <= l < chars@.len() ==> chars@[l] == s@[l],
                            buf@ == pre + s@.subrange(0, j as int).map(
                                |l: int, c: char| spec_glob_char(c),
                            ),
                        decreases chars@.len() - j,
                    {
                        let c = chars[j];
                        if c == '/' || c == '\\' {
                            crate::chars::push_char(buf, '/');
                        } else {
                            crate::chars::push_char(buf, c);
                        }
                        proof {
                            assert(s@.subrange(0, j as int + 1).map(
                                |l: int, c: char| spec_glob_char(c),
                            ) =~= s@.subrange(0, j as int).map(|l: int, c: char| spec_glob_char(c))
                                + seq![spec_glob_char(s@[j as int])]);
                        }
                        j = j + 1;
                    }
                    proof {
                        assert(s@.subrange(0, s@.len() as int) =~= s@);
                    }
                },
                Token::Variable(_) => {
                    crate::chars::push_char(buf, '*');
                },
            }
            i = i + 1;
        }
        proof {
            assert(ts.take(ts.len() as int) =~= ts);
        }
    }

    /// The template text this component prints back to.
    pub fn template_text(&self) -> (r: String)
        ensures
            r@ == spec_tokens_text(self@),
    {
        let ghost ts = self@;
        let mut buf = String::new();
        let mut i: usize = 0;
        while i < self.tokens.len()
            invariant
                i <= ts.len(),
                ts == self@,
                buf@ == spec_tokens_text(ts.take(i as int)),
            decreases ts.len() - i,
        {
            proof {
                assert(ts.take(i as int + 1).drop_last() =~= ts.take(i as int));
                assert(ts.take(i as int + 1).last() == ts[i as int]);
            }
            match &self.tokens[i] {
                Token::Literal(s) => {
                    buf.append(s.as_str());
                },
                Token::Variable(key) => {
                    crate::chars::push_char(&mut buf, '{');
                    buf.append(key.as_str());
                    crate::chars::push_char(&mut buf, '}');
                },
            }
            i = i + 1;
        }
        proof {
            assert(ts.take(ts.len() as int) =~= ts);
        }
        buf
    }
}

/// Compare two parsed components token by token.
pub fn tokens_equal(a: &Tokens, b: &Tokens) -> (r: bool)
    ensures
        r == (a@ == b@),
{
    if a.tokens.len() != b.tokens.len() {
        proof {
            assert(a@.len() != b@.len());
        }
        return false;
    }
    let mut i: usize = 0;
    while i < a.tokens.len()
        invariant
            i <= a@.len(),
            a@.len() == b@.len(),
            forall|j: int| 0 <= j < i ==> a@[j] == b@[j],
        decreases a@.len() - i,
    {
        let same = match (&a.tokens[i], &b.tokens[i]) {
            (Token::Literal(x), Token::Literal(y)) => crate::chars::str_equal(
                x.as_str(),
                y.as_str(),
            ),
            (Token::Variable(x), Token::Variable(y)) => crate::chars::str_equal(
                x.as_str(),
                y.as_str(),
            ),
            _ => false,
        };
        if !same {
            assert(a@[i as int] != b@[i as int]);
            return false;
        }
        i = i + 1;
    }
    proof {
        assert(a@ =~= b@);
    }
    true
}

/// Append the escaped form of literal text: separators become the
/// two-way separator class, meta characters are escaped.  This matches what
/// `regex::escape` does to each non-separator character; the meta-character
/// set is the one the `regex` crate documents as fixed.
fn draw_regex_literal(buf: &mut String, s: &String)
    ensures
        final(buf)@ == old(buf)@ + spec_regex_lit(s@),
{
    let chars = str_to_chars(s.as_str());
    let mut j: usize = 0;
    while j < chars.len()
        invariant
            j <= chars@.len(),
            chars@ == s@,
            buf@ == old(buf)@ + spec_regex_lit(s@.subrange(0, j as int)),
        decreases chars@.len() - j,
    {
        let c = chars[j];
        if c == '/' || c == '\\' {
            buf.append("[\\\\/]");
            proof {
                reveal_strlit("[\\\\/]");
                assert("[\\\\/]"@ =~= spec_separator_class());
            }
        } else if is_regex_meta(c) {
            crate::chars::push_char(buf, '\\');
            crate::chars::push_char(buf, c);
        } else {
            crate::chars::push_char(buf, c);
        }
        proof {
            assert(s@.subrange(0, j as int + 1).drop_last() =~= s@.subrange(0, j as int));
            assert(s@.subrange(0, j as int + 1).last() == s@[j as int]);
        }
        j = j + 1;
    }
    proof {
        assert(s@.subrange(0, s@.len() as int) =~= s@);
    }
}

} // verus!
