//! Decimal rendering and parsing of the integers that appear in rendered
//! path components: plain digits, zero-padded digits, and the inverse parse
//! back to `u16`.

use vstd::prelude::*;

use crate::chars::spec_is_ascii_digit;
use crate::chars::is_ascii_digit_char;

verus! {

/// The character for one decimal digit.
pub open spec fn spec_digit_char(d: int) -> char
    recommends
        0 <= d <= 9,
{
    (48 + d) as char
}

/// The decimal digit sequence of a non-negative integer, without sign or
/// leading zeros (`0` renders as `"0"`).
pub open spec fn spec_dec_digits(n: int) -> Seq<char>
    recommends
        n >= 0,
    decreases n,
{
    if n < 10 {
        seq![spec_digit_char(n)]
    } else {
        spec_dec_digits(n / 10).push(spec_digit_char(n % 10))
    }
}

/// A run of `n` zero characters (empty when `n <= 0`).
pub open spec fn spec_zeros(n: int) -> Seq<char> {
    Seq::new(if n < 0 {
        0
    } else {
        n as nat
    }, |i: int| '0')
}

/// A non-negative integer rendered zero-padded to at least `width`
/// characters, exactly as the `{:0width$}` format of the standard library
/// renders an unsigned integer.
pub open spec fn spec_padded_int(v: u16, width: int) -> Seq<char> {
    let d = spec_dec_digits(v as int);
    if d.len() >= width {
        d
    } else {
        spec_zeros(width - d.len()) + d
    }
}

/// The numeric value of a digit string (zero for the empty string).
pub open spec fn spec_digits_val(s: Seq<char>) -> int
    decreases s.len(),
{
    if s.len() == 0 {
        0
    } else {
        spec_digits_val(s.drop_last()) * 10 + (s.last() as int - 48)
    }
}

/// A non-empty all-digit string.
pub open spec fn spec_all_digits(s: Seq<char>) -> bool {
    s.len() > 0 && forall|i: int| 0 <= i < s.len() ==> spec_is_ascii_digit(#[trigger] s[i])
}

/// The part of a numeric string after an optional leading `+` sign.
pub open spec fn spec_parse_body(s: Seq<char>) -> Seq<char> {
    if s.len() > 0 && s[0] == '+' {
        s.subrange(1, s.len() as int)
    } else {
        s
    }
}

/// What `str::parse::<u16>` accepts: an optional leading `+` sign, then one
/// or more ASCII digits, whose value fits in `u16`.
pub open spec fn spec_parse_u16(s: Seq<char>) -> Option<u16> {
    let body = spec_parse_body(s);
    if spec_all_digits(body) && spec_digits_val(body) <= u16::MAX {
        Some(spec_digits_val(body) as u16)
    } else {
        None
    }
}

pub fn digit_char(d: u16) -> (r: char)
    requires
        d <= 9,
    ensures
        r == spec_digit_char(d as int),
{
    match d {
        0 => '0',
        1 => '1',
        2 => '2',
        3 => '3',
        4 => '4',
        5 => '5',
        6 => '6',
        7 => '7',
        8 => '8',
        _ => '9',
    }
}

/// Render an integer as decimal digits.
pub fn u16_dec_chars(n: u16) -> (r: Vec<char>)
    ensures
        r@ == spec_dec_digits(n as int),
    decreases n,
{
    if n < 10 {
        let mut r: Vec<char> = Vec::new();
        r.push(digit_char(n));
        assert(r@ =~= seq![spec_digit_char(n as int)]);
        r
    } else {
        let mut r = u16_dec_chars(n / 10);
        r.push(digit_char(n % 10));
        r
    }
}

/// Render an integer zero-padded to at least `width` characters.
pub fn padded_int_chars(v: u16, width: u8) -> (r: Vec<char>)
    ensures
        r@ == spec_padded_int(v, width as int),
{
    let digits = u16_dec_chars(v);
    let mut r: Vec<char> = Vec::new();
    if digits.len() < width as usize {
        let pad = width as usize - digits.len();
        let mut i: usize = 0;
        while i < pad
            invariant
                i <= pad,
                r@ =~= spec_zeros(i as int),
            decreases pad - i,
        {
            r.push('0');
            assert(r@ =~= spec_zeros(i + 1 as int));
            i = i + 1;
        }
    }
    let mut j: usize = 0;
    let ghost prefix = r@;
    while j < digits.len()
        invariant
            j <= digits@.len(),
            r@ =~= prefix + digits@.subrange(0, j as int),
        decreases digits@.len() - j,
    {
        r.push(digits[j]);
        assert(r@ =~= prefix + digits@.subrange(0, j + 1 as int));
        j = j + 1;
    }
    assert(digits@.subrange(0, digits@.len() as int) =~= digits@);
    proof {
        if prefix.len() == 0 {
            assert(r@ =~= digits@);
        }
    }
    r
}

/// Extending a digit string cannot decrease its value.
proof fn lemma_digits_val_prefix_le(s: Seq<char>, i: int)
    requires
        0 <= i <= s.len(),
        forall|j: int| 0 <= j < s.len() ==> spec_is_ascii_digit(#[trigger] s[j]),
    ensures
        spec_digits_val(s.subrange(0, i)) <= spec_digits_val(s),
        spec_digits_val(s) >= 0,
    decreases s.len() - i,
{
    if i == s.len() {
        assert(s.subrange(0, i) =~= s);
        lemma_digits_val_nonneg(s);
    } else {
        lemma_digits_val_prefix_le(s, i + 1);
        let p = s.subrange(0, i + 1);
        assert(p.drop_last() =~= s.subrange(0, i));
        assert(p.last() == s[i]);
        lemma_digits_val_nonneg(s.subrange(0, i));
        assert(spec_digits_val(p) == spec_digits_val(s.subrange(0, i)) * 10 + (s[i] as int - 48));
        assert(spec_digits_val(s.subrange(0, i)) <= spec_digits_val(s.subrange(0, i)) * 10) by (
        nonlinear_arith)
            requires
                spec_digits_val(s.subrange(0, i)) >= 0,
        ;
    }
}

proof fn lemma_digits_val_nonneg(s: Seq<char>)
    requires
        forall|j: int| 0 <= j < s.len() ==> spec_is_ascii_digit(#[trigger] s[j]),
    ensures
        spec_digits_val(s) >= 0,
    decreases s.len(),
{
    if s.len() > 0 {
        assert(s.drop_last() =~= s.subrange(0, s.len() - 1));
        lemma_digits_val_nonneg(s.drop_last());
        assert(spec_digits_val(s.drop_last()) * 10 >= 0) by (nonlinear_arith)
            requires
                spec_digits_val(s.drop_last()) >= 0,
        ;
    }
}

/// The digit character of a value carries that value.
proof fn lemma_digit_char_value(d: int)
    requires
        0 <= d <= 9,
    ensures
        spec_digit_char(d) as int == 48 + d,
        spec_is_ascii_digit(spec_digit_char(d)),
{
    if d == 0 {
        assert(spec_digit_char(0) == '0');
    } else if d == 1 {
        assert(spec_digit_char(1) == '1');
    } else if d == 2 {
        assert(spec_digit_char(2) == '2');
    } else if d == 3 {
        assert(spec_digit_char(3) == '3');
    } else if d == 4 {
        assert(spec_digit_char(4) == '4');
    } else if d == 5 {
        assert(spec_digit_char(5) == '5');
    } else if d == 6 {
        assert(spec_digit_char(6) == '6');
    } else if d == 7 {
        assert(spec_digit_char(7) == '7');
    } else if d == 8 {
        assert(spec_digit_char(8) == '8');
    } else {
        assert(spec_digit_char(9) == '9');
    }
}

/// The decimal digits of a non-negative integer carry exactly its value.
pub proof fn lemma_dec_digits_value(n: int)
    requires
        n >= 0,
    ensures
        spec_all_digits(spec_dec_digits(n)),
        spec_digits_val(spec_dec_digits(n)) == n,
    decreases n,
{
    if n < 10 {
        lemma_digit_char_value(n);
        let d = spec_dec_digits(n);
        assert(d == seq![spec_digit_char(n)]);
        assert(d.drop_last() =~= Seq::<char>::empty());
        assert(spec_is_ascii_digit(d[0]));
        assert(d.last() == spec_digit_char(n));
        assert(spec_digits_val(d.drop_last()) == 0);
        assert(spec_digits_val(d) == 0 * 10 + (spec_digit_char(n) as int - 48));
        assert(spec_digits_val(d) == n);
    } else {
        lemma_dec_digits_value(n / 10);
        lemma_digit_char_value(n % 10);
        let d = spec_dec_digits(n);
        assert(d == spec_dec_digits(n / 10).push(spec_digit_char(n % 10)));
        assert(d.drop_last() =~= spec_dec_digits(n / 10));
        assert(spec_is_ascii_digit(spec_digit_char(n % 10)));
        assert forall|i: int| 0 <= i < d.len() implies spec_is_ascii_digit(#[trigger] d[i]) by {
            if i < d.len() - 1 {
                assert(d[i] == spec_dec_digits(n / 10)[i]);
            }
        }
        vstd::arithmetic::div_mod::lemma_fundamental_div_mod(n, 10);
        assert(d.last() == spec_digit_char(n % 10));
        assert(d.last() as int - 48 == n % 10);
        assert(spec_digits_val(d) == spec_digits_val(spec_dec_digits(n / 10)) * 10 + (n % 10));
        assert(spec_digits_val(spec_dec_digits(n / 10)) == n / 10);
        assert(spec_digits_val(d) == (n / 10) * 10 + (n % 10));
        assert((n / 10) * 10 + (n % 10) == n);
    }
}

/// Leading zeros do not change the value of a digit string.
pub proof fn lemma_zero_prefix_value(z: int, d: Seq<char>)
    requires
        z >= 0,
    ensures
        spec_digits_val(spec_zeros(z) + d) == spec_digits_val(d),
    decreases d.len(),
{
    if d.len() == 0 {
        assert(spec_zeros(z) + d =~= spec_zeros(z));
        lemma_zeros_value(z);
    } else {
        lemma_zero_prefix_value(z, d.drop_last());
        assert((spec_zeros(z) + d).drop_last() =~= spec_zeros(z) + d.drop_last());
        assert((spec_zeros(z) + d).last() == d.last());
    }
}

/// An all-zero digit string has value zero.
proof fn lemma_zeros_value(z: int)
    requires
        z >= 0,
    ensures
        spec_digits_val(spec_zeros(z)) == 0,
    decreases z,
{
    if z > 0 {
        lemma_zeros_value(z - 1);
        assert(spec_zeros(z).drop_last() =~= spec_zeros(z - 1));
        assert(spec_zeros(z).last() == '0');
    }
}

/// Zero-padded rendering round-trips: parsing the padded digits of an
/// integer recovers the integer, whatever the padding width.
pub proof fn lemma_padded_round_trip(v: u16, width: int)
    ensures
        spec_all_digits(spec_padded_int(v, width)),
        spec_padded_int(v, width).len() >= (if width < 1 {
            1int
        } else {
            width
        }),
        spec_parse_u16(spec_padded_int(v, width)) == Some(v),
{
    lemma_dec_digits_value(v as int);
    let d = spec_dec_digits(v as int);
    let p = spec_padded_int(v, width);
    if d.len() >= width {
        assert(p == d);
    } else {
        assert(p == spec_zeros(width - d.len()) + d);
        assert forall|i: int| 0 <= i < p.len() implies spec_is_ascii_digit(#[trigger] p[i]) by {
            if i < width - d.len() {
                assert(p[i] == '0');
            } else {
                assert(p[i] == d[i - (width - d.len())]);
            }
        }
        lemma_zero_prefix_value(width - d.len(), d);
    }
    assert(spec_is_ascii_digit(p[0]));
    assert(p[0] != '+');
    assert(spec_parse_body(p) == p);
    assert(spec_digits_val(p) == v as int);
}

/// Parse a digit string back to an integer, exactly as `str::parse::<u16>`
/// would.
pub fn parse_u16_chars(s: &Vec<char>) -> (r: Option<u16>)
    ensures
        r == spec_parse_u16(s@),
{
    let start: usize = if s.len() > 0 && s[0] == '+' {
        1
    } else {
        0
    };
    let ghost body = spec_parse_body(s@);
    assert(body =~= s@.subrange(start as int, s@.len() as int));
    if s.len() == start {
        assert(!spec_all_digits(body));
        return None;
    }
    let mut acc: u32 = 0;
    let mut i: usize = start;
    while i < s.len()
        invariant
            start <= i <= s@.len(),
            start < s@.len(),
            body == spec_parse_body(s@),
            body =~= s@.subrange(start as int, s@.len() as int),
            forall|j: int| start <= j < i ==> spec_is_ascii_digit(#[trigger] s@[j]),
            acc <= u16::MAX,
            acc == spec_digits_val(s@.subrange(start as int, i as int)),
        decreases s@.len() - i,
    {
        let c = s[i];
        if !is_ascii_digit_char(c) {
            assert(body[i - start] == s@[i as int]);
            assert(!spec_all_digits(body));
            return None;
        }
        let d: u32 = char_digit_value(c);
        proof {
            let p = s@.subrange(start as int, i + 1 as int);
            assert(p.drop_last() =~= s@.subrange(start as int, i as int));
            assert(p.last() == s@[i as int]);
        }
        let next: u32 = acc * 10 + d;
        if next > u16::MAX as u32 {
            proof {
                assert(spec_digits_val(s@.subrange(start as int, i + 1 as int)) == next);
                assert(s@.subrange(start as int, i + 1 as int) =~= body.subrange(
                    0,
                    i + 1 - start,
                ));
                if spec_all_digits(body) {
                    lemma_digits_val_prefix_le(body, i + 1 - start);
                }
            }
            return None;
        }
        acc = next;
        i = i + 1;
    }
    assert(s@.subrange(start as int, s@.len() as int) =~= body);
    assert(spec_all_digits(body));
    Some(acc as u16)
}

/// The numeric value of one digit character.
fn char_digit_value(c: char) -> (r: u32)
    requires
        spec_is_ascii_digit(c),
    ensures
        r == c as int - 48,
        r <= 9,
{
    (c as u32) - 48
}

} // verus!
