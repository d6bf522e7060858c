//! Text form of Real values.  A Real is carried as its IEEE 754
//! double-precision bit pattern in a `u64`, so the decimal text conversions
//! here work in integer arithmetic on digit vectors: formatting emits the
//! exact decimal value of the bit pattern (every such value has one, since
//! the binary fractions are finite), and parsing converts a decimal or
//! scientific literal back, exactly whenever the literal's value is exactly
//! representable and with round-to-nearest-even otherwise.

use vstd::prelude::*;

verus! {

use crate::textnum::{hex_digit_char, hex_digit_char_x, is_dec_digit};
use crate::outside::{push_char, text_token};

/// The canonical quiet NaN bit pattern.
pub const CANONICAL_NAN_BITS: u64 = 0x7FF8_0000_0000_0000;

/// The positive infinity bit pattern.
pub const INF_BITS: u64 = 0x7FF0_0000_0000_0000;

/// The negative infinity bit pattern.
pub const NEG_INF_BITS: u64 = 0xFFF0_0000_0000_0000;

/// The bit pattern encodes a NaN: exponent all ones, fraction nonzero.
pub open spec fn is_nan_bits(bits: u64) -> bool {
    (bits >> 52) & 0x7FF == 0x7FF && bits & 0xF_FFFF_FFFF_FFFF != 0
}

/// The case-insensitive ASCII match of `s` against a lower-case word.
pub open spec fn ci_matches(s: Seq<char>, lower: Seq<char>) -> bool {
    s.len() == lower.len() && forall|i: int|
        0 <= i < s.len() ==> (#[trigger] s[i]) == lower[i] || (s[i] as u32) + 32 == (
        lower[i] as u32)
}

/// `s` with one leading sign character stripped, and whether it was a minus.
pub open spec fn spec_strip_sign(s: Seq<char>) -> (bool, Seq<char>) {
    if s.len() > 0 && s[0] == '-' {
        (true, s.drop_first())
    } else if s.len() > 0 && s[0] == '+' {
        (false, s.drop_first())
    } else {
        (false, s)
    }
}

/// The token, sign aside, spells `nan` in any case.
pub open spec fn is_nan_token(s: Seq<char>) -> bool {
    ci_matches(spec_strip_sign(s).1, seq!['n', 'a', 'n'])
}

/// The token, sign aside, spells `inf` or `infinity` in any case.
pub open spec fn is_inf_token(s: Seq<char>) -> bool {
    ci_matches(spec_strip_sign(s).1, seq!['i', 'n', 'f']) || ci_matches(
        spec_strip_sign(s).1,
        seq!['i', 'n', 'f', 'i', 'n', 'i', 't', 'y'],
    )
}

/// Check one character case-insensitively against a lower-case letter.
fn ci_char(c: char, lower: char) -> (r: bool)
    ensures
        r == (c == lower || (c as u32) + 32 == (lower as u32)),
{
    let cv = c as u32;
    let lv = lower as u32;
    c == lower || cv + 32 == lv
}

/// A little-endian vector of decimal digits (least significant first).
/// All entries are below ten; the empty vector stands for zero.
pub open spec fn digits_ok(d: Seq<u8>) -> bool {
    forall|i: int| 0 <= i < d.len() ==> (#[trigger] d[i]) < 10
}

/// Multiply a digit vector by two.
fn digits_mul2(d: &mut Vec<u8>)
    requires
        digits_ok(old(d)@),
        old(d)@.len() < 100_000,
    ensures
        digits_ok(final(d)@),
        final(d)@.len() <= old(d)@.len() + 1,
{
    let n = d.len();
    let mut carry: u8 = 0;
    let mut i: usize = 0;
    while i < n
        invariant
            i <= n,
            n == d@.len(),
            carry < 2,
            digits_ok(d@),
        decreases n - i,
    {
        let x = d[i] * 2 + carry;
        d.set(i, x % 10);
        carry = x / 10;
        i = i + 1;
    }
    if carry > 0 {
        d.push(carry);
    }
}

/// Multiply a digit vector by five.
fn digits_mul5(d: &mut Vec<u8>)
    requires
        digits_ok(old(d)@),
        old(d)@.len() < 100_000,
    ensures
        digits_ok(final(d)@),
        final(d)@.len() <= old(d)@.len() + 1,
{
    let n = d.len();
    let mut carry: u8 = 0;
    let mut i: usize = 0;
    while i < n
        invariant
            i <= n,
            n == d@.len(),
            carry < 5,
            digits_ok(d@),
        decreases n - i,
    {
        let x = d[i] * 5 + carry;
        d.set(i, x % 10);
        carry = x / 10;
        i = i + 1;
    }
    if carry > 0 {
        d.push(carry);
    }
}

/// Multiply a digit vector by ten: prepend a zero digit.
fn digits_mul10(d: &mut Vec<u8>)
    requires
        digits_ok(old(d)@),
        old(d)@.len() < 100_000,
    ensures
        digits_ok(final(d)@),
        final(d)@.len() <= old(d)@.len() + 1,
{
    if d.len() > 0 {
        d.insert(0, 0);
        assert forall|i: int| 0 <= i < d@.len() implies (#[trigger] d@[i]) < 10 by {
            if i > 0 {
                assert(d@[i] == old(d)@[i - 1]);
            }
        }
    }
}

/// Divide a digit vector by two; returns the remainder.
fn digits_div2(d: &mut Vec<u8>) -> (rem: u8)
    requires
        digits_ok(old(d)@),
    ensures
        digits_ok(final(d)@),
        final(d)@.len() <= old(d)@.len(),
        rem < 2,
{
    let n = d.len();
    let mut rem: u8 = 0;
    let mut i: usize = n;
    while i > 0
        invariant
            i <= n,
            n == d@.len(),
            rem < 2,
            digits_ok(d@),
        decreases i,
    {
        i = i - 1;
        let x = rem * 10 + d[i];
        d.set(i, x / 2);
        rem = x % 2;
    }
    trim_digits(d);
    rem
}

/// Divide a digit vector by five; returns the remainder.
fn digits_div5(d: &mut Vec<u8>) -> (rem: u8)
    requires
        digits_ok(old(d)@),
    ensures
        digits_ok(final(d)@),
        final(d)@.len() <= old(d)@.len(),
        rem < 5,
{
    let n = d.len();
    let mut rem: u8 = 0;
    let mut i: usize = n;
    while i > 0
        invariant
            i <= n,
            n == d@.len(),
            rem < 5,
            digits_ok(d@),
        decreases i,
    {
        i = i - 1;
        let x = rem * 10 + d[i];
        d.set(i, x / 5);
        rem = x % 5;
    }
    trim_digits(d);
    rem
}

/// Drop leading zero digits (they sit at the vector's end).
fn trim_digits(d: &mut Vec<u8>)
    requires
        digits_ok(old(d)@),
    ensures
        digits_ok(final(d)@),
        final(d)@.len() <= old(d)@.len(),
{
    loop
        invariant
            digits_ok(d@),
            d@.len() <= old(d)@.len(),
        decreases d@.len(),
    {
        let n = d.len();
        if n == 0 {
            break ;
        }
        if d[n - 1] != 0 {
            break ;
        }
        d.pop();
    }
}

/// The digit vector of a 64-bit value.
fn digits_from_u64(mut m: u64) -> (d: Vec<u8>)
    ensures
        digits_ok(d@),
        d@.len() <= 20,
{
    let mut d: Vec<u8> = Vec::new();
    let mut k: usize = 0;
    while m > 0 && k < 20
        invariant
            digits_ok(d@),
            d@.len() == k,
            k <= 20,
        decreases 20 - k,
    {
        d.push((m % 10) as u8);
        m = m / 10;
        k = k + 1;
    }
    d
}

/// Append a digit vector's characters, most significant first.
fn push_digits(out: &mut String, d: &Vec<u8>)
    requires
        digits_ok(d@),
        text_token(old(out)@),
    ensures
        text_token(final(out)@),
        final(out)@.len() == old(out)@.len() + d@.len(),
        forall|q: int| 0 <= q < old(out)@.len() ==> final(out)@[q] == old(out)@[q],
        forall|q: int|
            old(out)@.len() <= q < final(out)@.len() ==> is_dec_digit(#[trigger] final(out)@[q]),
{
    let n = d.len();
    let mut i: usize = n;
    while i > 0
        invariant
            i <= n,
            n == d@.len(),
            digits_ok(d@),
            text_token(out@),
            out@.len() == old(out)@.len() + (n - i),
            forall|q: int| 0 <= q < old(out)@.len() ==> out@[q] == old(out)@[q],
            forall|q: int| old(out)@.len() <= q < out@.len() ==> is_dec_digit(#[trigger] out@[q]),
        decreases i,
    {
        i = i - 1;
        let c = hex_digit_char_x(d[i]);
        proof {
            lemma_digit_char_token(d@[i as int]);
        }
        push_token_char(out, c);
        assert forall|q: int|
            old(out)@.len() <= q < out@.len() implies is_dec_digit(#[trigger] out@[q]) by {
            if q < out@.len() - 1 {
            } else {
                assert(out@[q] == c);
            }
        }
    }
}

/// A decimal digit character is a plain token character, and for values
/// below ten a decimal digit.
proof fn lemma_digit_char_token(n: u8)
    requires
        n < 16,
    ensures
        hex_digit_char(n) != ' ' && hex_digit_char(n) != '\t' && hex_digit_char(n) != '\n'
            && hex_digit_char(n) != '\r' && hex_digit_char(n) != '<' && hex_digit_char(n) != '>'
            && hex_digit_char(n) != '&' && hex_digit_char(n) != '\'' && hex_digit_char(n) != '"',
        n < 10 ==> is_dec_digit(hex_digit_char(n)),
{
}

/// Digits run from `i` up to `j`, where the run stops.
proof fn lemma_skip_digits_upto(t: Seq<char>, i: int, j: int)
    requires
        0 <= i <= j <= t.len(),
        forall|q: int| i <= q < j ==> is_dec_digit(#[trigger] t[q]),
        j == t.len() || !is_dec_digit(t[j]),
    ensures
        skip_digits(t, i) == j,
    decreases j - i,
{
    if i < j {
        lemma_skip_digits_upto(t, i + 1, j);
    }
}

/// Append one character that needs no escaping, keeping the token property.
fn push_token_char(out: &mut String, c: char)
    requires
        text_token(old(out)@),
        c != ' ' && c != '\t' && c != '\n' && c != '\r' && c != '<' && c != '>' && c != '&' && c
            != '\'' && c != '"',
    ensures
        text_token(final(out)@),
        final(out)@.len() == old(out)@.len() + 1,
        final(out)@ == old(out)@.push(c),
{
    push_char(out, c);
    assert forall|i: int| 0 <= i < out@.len() implies {
        let ch = #[trigger] out@[i];
        ch != ' ' && ch != '\t' && ch != '\n' && ch != '\r' && ch != '<' && ch != '>' && ch
            != '&' && ch != '\'' && ch != '"'
    } by {
        if i < out@.len() - 1 {
            assert(out@[i] == old(out)@[i]);
        }
    }
}

/// The exact decimal text of an IEEE 754 double bit pattern: `NaN`, `inf`
/// and `-inf` for the special patterns, otherwise a plain or fractional
/// decimal numeral holding the value exactly.
pub fn format_real(bits: u64) -> (r: String)
    ensures
        text_token(r@),
        r@.len() > 0,
        is_nan_bits(bits) ==> r@ == seq!['n', 'a', 'n'],
        bits == INF_BITS ==> r@ == seq!['i', 'n', 'f'],
        bits == NEG_INF_BITS ==> r@ == seq!['-', 'i', 'n', 'f'],
        bits == 0 ==> r@ == seq!['0'],
        bits == 0x8000_0000_0000_0000 ==> r@ == seq!['-', '0'],
        spec_real_accepted(r@),
{
    let exp_field: u64 = (bits >> 52) & 0x7FF;
    let frac: u64 = bits & 0xF_FFFF_FFFF_FFFF;
    let neg: bool = (bits >> 63) == 1;
    let mut out = String::new();
    assert(out@.len() == 0);
    if exp_field == 0x7FF {
        if frac != 0 {
            push_token_char(&mut out, 'n');
            push_token_char(&mut out, 'a');
            push_token_char(&mut out, 'n');
            assert(out@ =~= seq!['n', 'a', 'n']);
            proof {
                assert(spec_strip_sign(out@).1 =~= out@);
                assert(is_nan_token(out@));
                assert(bits != 0x7FF0_0000_0000_0000u64 && bits != 0xFFF0_0000_0000_0000u64
                    && bits != 0 && bits != 0x8000_0000_0000_0000u64) by (bit_vector)
                    requires
                        bits & 0xF_FFFF_FFFF_FFFF != 0,
                ;
            }
            return out;
        }
        if neg {
            push_token_char(&mut out, '-');
        }
        push_token_char(&mut out, 'i');
        push_token_char(&mut out, 'n');
        push_token_char(&mut out, 'f');
        proof {
            assert(!is_nan_bits(bits)) by (bit_vector)
                requires
                    (bits >> 52) & 0x7FF == 0x7FF && bits & 0xF_FFFF_FFFF_FFFF == 0,
            ;
            assert((bits >> 63 == 1) == (bits == 0xFFF0_0000_0000_0000u64)) by (bit_vector)
                requires
                    (bits >> 52) & 0x7FF == 0x7FF && bits & 0xF_FFFF_FFFF_FFFF == 0,
            ;
            assert((bits >> 63 == 0) == (bits == 0x7FF0_0000_0000_0000u64)) by (bit_vector)
                requires
                    (bits >> 52) & 0x7FF == 0x7FF && bits & 0xF_FFFF_FFFF_FFFF == 0,
            ;
            assert(bits != 0 && bits != 0x8000_0000_0000_0000u64) by (bit_vector)
                requires
                    (bits >> 52) & 0x7FF == 0x7FF,
            ;
            if neg {
                assert(out@ =~= seq!['-', 'i', 'n', 'f']);
                assert(spec_strip_sign(out@).1 =~= seq!['i', 'n', 'f']);
            } else {
                assert(out@ =~= seq!['i', 'n', 'f']);
                assert(spec_strip_sign(out@).1 =~= seq!['i', 'n', 'f']);
            }
            assert(is_inf_token(out@));
        }
        return out;
    }
    proof {
        assert(!is_nan_bits(bits)) by (bit_vector)
            requires
                (bits >> 52) & 0x7FF != 0x7FF,
        ;
        assert((bits & 0xF_FFFF_FFFF_FFFF) <= 0xF_FFFF_FFFF_FFFF) by (bit_vector);
        assert((bits >> 52) & 0x7FF < 0x800) by (bit_vector);
    }
    // value = m * 2^e, sign apart
    let mut m: u64 = if exp_field == 0 {
        frac
    } else {
        frac + 0x10_0000_0000_0000
    };
    let mut e: i64 = if exp_field == 0 {
        -1074
    } else {
        (exp_field as i64) - 1075
    };
    if neg {
        push_token_char(&mut out, '-');
    }
    let ghost sign_len: int = if neg {
        1int
    } else {
        0int
    };
    proof {
        assert((bits >> 52) & 0x7FF != 0x7FF ==> bits != 0x7FF0_0000_0000_0000u64 && bits
            != 0xFFF0_0000_0000_0000u64) by (bit_vector);
        assert((bits >> 52) & 0x7FF == 0 && bits & 0xF_FFFF_FFFF_FFFF == 0 && bits >> 63 == 0
            ==> bits == 0) by (bit_vector);
        assert((bits >> 52) & 0x7FF == 0 && bits & 0xF_FFFF_FFFF_FFFF == 0 && bits >> 63 == 1
            ==> bits == 0x8000_0000_0000_0000u64) by (bit_vector);
        assert(bits == 0 ==> (bits >> 52) & 0x7FF == 0 && bits & 0xF_FFFF_FFFF_FFFF == 0 && bits
            >> 63 == 0) by (bit_vector);
        assert(bits == 0x8000_0000_0000_0000u64 ==> (bits >> 52) & 0x7FF == 0 && bits
            & 0xF_FFFF_FFFF_FFFF == 0 && bits >> 63 == 1) by (bit_vector);
    }
    if m == 0 {
        push_token_char(&mut out, '0');
        proof {
            if neg {
                assert(out@ =~= seq!['-', '0']);
                assert(spec_strip_sign(out@).1 =~= seq!['0']);
            } else {
                assert(out@ =~= seq!['0']);
                assert(spec_strip_sign(out@).1 =~= seq!['0']);
            }
            lemma_skip_digits_upto(spec_strip_sign(out@).1, 0, 1);
            assert(dec_grammar(out@));
        }
        return out;
    }
    // strip trailing zero bits so the fraction part ends in a nonzero digit
    while m % 2 == 0 && e < 1024
        invariant
            m <= 0x20_0000_0000_0000,
            -1074 <= e <= 1024,
            out@ == (if neg {
                seq!['-']
            } else {
                Seq::<char>::empty()
            }),
        decreases 1024 - e,
    {
        m = m / 2;
        e = e + 1;
    }
    proof {
        assert(text_token(out@));
    }
    let mut d = digits_from_u64(m);
    if e >= 0 {
        // integer: m * 2^e
        let mut k: i64 = 0;
        while k < e
            invariant
                0 <= k <= e <= 1024,
                digits_ok(d@),
                d@.len() <= 20 + k,
                out@ == (if neg {
                    seq!['-']
                } else {
                    Seq::<char>::empty()
                }),
            decreases e - k,
        {
            digits_mul2(&mut d);
            k = k + 1;
        }
        proof {
            assert(text_token(out@));
        }
        if d.len() == 0 {
            push_token_char(&mut out, '0');
        } else {
            push_digits(&mut out, &d);
        }
        proof {
            let t = spec_strip_sign(out@).1;
            assert(t.len() == out@.len() - sign_len);
            assert forall|q: int| 0 <= q < t.len() implies is_dec_digit(#[trigger] t[q]) by {
                assert(t[q] == out@[q + sign_len]);
            }
            assert(t.len() > 0);
            lemma_skip_digits_upto(t, 0, t.len() as int);
            assert(dec_grammar(out@));
        }
    } else {
        // fraction: (m * 5^|e|) with the decimal point |e| digits from the end
        let mut k: i64 = 0;
        while k < -e
            invariant
                e < 0,
                0 <= k <= -e,
                -1074 <= e,
                digits_ok(d@),
                d@.len() <= 20 + k,
                out@ == (if neg {
                    seq!['-']
                } else {
                    Seq::<char>::empty()
                }),
            decreases -e - k,
        {
            digits_mul5(&mut d);
            k = k + 1;
        }
        proof {
            assert(text_token(out@));
        }
        let point: usize = (-e) as usize;
        // integer part: digits at index >= point
        let n = d.len();
        if n <= point {
            push_token_char(&mut out, '0');
        } else {
            let mut i: usize = n;
            while i > point
                invariant
                    point <= i <= n,
                    n == d@.len(),
                    digits_ok(d@),
                    text_token(out@),
                    out@.len() == sign_len + (n - i),
                    sign_len == if neg {
                        1int
                    } else {
                        0int
                    },
                    neg ==> out@.len() >= 1 && out@[0] == '-',
                    forall|q: int| sign_len <= q < out@.len() ==> is_dec_digit(#[trigger] out@[q]),
                decreases i,
            {
                i = i - 1;
                let c = hex_digit_char_x(d[i]);
                proof {
                    lemma_digit_char_token(d@[i as int]);
                }
                push_token_char(&mut out, c);
                assert forall|q: int|
                    sign_len <= q < out@.len() implies is_dec_digit(#[trigger] out@[q]) by {
                    if q == out@.len() - 1 {
                        assert(out@[q] == c);
                    }
                }
                assert(neg ==> out@[0] == '-');
            }
        }
        let ghost int_len: int = out@.len() - sign_len;
        proof {
            assert(int_len >= 1);
            assert(forall|q: int| sign_len <= q < out@.len() ==> is_dec_digit(#[trigger] out@[q]));
        }
        push_token_char(&mut out, '.');
        // fraction part: digits below the point, zero-padded at the top
        let mut i: usize = point;
        while i > 0
            invariant
                i <= point,
                digits_ok(d@),
                text_token(out@),
                sign_len == if neg {
                    1int
                } else {
                    0int
                },
                int_len >= 1,
                out@.len() == sign_len + int_len + 1 + (point - i),
                neg ==> out@[0] == '-',
                forall|q: int| sign_len <= q < sign_len + int_len ==> is_dec_digit(
                    #[trigger] out@[q],
                ),
                out@[sign_len + int_len] == '.',
                forall|q: int| sign_len + int_len + 1 <= q < out@.len() ==> is_dec_digit(
                    #[trigger] out@[q],
                ),
            decreases i,
        {
            i = i - 1;
            let c = if i < d.len() {
                hex_digit_char_x(d[i])
            } else {
                '0'
            };
            proof {
                if i < d@.len() {
                    lemma_digit_char_token(d@[i as int]);
                }
            }
            push_token_char(&mut out, c);
            assert forall|q: int|
                sign_len + int_len + 1 <= q < out@.len() implies is_dec_digit(
                #[trigger] out@[q]) by {
                if q == out@.len() - 1 {
                    assert(out@[q] == c);
                }
            }
        }
        proof {
            let t = spec_strip_sign(out@).1;
            assert(t.len() == out@.len() - sign_len);
            assert forall|q: int| 0 <= q < t.len() implies t[q] == out@[q + sign_len] by {}
            lemma_skip_digits_upto(t, 0, int_len);
            assert(t[int_len] == '.');
            lemma_skip_digits_upto(t, int_len + 1, t.len() as int);
            assert(dec_grammar(out@));
        }
    }
    out
}

/// First position at or after `i` that does not hold a decimal digit.
pub open spec fn skip_digits(s: Seq<char>, i: int) -> int
    decreases s.len() - i,
{
    if 0 <= i < s.len() && is_dec_digit(s[i]) {
        skip_digits(s, i + 1)
    } else {
        i
    }
}

/// The token, sign aside, is a decimal or scientific literal: digits with
/// one optional point somewhere among them (at least one digit in all), and
/// an optional exponent of one or more digits with an optional sign.
pub open spec fn dec_grammar(s: Seq<char>) -> bool {
    let t = spec_strip_sign(s).1;
    let i1 = skip_digits(t, 0);
    let has_dot = i1 < t.len() && t[i1] == '.';
    let i2 = if has_dot {
        skip_digits(t, i1 + 1)
    } else {
        i1
    };
    let digits_present = i1 > 0 || (has_dot && i2 > i1 + 1);
    if !digits_present {
        false
    } else if i2 == t.len() {
        true
    } else if t[i2] == 'e' || t[i2] == 'E' {
        let j = if i2 + 1 < t.len() && (t[i2 + 1] == '+' || t[i2 + 1] == '-') {
            i2 + 2
        } else {
            i2 + 1
        };
        j < t.len() && skip_digits(t, j) == t.len()
    } else {
        false
    }
}

/// A real literal is accepted exactly when it is a `nan` token, an
/// infinity token, or a decimal/scientific literal.
pub open spec fn spec_real_accepted(s: Seq<char>) -> bool {
    is_nan_token(s) || is_inf_token(s) || dec_grammar(s)
}

/// Advance over decimal digits, returning where they stop.
fn scan_digits(s: &str, n: usize, i: usize) -> (r: usize)
    requires
        n == s@.len(),
        i <= n,
    ensures
        i <= r <= n,
        r as int == skip_digits(s@, i as int),
    decreases n - i,
{
    let mut j = i;
    while j < n
        invariant
            i <= j <= n,
            n == s@.len(),
            skip_digits(s@, i as int) == skip_digits(s@, j as int),
        decreases n - j,
    {
        let c = s.get_char(j);
        let cv = c as u32;
        if cv < 0x30 || cv > 0x39 {
            assert(!is_dec_digit(s@[j as int]));
            return j;
        }
        assert(is_dec_digit(s@[j as int]));
        j = j + 1;
    }
    j
}

/// Match the rest of `s` from `i` case-insensitively against a lower-case
/// word given as chars.
fn tail_ci_matches(s: &str, n: usize, i: usize, w: &Vec<char>) -> (r: bool)
    requires
        n == s@.len(),
        i <= n,
    ensures
        r == ci_matches(s@.skip(i as int), w@),
{
    if n - i != w.len() {
        assert(s@.skip(i as int).len() != w@.len());
        return false;
    }
    let m = w.len();
    let mut j: usize = 0;
    while j < m
        invariant
            j <= m,
            m == w@.len(),
            i + m <= n,
            n == s@.len(),
            forall|q: int|
                0 <= q < j ==> (#[trigger] s@.skip(i as int)[q]) == w@[q] || (s@.skip(
                    i as int,
                )[q] as u32) + 32 == (w@[q] as u32),
        decreases m - j,
    {
        let c = s.get_char(i + j);
        let ok = ci_char(c, w[j]);
        if !ok {
            assert(s@.skip(i as int)[j as int] == s@[i + j]);
            return false;
        }
        assert(s@.skip(i as int)[j as int] == s@[i + j]);
        j = j + 1;
    }
    true
}

/// Whether a real literal is acceptable: mirrors `spec_real_accepted`.
fn real_grammar_check(s: &str, n: usize) -> (r: bool)
    requires
        n == s@.len(),
    ensures
        r == spec_real_accepted(s@),
{
    let mut start: usize = 0;
    if n > 0 {
        let c0 = s.get_char(0);
        if c0 == '-' || c0 == '+' {
            start = 1;
        }
    }
    proof {
        assert(spec_strip_sign(s@).1 =~= s@.skip(start as int));
    }
    let mut nan_word: Vec<char> = Vec::new();
    nan_word.push('n');
    nan_word.push('a');
    nan_word.push('n');
    proof {
        assert(nan_word@ =~= seq!['n', 'a', 'n']);
    }
    if tail_ci_matches(s, n, start, &nan_word) {
        return true;
    }
    let mut inf_word: Vec<char> = Vec::new();
    inf_word.push('i');
    inf_word.push('n');
    inf_word.push('f');
    proof {
        assert(inf_word@ =~= seq!['i', 'n', 'f']);
    }
    if tail_ci_matches(s, n, start, &inf_word) {
        return true;
    }
    inf_word.push('i');
    inf_word.push('n');
    inf_word.push('i');
    inf_word.push('t');
    inf_word.push('y');
    proof {
        assert(inf_word@ =~= seq!['i', 'n', 'f', 'i', 'n', 'i', 't', 'y']);
    }
    if tail_ci_matches(s, n, start, &inf_word) {
        return true;
    }
    // decimal / scientific literal, mirrored on the suffix after the sign
    let ghost t = s@.skip(start as int);
    let i1 = scan_digits(s, n, start);
    proof {
        lemma_skip_digits_shift(s@, start as int, start as int);
        assert(i1 - start == skip_digits(t, 0));
    }
    let has_dot = i1 < n && s.get_char(i1) == '.';
    let i2 = if has_dot {
        let r = scan_digits(s, n, i1 + 1);
        proof {
            lemma_skip_digits_shift(s@, start as int, i1 as int + 1);
        }
        r
    } else {
        i1
    };
    let digits_present = i1 > start || (has_dot && i2 > i1 + 1);
    if !digits_present {
        return false;
    }
    if i2 == n {
        return true;
    }
    let ce = s.get_char(i2);
    if ce != 'e' && ce != 'E' {
        return false;
    }
    let mut j = i2 + 1;
    if j < n {
        let cs = s.get_char(j);
        if cs == '+' || cs == '-' {
            j = j + 1;
        }
    }
    if j >= n {
        return false;
    }
    let je = scan_digits(s, n, j);
    proof {
        lemma_skip_digits_shift(s@, start as int, j as int);
    }
    je == n
}

/// Skipping digits in a suffix matches skipping them in the whole string.
proof fn lemma_skip_digits_shift(s: Seq<char>, start: int, i: int)
    requires
        0 <= start <= i <= s.len(),
    ensures
        skip_digits(s, i) - start == skip_digits(s.skip(start), i - start),
    decreases s.len() - i,
{
    let t = s.skip(start);
    if i < s.len() && is_dec_digit(s[i]) {
        assert(t[i - start] == s[i]);
        lemma_skip_digits_shift(s, start, i + 1);
    } else {
        if i - start < t.len() {
            assert(t[i - start] == s[i]);
        }
    }
}

/// Copy a digit vector.
fn copy_digits(d: &Vec<u8>) -> (r: Vec<u8>)
    ensures
        r@ == d@,
{
    let mut out: Vec<u8> = Vec::new();
    let n = d.len();
    let mut i: usize = 0;
    while i < n
        invariant
            i <= n,
            n == d@.len(),
            out@ == d@.take(i as int),
        decreases n - i,
    {
        out.push(d[i]);
        assert(out@ =~= d@.take(i + 1));
        i = i + 1;
    }
    proof {
        assert(d@.take(n as int) =~= d@);
    }
    out
}

/// Drop the `k` least significant digits; reports whether any was nonzero.
fn digits_drop_low(d: &Vec<u8>, k: usize) -> (r: (Vec<u8>, bool))
    requires
        digits_ok(d@),
    ensures
        digits_ok(r.0@),
        r.0@.len() <= d@.len(),
{
    let n = d.len();
    let mut out: Vec<u8> = Vec::new();
    let mut sticky = false;
    let mut i: usize = 0;
    while i < n
        invariant
            i <= n,
            n == d@.len(),
            digits_ok(d@),
            digits_ok(out@),
            out@.len() <= i,
        decreases n - i,
    {
        if i < k {
            if d[i] != 0 {
                sticky = true;
            }
        } else {
            out.push(d[i]);
        }
        i = i + 1;
    }
    (out, sticky)
}

/// The bit pattern of a zero with the given sign.
fn zero_bits(neg: bool) -> (r: u64)
    ensures
        r == if neg {
            0x8000_0000_0000_0000u64
        } else {
            0u64
        },
{
    if neg {
        0x8000_0000_0000_0000
    } else {
        0
    }
}

/// The bit pattern of an infinity with the given sign.
fn inf_bits_of(neg: bool) -> (r: u64)
    ensures
        r == if neg {
            NEG_INF_BITS
        } else {
            INF_BITS
        },
{
    if neg {
        NEG_INF_BITS
    } else {
        INF_BITS
    }
}

/// Assemble an IEEE 754 double bit pattern from a sign, a mantissa below
/// 2^53, and a binary exponent at least -1074; magnitudes beyond the format
/// become an infinity.
fn finalize_parts(neg: bool, m0: u64, e0: i64) -> (r: u64)
    requires
        m0 < 0x20_0000_0000_0000,
        e0 >= -1074,
        e0 <= 4200,
    ensures
        true,
{
    let mut m = m0;
    let mut e = e0;
    if m == 0 {
        return zero_bits(neg);
    }
    while m < 0x10_0000_0000_0000 && e > -1074
        invariant
            m < 0x20_0000_0000_0000,
            -1074 <= e <= 4200,
        decreases e + 1074,
    {
        m = m * 2;
        e = e - 1;
    }
    if e > 971 {
        return inf_bits_of(neg);
    }
    let sign: u64 = if neg {
        0x8000_0000_0000_0000
    } else {
        0
    };
    if m >= 0x10_0000_0000_0000 {
        let exp_field: u64 = (e + 1075) as u64;
        sign | (exp_field << 52) | (m - 0x10_0000_0000_0000)
    } else {
        sign | m
    }
}

/// Parse a real literal into its IEEE 754 bit pattern: `nan` in any case
/// (optional sign) gives the canonical NaN, the infinity tokens give the
/// infinities, and a decimal or scientific literal is converted, exactly
/// representable values exactly and others by rounding; magnitudes beyond
/// the format give an infinity or a zero.  Rejects exactly the inputs that
/// `spec_real_accepted` rejects.
pub fn parse_real(s: &str) -> (r: Option<u64>)
    ensures
        r is Some <==> spec_real_accepted(s@),
        is_nan_token(s@) ==> r == Some(CANONICAL_NAN_BITS),
        !is_nan_token(s@) && is_inf_token(s@) && spec_strip_sign(s@).0 ==> r == Some(
            NEG_INF_BITS,
        ),
        !is_nan_token(s@) && is_inf_token(s@) && !spec_strip_sign(s@).0 ==> r == Some(INF_BITS),
{
    let n = s.unicode_len();
    if !real_grammar_check(s, n) {
        return None;
    }
    let mut start: usize = 0;
    let mut neg = false;
    if n > 0 {
        let c0 = s.get_char(0);
        if c0 == '-' {
            neg = true;
            start = 1;
        } else if c0 == '+' {
            start = 1;
        }
    }
    proof {
        assert(spec_strip_sign(s@).1 =~= s@.skip(start as int));
        assert(spec_strip_sign(s@).0 == neg);
    }
    let mut nan_word: Vec<char> = Vec::new();
    nan_word.push('n');
    nan_word.push('a');
    nan_word.push('n');
    proof {
        assert(nan_word@ =~= seq!['n', 'a', 'n']);
    }
    if tail_ci_matches(s, n, start, &nan_word) {
        return Some(CANONICAL_NAN_BITS);
    }
    let mut inf_word: Vec<char> = Vec::new();
    inf_word.push('i');
    inf_word.push('n');
    inf_word.push('f');
    proof {
        assert(inf_word@ =~= seq!['i', 'n', 'f']);
    }
    let mut is_inf = tail_ci_matches(s, n, start, &inf_word);
    if !is_inf {
        inf_word.push('i');
        inf_word.push('n');
        inf_word.push('i');
        inf_word.push('t');
        inf_word.push('y');
        proof {
            assert(inf_word@ =~= seq!['i', 'n', 'f', 'i', 'n', 'i', 't', 'y']);
        }
        is_inf = tail_ci_matches(s, n, start, &inf_word);
    }
    if is_inf {
        return Some(inf_bits_of(neg));
    }
    Some(decimal_real_bits(s, n, start, neg))
}

/// Convert a decimal or scientific literal (the sign already stripped) to
/// its IEEE 754 bit pattern, rounding to nearest-even where the value is
/// not exactly representable and saturating to an infinity or a zero
/// beyond the format's range.
fn decimal_real_bits(s: &str, n: usize, start: usize, neg: bool) -> (r: u64)
    requires
        n == s@.len(),
        start <= n,
{
    // collect up to 800 significant digits, most significant first
    let mut msd: Vec<u8> = Vec::new();
    let mut sticky = false;
    let mut extra_int: i64 = 0;
    let mut frac_count: i64 = 0;
    let mut i = start;
    let mut seen_nonzero = false;
    while i < n
        invariant
            start <= i <= n,
            n == s@.len(),
            digits_ok(msd@),
            msd@.len() <= 800,
            0 <= extra_int <= 1_000_000,
            0 <= frac_count <= 1_000_000,
        decreases n - i,
    {
        let c = s.get_char(i);
        let cv = c as u32;
        if cv < 0x30 || cv > 0x39 {
            break ;
        }
        let dv = (cv - 0x30) as u8;
        if dv != 0 {
            seen_nonzero = true;
        }
        if msd.len() < 800 {
            if msd.len() > 0 || dv != 0 {
                msd.push(dv);
            }
        } else {
            if extra_int < 1_000_000 {
                extra_int = extra_int + 1;
            }
            if dv != 0 {
                sticky = true;
            }
        }
        i = i + 1;
    }
    if i < n && s.get_char(i) == '.' {
        i = i + 1;
        while i < n
            invariant
                i <= n,
                n == s@.len(),
                digits_ok(msd@),
                msd@.len() <= 800,
                0 <= frac_count <= 1_000_000,
            decreases n - i,
        {
            let c = s.get_char(i);
            let cv = c as u32;
            if cv < 0x30 || cv > 0x39 {
                break ;
            }
            let dv = (cv - 0x30) as u8;
            if dv != 0 {
                seen_nonzero = true;
            }
            if msd.len() < 800 {
                if msd.len() > 0 || dv != 0 {
                    msd.push(dv);
                }
                if frac_count < 1_000_000 {
                    frac_count = frac_count + 1;
                }
            } else {
                if dv != 0 {
                    sticky = true;
                }
            }
            i = i + 1;
        }
    }
    // exponent
    let mut exp_val: i64 = 0;
    let mut exp_neg = false;
    if i < n {
        let ce = s.get_char(i);
        if ce == 'e' || ce == 'E' {
            i = i + 1;
            if i < n {
                let cs = s.get_char(i);
                if cs == '-' {
                    exp_neg = true;
                    i = i + 1;
                } else if cs == '+' {
                    i = i + 1;
                }
            }
            while i < n
                invariant
                    i <= n,
                    n == s@.len(),
                    0 <= exp_val <= 10_000_000_000,
                decreases n - i,
            {
                let c = s.get_char(i);
                let cv = c as u32;
                if cv < 0x30 || cv > 0x39 {
                    break ;
                }
                if exp_val < 1_000_000_000 {
                    exp_val = exp_val * 10 + ((cv - 0x30) as i64);
                }
                i = i + 1;
            }
        }
    }
    if exp_neg {
        exp_val = -exp_val;
    }
    if !seen_nonzero {
        return zero_bits(neg);
    }
    // build the little-endian digit vector
    let mut d: Vec<u8> = Vec::new();
    let mut j = msd.len();
    while j > 0
        invariant
            j <= msd@.len(),
            msd@.len() <= 800,
            digits_ok(msd@),
            digits_ok(d@),
            d@.len() == msd@.len() - j,
        decreases j,
    {
        j = j - 1;
        d.push(msd[j]);
    }
    trim_digits(&mut d);
    if d.len() == 0 {
        return zero_bits(neg);
    }
    let ff: i64 = exp_val - frac_count + extra_int;
    let ndigits: i64 = d.len() as i64;
    let hi: i64 = ndigits + ff;
    if hi > 320 {
        return inf_bits_of(neg);
    }
    if hi < -360 {
        return zero_bits(neg);
    }
    // exact attempt
    if !sticky {
        let mut dd = copy_digits(&d);
        let mut count: i64 = 0;
        let mut exact = true;
        if ff >= 0 {
            while count < ff
                invariant
                    0 <= count <= ff <= 320,
                    digits_ok(dd@),
                    dd@.len() <= 800 + count,
                decreases ff - count,
            {
                digits_mul10(&mut dd);
                count = count + 1;
            }
        } else {
            while count < -ff && exact
                invariant
                    ff < 0,
                    0 <= count <= -ff,
                    -1200 <= ff,
                    digits_ok(dd@),
                    dd@.len() <= 800,
                decreases -ff - count,
            {
                let rem = digits_div5(&mut dd);
                if rem != 0 {
                    exact = false;
                }
                count = count + 1;
            }
        }
        if exact {
            // binary conversion
            let mut bits: Vec<u8> = Vec::new();
            let mut iter: usize = 0;
            while dd.len() > 0 && iter < 9000
                invariant
                    digits_ok(dd@),
                    bits@.len() == iter,
                    iter <= 9000,
                decreases 9000 - iter,
            {
                let rem = digits_div2(&mut dd);
                bits.push(rem);
                iter = iter + 1;
            }
            if dd.len() == 0 {
                let nbits = bits.len();
                let mut tz: usize = 0;
                while tz < nbits && bits[tz] == 0
                    invariant
                        tz <= nbits,
                        nbits == bits@.len(),
                    decreases nbits - tz,
                {
                    tz = tz + 1;
                }
                if nbits - tz <= 53 {
                    let mut m: u64 = 0;
                    let mut q = nbits;
                    while q > tz
                        invariant
                            tz <= q <= nbits,
                            nbits == bits@.len(),
                            nbits - tz <= 53,
                            m < 0x20_0000_0000_0000,
                        decreases q,
                    {
                        q = q - 1;
                        if m < 0x10_0000_0000_0000 {
                            m = m * 2 + (if bits[q] != 0 {
                                1
                            } else {
                                0
                            });
                        }
                    }
                    let e_exact: i64 = (if ff < 0 {
                        ff
                    } else {
                        0
                    }) + (tz as i64);
                    if e_exact >= -1074 && e_exact <= 4200 {
                        return finalize_parts(neg, m, e_exact);
                    }
                }
            }
        }
    }
    // rounded path
    let mut dd = copy_digits(&d);
    let mut e2: i64 = 0;
    let mut count: i64 = 0;
    if ff > 0 {
        while count < ff
            invariant
                0 <= count <= ff <= 320,
                digits_ok(dd@),
                dd@.len() <= 800 + count,
            decreases ff - count,
        {
            digits_mul10(&mut dd);
            count = count + 1;
        }
    } else if ff < 0 {
        while count < 1300
            invariant
                0 <= count <= 1300,
                digits_ok(dd@),
                dd@.len() <= 800 + count,
            decreases 1300 - count,
        {
            digits_mul2(&mut dd);
            count = count + 1;
        }
        e2 = -1300;
        let k: i64 = -ff;
        let ku: usize = if k > 4000 {
            4000
        } else {
            k as usize
        };
        let (dd2, st2) = digits_drop_low(&dd, ku);
        dd = dd2;
        if st2 {
            sticky = true;
        }
    }
    // binary conversion
    let mut bits: Vec<u8> = Vec::new();
    let mut iter: usize = 0;
    while dd.len() > 0 && iter < 9000
        invariant
            digits_ok(dd@),
            bits@.len() == iter,
            iter <= 9000,
        decreases 9000 - iter,
    {
        let rem = digits_div2(&mut dd);
        bits.push(rem);
        iter = iter + 1;
    }
    let nbits = bits.len();
    if nbits == 0 {
        return zero_bits(neg);
    }
    let mut dropc: i64 = nbits as i64 - 53;
    if dropc < 0 {
        dropc = 0;
    }
    if e2 + dropc < -1074 {
        dropc = -1074 - e2;
    }
    if dropc > nbits as i64 {
        return zero_bits(neg);
    }
    let dropu: usize = dropc as usize;
    let mut m: u64 = 0;
    let mut q = nbits;
    while q > dropu
        invariant
            dropu <= q <= nbits,
            nbits == bits@.len(),
            m < 0x20_0000_0000_0000,
        decreases q,
    {
        q = q - 1;
        if m < 0x10_0000_0000_0000 {
            m = m * 2 + (if bits[q] != 0 {
                1
            } else {
                0
            });
        }
    }
    let guard = dropu > 0 && bits[dropu - 1] != 0;
    if !sticky && dropu > 1 {
        let mut t: usize = 0;
        while t < dropu - 1 && !sticky
            invariant
                t <= dropu - 1,
                dropu <= nbits == bits@.len(),
            decreases dropu - 1 - t,
        {
            if bits[t] != 0 {
                sticky = true;
            }
            t = t + 1;
        }
    }
    if guard && (sticky || m % 2 == 1) {
        m = m + 1;
        if m == 0x20_0000_0000_0000 {
            m = m / 2;
            e2 = e2 + 1;
        }
    }
    let e_final: i64 = e2 + dropc;
    if e_final < -1074 || e_final > 4200 {
        if e_final > 4200 {
            return inf_bits_of(neg);
        }
        return zero_bits(neg);
    }
    if m >= 0x20_0000_0000_0000 {
        return inf_bits_of(neg);
    }
    finalize_parts(neg, m, e_final)
}

} // verus!
