//! Text forms of numbers used by the text codec: hexadecimal digit pairs
//! (base16), decimal 32-bit integers, and the canonical hyphenated UUID
//! form.  All conversions here are verified against their spec forms.

use vstd::prelude::*;

verus! {

use crate::outside::{hex_decode, a85_bytes_of};

/// The sixteen hexadecimal digit characters, lower case.
pub open spec fn hex_digit_char(n: u8) -> char {
    if n == 0 {
        '0'
    } else if n == 1 {
        '1'
    } else if n == 2 {
        '2'
    } else if n == 3 {
        '3'
    } else if n == 4 {
        '4'
    } else if n == 5 {
        '5'
    } else if n == 6 {
        '6'
    } else if n == 7 {
        '7'
    } else if n == 8 {
        '8'
    } else if n == 9 {
        '9'
    } else if n == 10 {
        'a'
    } else if n == 11 {
        'b'
    } else if n == 12 {
        'c'
    } else if n == 13 {
        'd'
    } else if n == 14 {
        'e'
    } else {
        'f'
    }
}

/// Executable form of [`hex_digit_char`].
pub(crate) fn hex_digit_char_x(n: u8) -> (c: char)
    requires
        n < 16,
    ensures
        c == hex_digit_char(n),
{
    match n {
        0 => '0',
        1 => '1',
        2 => '2',
        3 => '3',
        4 => '4',
        5 => '5',
        6 => '6',
        7 => '7',
        8 => '8',
        9 => '9',
        10 => 'a',
        11 => 'b',
        12 => 'c',
        13 => 'd',
        14 => 'e',
        _ => 'f',
    }
}

pub open spec fn is_dec_digit(c: char) -> bool {
    '0' <= c && c <= '9'
}

pub open spec fn is_hex_digit(c: char) -> bool {
    is_dec_digit(c) || ('a' <= c && c <= 'f') || ('A' <= c && c <= 'F')
}

/// Numeric value of one hexadecimal digit character.
pub open spec fn hex_val(c: char) -> u8 {
    if is_dec_digit(c) {
        ((c as u32) - 0x30) as u8
    } else if 'a' <= c && c <= 'f' {
        ((c as u32) - 0x61 + 10) as u8
    } else {
        ((c as u32) - 0x41 + 10) as u8
    }
}

/// What base16 decoding yields: an even number of hexadecimal digits maps
/// pairwise to bytes; anything else is rejected.
pub open spec fn spec_hex_decode(s: Seq<char>) -> Option<Seq<u8>>
    decreases s.len(),
{
    if s.len() == 0 {
        Some(Seq::empty())
    } else if s.len() == 1 || !is_hex_digit(s[0]) || !is_hex_digit(s[1]) {
        None
    } else {
        match spec_hex_decode(s.skip(2)) {
            Some(rest) => Some(
                seq![((hex_val(s[0]) as int) * 16 + hex_val(s[1]) as int) as u8] + rest,
            ),
            None => None,
        }
    }
}

/// Base16 encoding, lower case: each byte as two hexadecimal digits.
pub open spec fn spec_hex_encode(b: Seq<u8>) -> Seq<char>
    decreases b.len(),
{
    if b.len() == 0 {
        Seq::empty()
    } else {
        seq![
            hex_digit_char((b[0] / 16) as u8),
            hex_digit_char((b[0] % 16) as u8),
        ] + spec_hex_encode(b.drop_first())
    }
}

proof fn lemma_hex_digit_char_props(n: u8)
    requires
        n < 16,
    ensures
        is_hex_digit(hex_digit_char(n)),
        hex_val(hex_digit_char(n)) == n,
{
}

pub proof fn lemma_hex_encode_len(b: Seq<u8>)
    ensures
        spec_hex_encode(b).len() == 2 * b.len(),
    decreases b.len(),
{
    if b.len() > 0 {
        lemma_hex_encode_len(b.drop_first());
    }
}

/// Base16 decoding inverts base16 encoding.
pub proof fn lemma_hex_decode_encode(b: Seq<u8>)
    ensures
        spec_hex_decode(spec_hex_encode(b)) == Some(b),
    decreases b.len(),
{
    if b.len() == 0 {
        assert(spec_hex_encode(b) =~= Seq::<char>::empty());
        assert(spec_hex_decode(spec_hex_encode(b)) == Some(Seq::<u8>::empty()));
        assert(b =~= Seq::<u8>::empty());
    } else {
        let s = spec_hex_encode(b);
        lemma_hex_encode_len(b.drop_first());
        lemma_hex_digit_char_props((b[0] / 16) as u8);
        lemma_hex_digit_char_props((b[0] % 16) as u8);
        lemma_hex_decode_encode(b.drop_first());
        assert(s.skip(2) =~= spec_hex_encode(b.drop_first()));
        assert((hex_val(s[0]) as int) * 16 + hex_val(s[1]) as int == b[0]);
        assert(seq![b[0]] + b.drop_first() =~= b);
    }
}

/// Append the two hexadecimal digits of one byte.
pub(crate) fn push_hex_byte(out: &mut String, v: u8)
    ensures
        final(out)@ == old(out)@ + seq![
            hex_digit_char((v / 16) as u8),
            hex_digit_char((v % 16) as u8),
        ],
{
    let hi = hex_digit_char_x(v / 16);
    let lo = hex_digit_char_x(v % 16);
    crate::outside::push_char(out, hi);
    crate::outside::push_char(out, lo);
    assert(out@ =~= old(out)@ + seq![
        hex_digit_char((v / 16) as u8),
        hex_digit_char((v % 16) as u8),
    ]);
}

/// Decimal digits of a natural number, most significant first, no sign and
/// no leading zero.
pub open spec fn spec_udec(n: nat) -> Seq<char>
    decreases n,
{
    if n < 10 {
        seq![hex_digit_char(n as u8)]
    } else {
        spec_udec(n / 10) + seq![hex_digit_char((n % 10) as u8)]
    }
}

/// Decimal text of a 32-bit signed integer, as `Display` prints it.
pub open spec fn spec_i32_text(v: i32) -> Seq<char> {
    if v >= 0 {
        spec_udec(v as nat)
    } else {
        seq!['-'] + spec_udec((-(v as int)) as nat)
    }
}

/// Append the decimal digits of `n`.
pub(crate) fn push_udec(out: &mut String, n: u32)
    ensures
        final(out)@ == old(out)@ + spec_udec(n as nat),
    decreases n,
{
    if n < 10 {
        let c = hex_digit_char_x(n as u8);
        crate::outside::push_char(out, c);
        assert(out@ =~= old(out)@ + spec_udec(n as nat));
    } else {
        push_udec(out, n / 10);
        let c = hex_digit_char_x((n % 10) as u8);
        crate::outside::push_char(out, c);
        assert(out@ =~= old(out)@ + spec_udec(n as nat));
    }
}

/// Decimal text of a 32-bit signed integer.
pub fn format_i32(v: i32) -> (r: String)
    ensures
        r@ == spec_i32_text(v),
{
    let mut out = String::new();
    if v >= 0 {
        push_udec(&mut out, v as u32);
    } else {
        crate::outside::push_char(&mut out, '-');
        let magnitude: u32 = (-(v as i64)) as u32;
        push_udec(&mut out, magnitude);
        assert(out@ =~= seq!['-'] + spec_udec((-(v as int)) as nat));
    }
    out
}

/// Append the decimal digits of a 64-bit value.
pub(crate) fn push_udec64(out: &mut String, n: u64)
    ensures
        final(out)@ == old(out)@ + spec_udec(n as nat),
    decreases n,
{
    if n < 10 {
        let c = hex_digit_char_x(n as u8);
        crate::outside::push_char(out, c);
        assert(out@ =~= old(out)@ + spec_udec(n as nat));
    } else {
        push_udec64(out, n / 10);
        let c = hex_digit_char_x((n % 10) as u8);
        crate::outside::push_char(out, c);
        assert(out@ =~= old(out)@ + spec_udec(n as nat));
    }
}

/// Decimal text of a 64-bit signed integer.
pub open spec fn spec_i64_text(v: i64) -> Seq<char> {
    if v >= 0 {
        spec_udec(v as nat)
    } else {
        seq!['-'] + spec_udec((-(v as int)) as nat)
    }
}

/// Decimal text of a 64-bit signed integer.
pub fn format_i64(v: i64) -> (r: String)
    ensures
        r@ == spec_i64_text(v),
{
    let mut out = String::new();
    if v >= 0 {
        push_udec64(&mut out, v as u64);
    } else {
        crate::outside::push_char(&mut out, '-');
        let magnitude: u64 = if v == i64::MIN {
            0x8000_0000_0000_0000
        } else {
            (-v) as u64
        };
        push_udec64(&mut out, magnitude);
        assert(out@ =~= seq!['-'] + spec_udec((-(v as int)) as nat));
    }
    out
}

/// Value of a sequence of decimal digit characters, most significant first.
pub open spec fn dec_seq_val(s: Seq<char>) -> int
    decreases s.len(),
{
    if s.len() == 0 {
        0
    } else {
        dec_seq_val(s.drop_last()) * 10 + hex_val(s.last()) as int
    }
}

pub open spec fn all_dec_digits(s: Seq<char>) -> bool {
    forall|i: int| 0 <= i < s.len() ==> is_dec_digit(#[trigger] s[i])
}

/// What parsing a signed decimal 32-bit integer literal yields: an optional
/// sign, then one or more digits; a value outside the 32-bit range is
/// rejected, not truncated.
pub open spec fn spec_parse_i32(s: Seq<char>) -> Option<i32> {
    let (neg, t) = if s.len() > 0 && s[0] == '-' {
        (true, s.drop_first())
    } else if s.len() > 0 && s[0] == '+' {
        (false, s.drop_first())
    } else {
        (false, s)
    };
    if t.len() == 0 || !all_dec_digits(t) {
        None
    } else {
        let m = dec_seq_val(t);
        let v = if neg {
            -m
        } else {
            m
        };
        if i32::MIN <= v <= i32::MAX {
            Some(v as i32)
        } else {
            None
        }
    }
}

proof fn lemma_dec_seq_val_nonneg(s: Seq<char>)
    requires
        all_dec_digits(s),
    ensures
        dec_seq_val(s) >= 0,
    decreases s.len(),
{
    if s.len() > 0 {
        assert(all_dec_digits(s.drop_last()));
        lemma_dec_seq_val_nonneg(s.drop_last());
    }
}

proof fn lemma_dec_seq_val_grows(s: Seq<char>, i: int)
    requires
        all_dec_digits(s),
        0 <= i <= s.len(),
    ensures
        dec_seq_val(s) >= dec_seq_val(s.take(i)),
    decreases s.len() - i,
{
    if i < s.len() {
        assert(all_dec_digits(s.take(i + 1)));
        assert(s.take(i + 1).drop_last() =~= s.take(i));
        assert(s.take(i + 1).last() == s[i]);
        lemma_dec_seq_val_nonneg(s.take(i));
        lemma_dec_seq_val_grows(s, i + 1);
        assert(s.take(s.len() as int) =~= s);
    } else {
        assert(s.take(i) =~= s);
    }
}

/// Parse a signed decimal 32-bit integer literal.
pub fn parse_i32(s: &str) -> (r: Option<i32>)
    ensures
        r == spec_parse_i32(s@),
{
    let n = s.unicode_len();
    let mut i: usize = 0;
    let mut neg = false;
    if n > 0 {
        let c0 = s.get_char(0);
        if c0 == '-' {
            neg = true;
            i = 1;
        } else if c0 == '+' {
            i = 1;
        }
    }
    let ghost t = if i == 1 {
        s@.drop_first()
    } else {
        s@
    };
    let start = i;
    if i >= n {
        return None;
    }
    let mut acc: u64 = 0;
    let mut over = false;
    while i < n
        invariant
            start <= i <= n,
            n == s@.len(),
            start <= 1,
            t == s@.skip(start as int),
            (start == 1) == (s@.len() > 0 && (s@[0] == '-' || s@[0] == '+')),
            neg == (s@.len() > 0 && s@[0] == '-'),
            all_dec_digits(t.take(i - start)),
            !over ==> acc == dec_seq_val(t.take(i - start)) && acc <= 0xFFFF_FFFFu64,
            over ==> dec_seq_val(t.take(i - start)) > 0xFFFF_FFFF,
        decreases n - i,
    {
        let c = s.get_char(i);
        let cv = c as u32;
        if cv < 0x30 || cv > 0x39 {
            assert(!is_dec_digit(s@[i as int]));
            assert(t[i - start] == s@[i as int]);
            assert(!all_dec_digits(t));
            return None;
        }
        let d: u64 = (cv - 0x30) as u64;
        proof {
            assert(is_dec_digit(s@[i as int]));
            assert(t[i - start] == s@[i as int]);
            assert(t.take(i - start + 1).drop_last() =~= t.take(i - start));
            assert(t.take(i - start + 1).last() == t[i - start]);
            assert(hex_val(t[i - start]) as int == d);
        }
        if over {
            proof {
                assert(all_dec_digits(t.take(i - start + 1)));
                lemma_dec_seq_val_nonneg(t.take(i - start));
                assert(dec_seq_val(t.take(i - start + 1)) > 0xFFFF_FFFF);
            }
        } else {
            acc = acc * 10 + d;
            if acc > 0xFFFF_FFFF {
                over = true;
            }
        }
        i = i + 1;
    }
    proof {
        assert(t.take(i - start) =~= t);
    }
    if over {
        return None;
    }
    if neg {
        if acc > 0x8000_0000 {
            return None;
        }
        Some((-(acc as i64)) as i32)
    } else {
        if acc > 0x7FFF_FFFF {
            return None;
        }
        Some(acc as i32)
    }
}

/// Decimal parsing inverts decimal formatting of a 32-bit integer.
pub proof fn lemma_parse_format_i32(v: i32)
    ensures
        spec_parse_i32(spec_i32_text(v)) == Some(v),
{
    lemma_udec_props(if v >= 0 {
        v as nat
    } else {
        (-(v as int)) as nat
    });
    if v >= 0 {
        let t = spec_udec(v as nat);
        assert(t[0] != '-' && t[0] != '+');
    } else {
        let s = spec_i32_text(v);
        assert(s[0] == '-');
        assert(s.drop_first() =~= spec_udec((-(v as int)) as nat));
    }
}

/// The decimal digits of `n` are digits, start with no sign, and read back
/// as `n`.
pub proof fn lemma_udec_props(n: nat)
    ensures
        spec_udec(n).len() > 0,
        all_dec_digits(spec_udec(n)),
        dec_seq_val(spec_udec(n)) == n,
        is_dec_digit(spec_udec(n)[0]),
    decreases n,
{
    if n < 10 {
        lemma_hex_digit_char_props(n as u8);
        assert(spec_udec(n).drop_last() =~= Seq::<char>::empty());
        assert(spec_udec(n).last() == hex_digit_char(n as u8));
        assert(dec_seq_val(Seq::<char>::empty()) == 0);
        assert(dec_seq_val(spec_udec(n).drop_last()) == 0);
        assert(dec_seq_val(spec_udec(n)) == 0 * 10 + hex_val(hex_digit_char(n as u8)));
    } else {
        lemma_udec_props(n / 10);
        lemma_hex_digit_char_props((n % 10) as u8);
        let s = spec_udec(n);
        assert(s.drop_last() =~= spec_udec(n / 10));
        assert(s.last() == hex_digit_char((n % 10) as u8));
        assert forall|i: int| 0 <= i < s.len() implies is_dec_digit(#[trigger] s[i]) by {
            if i < s.len() - 1 {
                assert(s[i] == spec_udec(n / 10)[i]);
            }
        }
        assert(dec_seq_val(s) == dec_seq_val(spec_udec(n / 10)) * 10 + hex_val(
            hex_digit_char((n % 10) as u8),
        ) as int);
        assert(dec_seq_val(s) == (n / 10) * 10 + n % 10);
    }
}

/// Canonical hyphenated UUID text of 16 bytes: 8-4-4-4-12 hexadecimal
/// digits, lower case.
pub open spec fn spec_uuid_text(b: Seq<u8>) -> Seq<char> {
    let h = spec_hex_encode(b);
    h.subrange(0, 8) + seq!['-'] + h.subrange(8, 12) + seq!['-'] + h.subrange(12, 16) + seq!['-']
        + h.subrange(16, 20) + seq!['-'] + h.subrange(20, 32)
}

/// The all-zero UUID.
pub open spec fn spec_zero_uuid() -> Seq<u8> {
    Seq::new(16, |i: int| 0u8)
}

/// What parsing a UUID text yields: empty text is the all-zero UUID; the
/// canonical hyphenated form gives its bytes; anything else is rejected.
pub open spec fn spec_uuid_parse(s: Seq<char>) -> Option<Seq<u8>> {
    if s.len() == 0 {
        Some(spec_zero_uuid())
    } else if s.len() == 36 && s[8] == '-' && s[13] == '-' && s[18] == '-' && s[23] == '-' {
        spec_hex_decode(
            s.subrange(0, 8) + s.subrange(9, 13) + s.subrange(14, 18) + s.subrange(19, 23)
                + s.subrange(24, 36),
        )
    } else {
        None
    }
}

/// Canonical text of a 16-byte UUID.
pub fn uuid_format(b: &Vec<u8>) -> (r: String)
    requires
        b@.len() == 16,
    ensures
        r@ == spec_uuid_text(b@),
{
    let mut h = String::new();
    let mut i: usize = 0;
    while i < 16
        invariant
            i <= 16,
            b@.len() == 16,
            h@ == spec_hex_encode(b@.take(i as int)),
        decreases 16 - i,
    {
        push_hex_byte(&mut h, b[i]);
        proof {
            lemma_hex_encode_snoc(b@.take(i as int), b@[i as int]);
            assert(b@.take(i + 1) =~= b@.take(i as int).push(b@[i as int]));
        }
        i = i + 1;
    }
    proof {
        assert(b@.take(16) =~= b@);
        lemma_hex_encode_len(b@);
    }
    let hs = h.as_str();
    let mut r = String::new();
    r.append(hs.substring_char(0, 8));
    r.append("-");
    r.append(hs.substring_char(8, 12));
    r.append("-");
    r.append(hs.substring_char(12, 16));
    r.append("-");
    r.append(hs.substring_char(16, 20));
    r.append("-");
    r.append(hs.substring_char(20, 32));
    proof {
        reveal_strlit("-");
        assert(r@ =~= spec_uuid_text(b@));
    }
    r
}

/// Hex encoding distributes over appending one byte.
pub proof fn lemma_hex_encode_snoc(b: Seq<u8>, v: u8)
    ensures
        spec_hex_encode(b.push(v)) == spec_hex_encode(b) + seq![
            hex_digit_char((v / 16) as u8),
            hex_digit_char((v % 16) as u8),
        ],
    decreases b.len(),
{
    if b.len() == 0 {
        assert(b.push(v).drop_first() =~= Seq::<u8>::empty());
        assert(b.push(v)[0] == v);
        assert(b.push(v).len() == 1);
        assert(spec_hex_encode(Seq::<u8>::empty()) =~= Seq::<char>::empty());
        assert(spec_hex_encode(b.push(v).drop_first()) =~= Seq::<char>::empty());
        assert(spec_hex_encode(b.push(v)) =~= seq![
            hex_digit_char((v / 16) as u8),
            hex_digit_char((v % 16) as u8),
        ]);
        assert(spec_hex_encode(b) + seq![
            hex_digit_char((v / 16) as u8),
            hex_digit_char((v % 16) as u8),
        ] =~= seq![hex_digit_char((v / 16) as u8), hex_digit_char((v % 16) as u8)]);
    } else {
        lemma_hex_encode_snoc(b.drop_first(), v);
        assert(b.push(v).drop_first() =~= b.drop_first().push(v));
        assert(b.push(v)[0] == b[0]);
        assert(spec_hex_encode(b.push(v)) =~= spec_hex_encode(b) + seq![
            hex_digit_char((v / 16) as u8),
            hex_digit_char((v % 16) as u8),
        ]);
    }
}

/// Parse a UUID text: empty gives the all-zero UUID, otherwise the
/// canonical hyphenated form is required.
pub fn uuid_parse(s: &str) -> (r: Option<Vec<u8>>)
    ensures
        match r {
            Some(v) => spec_uuid_parse(s@) == Some(v@) && v@.len() == 16,
            None => spec_uuid_parse(s@) is None,
        },
{
    let n = s.unicode_len();
    if n == 0 {
        let mut z: Vec<u8> = Vec::new();
        let mut i: usize = 0;
        while i < 16
            invariant
                i <= 16,
                z@ =~= spec_zero_uuid().take(i as int),
            decreases 16 - i,
        {
            z.push(0u8);
            i = i + 1;
        }
        proof {
            assert(z@ =~= spec_zero_uuid());
        }
        return Some(z);
    }
    if n != 36 {
        return None;
    }
    if s.get_char(8) != '-' || s.get_char(13) != '-' || s.get_char(18) != '-' || s.get_char(23)
        != '-' {
        return None;
    }
    let mut h = String::new();
    h.append(s.substring_char(0, 8));
    h.append(s.substring_char(9, 13));
    h.append(s.substring_char(14, 18));
    h.append(s.substring_char(19, 23));
    h.append(s.substring_char(24, 36));
    let ghost stripped = s@.subrange(0, 8) + s@.subrange(9, 13) + s@.subrange(14, 18)
        + s@.subrange(19, 23) + s@.subrange(24, 36);
    proof {
        assert(h@ =~= stripped);
    }
    match hex_decode(h.as_str()) {
        Some(v) => {
            proof {
                lemma_hex_decode_len(stripped, v@);
            }
            Some(v)
        },
        None => None,
    }
}

/// A successful base16 decode yields half as many bytes as digits.
pub proof fn lemma_hex_decode_len(s: Seq<char>, b: Seq<u8>)
    requires
        spec_hex_decode(s) == Some(b),
    ensures
        b.len() * 2 == s.len(),
    decreases s.len(),
{
    if s.len() > 0 {
        let rest = spec_hex_decode(s.skip(2));
        lemma_hex_decode_len(s.skip(2), rest.unwrap());
    }
}

/// UUID parsing inverts UUID formatting.
pub proof fn lemma_uuid_parse_format(b: Seq<u8>)
    requires
        b.len() == 16,
    ensures
        spec_uuid_parse(spec_uuid_text(b)) == Some(b),
{
    let h = spec_hex_encode(b);
    lemma_hex_encode_len(b);
    let s = spec_uuid_text(b);
    assert(s.len() == 36);
    assert(s[8] == '-' && s[13] == '-' && s[18] == '-' && s[23] == '-');
    let stripped = s.subrange(0, 8) + s.subrange(9, 13) + s.subrange(14, 18) + s.subrange(19, 23)
        + s.subrange(24, 36);
    assert(stripped =~= h);
    lemma_hex_decode_encode(b);
}

/// ASCII whitespace, as the ascii85 decoder filters it.
pub open spec fn a85_ws(c: char) -> bool {
    c == ' ' || c == '\t' || c == '\n' || c == '\r' || c == '\x0c'
}

/// A bare base-85 digit: `!` (33) through `u` (117).
pub open spec fn a85_digit(c: char) -> bool {
    33 <= (c as u32) <= 117
}

/// Every character is a bare base-85 digit.  On such text the ascii85
/// crate's own trimming and whitespace filtering are no-ops, so the digit
/// stream it accumulates is exactly these characters.
pub open spec fn a85_plain(s: Seq<char>) -> bool {
    forall|i: int| 0 <= i < s.len() ==> a85_digit(#[trigger] s[i])
}

/// The value of the five-digit group starting at `i`, missing digits padded
/// with `u` as the decoder pads a final partial group.
pub open spec fn a85_group_val(s: Seq<char>, i: int) -> int {
    let d0: int = if i < s.len() {
        (s[i] as u32) - 33
    } else {
        84
    };
    let d1: int = if i + 1 < s.len() {
        (s[i + 1] as u32) - 33
    } else {
        84
    };
    let d2: int = if i + 2 < s.len() {
        (s[i + 2] as u32) - 33
    } else {
        84
    };
    let d3: int = if i + 3 < s.len() {
        (s[i + 3] as u32) - 33
    } else {
        84
    };
    let d4: int = if i + 4 < s.len() {
        (s[i + 4] as u32) - 33
    } else {
        84
    };
    d0 * 52200625 + d1 * 614125 + d2 * 7225 + d3 * 85 + d4
}

/// The text can be handed to the ascii85 decoder without risking its
/// unchecked 32-bit group accumulation: every character is a bare digit
/// (so the crate's trims and filters change nothing) and every padded
/// five-digit group fits 32 bits.
pub open spec fn a85_call_safe(s: Seq<char>) -> bool {
    a85_plain(s) && forall|i: int|
        0 <= i < s.len() && i % 5 == 0 ==> #[trigger] a85_group_val(s, i) <= 0xFFFF_FFFF
}

/// The text without its ASCII whitespace characters.
pub open spec fn a85_filter_ws(s: Seq<char>) -> Seq<char>
    decreases s.len(),
{
    if s.len() == 0 {
        Seq::empty()
    } else if a85_ws(s[0]) {
        a85_filter_ws(s.drop_first())
    } else {
        seq![s[0]] + a85_filter_ws(s.drop_first())
    }
}

/// Leading `<~` marker pairs stripped.
pub open spec fn a85_strip_lead(s: Seq<char>) -> Seq<char>
    decreases s.len(),
{
    if s.len() >= 2 && s[0] == '<' && s[1] == '~' {
        a85_strip_lead(s.skip(2))
    } else {
        s
    }
}

/// Trailing `~>` marker pairs stripped.
pub open spec fn a85_strip_trail(s: Seq<char>) -> Seq<char>
    decreases s.len(),
{
    if s.len() >= 2 && s[s.len() - 1] == '>' && s[s.len() - 2] == '~' {
        a85_strip_trail(s.take(s.len() - 2))
    } else {
        s
    }
}

/// The cleaned payload handed to the ascii85 decoder: whitespace dropped,
/// then any `<~` prefix and `~>` suffix pairs stripped.
pub open spec fn a85_clean(s: Seq<char>) -> Seq<char> {
    a85_strip_trail(a85_strip_lead(a85_filter_ws(s)))
}

/// Whitespace filtering distributes over appending one character.
proof fn lemma_a85_filter_push(s: Seq<char>, c: char)
    ensures
        a85_filter_ws(s.push(c)) == a85_filter_ws(s) + (if a85_ws(c) {
            Seq::<char>::empty()
        } else {
            seq![c]
        }),
    decreases s.len(),
{
    let tail: Seq<char> = if a85_ws(c) {
        Seq::empty()
    } else {
        seq![c]
    };
    if s.len() == 0 {
        assert(s.push(c).drop_first() =~= Seq::<char>::empty());
        assert(s.push(c)[0] == c);
        assert(a85_filter_ws(Seq::<char>::empty()) =~= Seq::<char>::empty());
        assert(a85_filter_ws(s.push(c)) =~= tail);
        assert(a85_filter_ws(s) + tail =~= tail);
    } else {
        lemma_a85_filter_push(s.drop_first(), c);
        assert(s.push(c).drop_first() =~= s.drop_first().push(c));
        assert(s.push(c)[0] == s[0]);
        if a85_ws(s[0]) {
            assert(a85_filter_ws(s.push(c)) == a85_filter_ws(s.drop_first()) + tail);
        } else {
            assert(a85_filter_ws(s.push(c)) == seq![s[0]] + (a85_filter_ws(s.drop_first())
                + tail));
            assert(seq![s[0]] + (a85_filter_ws(s.drop_first()) + tail) =~= (seq![s[0]]
                + a85_filter_ws(s.drop_first())) + tail);
        }
    }
}

/// Decode an ascii85 payload: ASCII whitespace is dropped and `<~`/`~>`
/// wrapper pairs are stripped, then the bare digits go to the ascii85
/// crate.  Text whose characters leave the base-85 digit range, or whose
/// five-digit groups exceed 32 bits (where the crate's accumulation is
/// unchecked), is rejected here instead.
pub fn b85_decode(s: &str) -> (r: Option<Vec<u8>>)
    ensures
        r matches Some(v) ==> a85_call_safe(a85_clean(s@)) && a85_bytes_of(a85_clean(s@)) == Some(
            v@,
        ),
        r is None ==> !a85_call_safe(a85_clean(s@)) || a85_bytes_of(a85_clean(s@)) is None,
{
    let n = s.unicode_len();
    // drop whitespace
    let mut f: Vec<char> = Vec::new();
    let mut i: usize = 0;
    proof {
        assert(s@.take(0) =~= Seq::<char>::empty());
        assert(a85_filter_ws(s@.take(0)) =~= Seq::<char>::empty());
    }
    while i < n
        invariant
            i <= n,
            n == s@.len(),
            f@ == a85_filter_ws(s@.take(i as int)),
        decreases n - i,
    {
        let c = s.get_char(i);
        proof {
            lemma_a85_filter_push(s@.take(i as int), s@[i as int]);
            assert(s@.take(i + 1) =~= s@.take(i as int).push(s@[i as int]));
        }
        if !(c == ' ' || c == '\t' || c == '\n' || c == '\r' || c == '\x0c') {
            f.push(c);
        }
        proof {
            assert(f@ =~= a85_filter_ws(s@.take(i + 1)));
        }
        i = i + 1;
    }
    proof {
        assert(s@.take(n as int) =~= s@);
    }
    // strip leading marker pairs over the whole filtered text
    let fl = f.len();
    let mut lo: usize = 0;
    proof {
        assert(f@.skip(0) =~= f@);
    }
    while fl - lo >= 2 && f[lo] == '<' && f[lo + 1] == '~'
        invariant
            lo <= fl,
            fl == f@.len(),
            a85_strip_lead(f@) == a85_strip_lead(f@.skip(lo as int)),
        decreases fl - lo,
    {
        proof {
            assert(f@.skip(lo as int)[0] == f@[lo as int]);
            assert(f@.skip(lo as int)[1] == f@[lo as int + 1]);
            assert(f@.skip(lo as int).skip(2) =~= f@.skip(lo as int + 2));
        }
        lo = lo + 2;
    }
    proof {
        let rem = f@.skip(lo as int);
        if rem.len() >= 2 {
            assert(rem[0] == f@[lo as int] && rem[1] == f@[lo as int + 1]);
        }
        assert(a85_strip_lead(f@) == rem);
    }
    let ghost mid = f@.skip(lo as int);
    // strip trailing marker pairs
    let mut hi: usize = fl;
    proof {
        assert(mid.take(fl - lo) =~= mid);
    }
    while hi - lo >= 2 && f[hi - 1] == '>' && f[hi - 2] == '~'
        invariant
            lo <= hi <= fl,
            fl == f@.len(),
            mid == f@.skip(lo as int),
            a85_strip_trail(mid) == a85_strip_trail(mid.take(hi - lo)),
        decreases hi,
    {
        proof {
            let k = hi - lo;
            assert(mid.take(k as int)[k - 1] == f@[hi - 1]);
            assert(mid.take(k as int)[k - 2] == f@[hi - 2]);
            assert(mid.take(k as int).take(k - 2) =~= mid.take(k as int - 2));
        }
        hi = hi - 2;
    }
    proof {
        let k = hi - lo;
        let rem = mid.take(k as int);
        if rem.len() >= 2 {
            assert(rem[rem.len() - 1] == f@[hi - 1]);
            assert(rem[rem.len() - 2] == f@[hi - 2]);
        }
        assert(a85_strip_trail(mid) == rem);
        assert(a85_clean(s@) == rem);
    }
    // the cleaned digits
    let mut cs = String::new();
    let mut j: usize = lo;
    while j < hi
        invariant
            lo <= j <= hi <= fl,
            fl == f@.len(),
            mid == f@.skip(lo as int),
            cs@ == mid.take(hi - lo).take(j - lo),
        decreases hi - j,
    {
        crate::outside::push_char(&mut cs, f[j]);
        proof {
            assert(mid.take(hi - lo).take(j + 1 - lo) =~= mid.take(hi - lo).take(j - lo).push(
                f@[j as int],
            ));
        }
        j = j + 1;
    }
    proof {
        assert(cs@ =~= mid.take(hi - lo));
        assert(cs@ == a85_clean(s@));
    }
    // every character must be a bare base-85 digit
    let m = hi - lo;
    let mut q: usize = 0;
    while q < m
        invariant
            q <= m,
            m == cs@.len(),
            cs@ == a85_clean(s@),
            forall|p: int| 0 <= p < q ==> a85_digit(#[trigger] cs@[p]),
        decreases m - q,
    {
        let cv = cs.get_char(q) as u32;
        if cv < 33 || cv > 117 {
            assert(!a85_digit(cs@[q as int]));
            assert(!a85_plain(cs@));
            return None;
        }
        q = q + 1;
    }
    // every padded five-digit group must fit 32 bits
    let mut g: usize = 0;
    while g < m
        invariant
            g <= m + 4,
            g % 5 == 0,
            m == cs@.len(),
            cs@ == a85_clean(s@),
            a85_plain(cs@),
            forall|p: int|
                0 <= p < g && p % 5 == 0 ==> #[trigger] a85_group_val(cs@, p) <= 0xFFFF_FFFF,
        decreases m + 5 - g,
    {
        let d0 = (cs.get_char(g) as u32 - 33) as u64;
        let d1 = if g + 1 < m {
            (cs.get_char(g + 1) as u32 - 33) as u64
        } else {
            84
        };
        let d2 = if g + 2 < m {
            (cs.get_char(g + 2) as u32 - 33) as u64
        } else {
            84
        };
        let d3 = if g + 3 < m {
            (cs.get_char(g + 3) as u32 - 33) as u64
        } else {
            84
        };
        let d4 = if g + 4 < m {
            (cs.get_char(g + 4) as u32 - 33) as u64
        } else {
            84
        };
        let val: u64 = d0 * 52200625 + d1 * 614125 + d2 * 7225 + d3 * 85 + d4;
        proof {
            assert(val as int == a85_group_val(cs@, g as int));
        }
        if val > 0xFFFF_FFFF {
            assert(!a85_call_safe(cs@));
            return None;
        }
        g = g + 5;
    }
    proof {
        assert forall|p: int|
            0 <= p < cs@.len() && p % 5 == 0 implies #[trigger] a85_group_val(cs@, p)
            <= 0xFFFF_FFFF by {
            assert(p < g);
        }
        assert(a85_call_safe(cs@));
    }
    crate::outside::ascii85_decode(cs.as_str())
}

} // verus!