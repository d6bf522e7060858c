//! Trusted boundary to the outside crates and to the few std functions that
//! vstd gives no specification: UTF-8 conversion, the base64 and base16
//! sub-codecs, and the calendar utility.
//!
//! Each wrapper's contract states only what the called function's source or
//! documentation plainly gives; results that have no short description are
//! given names (`base64_text_of`, `date_text_of`, ...) that the callers'
//! contracts then use exactly.

use vstd::prelude::*;

verus! {

use vstd::utf8::{valid_utf8, encode_utf8};

use crate::textnum::{spec_hex_decode, a85_call_safe};

/// Every character is printable ASCII that needs no markup escaping and is
/// not whitespace: what a leaf token may contain so that the text codec can
/// embed it verbatim between tags.
pub open spec fn text_token(s: Seq<char>) -> bool {
    forall|i: int|
        0 <= i < s.len() ==> {
            let c = #[trigger] s[i];
            c != ' ' && c != '\t' && c != '\n' && c != '\r' && c != '<' && c != '>' && c != '&'
                && c != '\'' && c != '"'
        }
}

/// Relies on std::str::from_utf8: returns a string exactly when the bytes
/// are valid UTF-8, and that string's UTF-8 bytes are the input.
#[verifier::external_body]
pub(crate) fn utf8_to_str(b: &[u8]) -> (r: Option<&str>)
    ensures
        match r {
            Some(s) => valid_utf8(b@) && s@ == vstd::utf8::decode_utf8(b@) && encode_utf8(s@)
                == b@,
            None => !valid_utf8(b@),
        },
{
    std::str::from_utf8(b).ok()
}

/// Relies on String::push: appends exactly one character.
#[verifier::external_body]
pub(crate) fn push_char(s: &mut String, c: char)
    ensures
        final(s)@ == old(s)@.push(c),
{
    s.push(c);
}

/// What base64 (standard alphabet, padded) encoding of a byte sequence
/// reads as.
pub uninterp spec fn base64_text_of(b: Seq<u8>) -> Seq<char>;

/// What base64 (standard alphabet, padded) decoding yields for a character
/// sequence, `None` on malformed input.
pub uninterp spec fn base64_bytes_of(s: Seq<char>) -> Option<Seq<u8>>;

/// Relies on base64's STANDARD engine `encode`: the output is a function of
/// the input bytes alone; decoding it with the same engine yields the input
/// back; it is made of alphabet and pad characters only (so neither
/// whitespace nor markup), and it is empty exactly for empty input.
#[verifier::external_body]
pub(crate) fn base64_encode(b: &Vec<u8>) -> (r: String)
    ensures
        r@ == base64_text_of(b@),
        base64_bytes_of(r@) == Some(b@),
        text_token(r@),
        (r@.len() == 0) == (b@.len() == 0),
{
    base64::engine::Engine::encode(&base64::engine::general_purpose::STANDARD, b)
}

/// Relies on base64's STANDARD engine `decode`: success and result are a
/// function of the input characters alone.
#[verifier::external_body]
pub(crate) fn base64_decode(s: &str) -> (r: Option<Vec<u8>>)
    ensures
        match r {
            Some(v) => base64_bytes_of(s@) == Some(v@),
            None => base64_bytes_of(s@) is None,
        },
{
    base64::engine::Engine::decode(&base64::engine::general_purpose::STANDARD, s).ok()
}

/// Relies on hex::decode: accepts exactly an even number of hex digits
/// (either case) and maps each pair to one byte, as `spec_hex_decode` says.
#[verifier::external_body]
pub(crate) fn hex_decode(s: &str) -> (r: Option<Vec<u8>>)
    ensures
        match r {
            Some(v) => spec_hex_decode(s@) == Some(v@),
            None => spec_hex_decode(s@) is None,
        },
{
    hex::decode(s).ok()
}

/// What ascii85 decoding yields for a character sequence, `None` on
/// malformed input.
pub uninterp spec fn a85_bytes_of(s: Seq<char>) -> Option<Seq<u8>>;

/// Relies on ascii85::decode: success and result are a function of the
/// input characters alone.  The crate's five-digit group accumulation is
/// unchecked 32-bit arithmetic, so the caller first establishes
/// `a85_call_safe`: every character is a bare base-85 digit (making the
/// crate's own trimming and whitespace filtering no-ops) and no padded
/// group exceeds 32 bits.
#[verifier::external_body]
pub(crate) fn ascii85_decode(s: &str) -> (r: Option<Vec<u8>>)
    requires
        a85_call_safe(s@),
    ensures
        match r {
            Some(v) => a85_bytes_of(s@) == Some(v@),
            None => a85_bytes_of(s@) is None,
        },
{
    ascii85::decode(s).ok()
}

/// What the calendar utility prints for a second count: an RFC 3339 UTC
/// timestamp with second precision.
pub uninterp spec fn date_text_of(secs: i64) -> Seq<char>;

/// What the calendar utility reads an RFC 3339 timestamp as, truncated to
/// whole seconds; `None` on malformed input.
pub uninterp spec fn date_secs_of(s: Seq<char>) -> Option<i64>;

/// Relies on chrono's `DateTime::from_timestamp` and `to_rfc3339_opts`
/// (UTC, second precision): the text is a function of the seconds alone and
/// holds only digits and date/time punctuation; for seconds whose year has
/// four digits (0000-01-01 through 9999-12-31) formatting succeeds and
/// `parse_from_rfc3339` reads the text back to the same count.
#[verifier::external_body]
pub(crate) fn date_format(secs: i64) -> (r: Option<String>)
    ensures
        match r {
            Some(s) => s@ == date_text_of(secs) && text_token(s@) && s@.len() > 0,
            None => true,
        },
        (-62167219200 <= secs <= 253402300799) ==> r is Some,
        r is Some && (-62167219200 <= secs <= 253402300799) ==> date_secs_of(date_text_of(secs))
            == Some(secs),
{
    chrono::DateTime::<chrono::Utc>::from_timestamp(secs, 0).map(
        |dt| dt.to_rfc3339_opts(chrono::SecondsFormat::Secs, true),
    )
}

/// Relies on chrono's `DateTime::parse_from_rfc3339` and `timestamp`:
/// success and the second count (fractional seconds truncated) are a
/// function of the input characters alone.
#[verifier::external_body]
pub(crate) fn date_parse(s: &str) -> (r: Option<i64>)
    ensures
        r == date_secs_of(s@),
{
    chrono::DateTime::parse_from_rfc3339(s).ok().map(|dt| dt.timestamp())
}

} // verus!
