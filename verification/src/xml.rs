//! The XML text codec: a document is an `<?xml ...?>` declaration, one
//! `<llsd>` wrapper element, and inside it exactly one typed element per
//! value, with `map` holding `key`/value pairs and `array` holding a plain
//! sequence of elements.  A pull lexer turns the text into start, end and
//! text events (comments and processing instructions are skipped, entity
//! references decoded, whitespace-only text dropped), and a recursive
//! descent parser that tracks the open tag explicitly consumes them.

use vstd::prelude::*;

verus! {

broadcast use vstd::std_specs::vec::group_vec_axioms, vstd::seq::group_seq_axioms;

use crate::{LLSDValue, SpecValue, wf, wf_pairs, wf_seq, keys_unique, model, model_pairs, model_seq,
    lemma_model_seq_push};
use crate::err::{LLSDError, ErrClass};
use crate::binary::{MAX_NESTING_DEPTH, map_insert, lemma_assoc_set_unique,
    lemma_assoc_set_wf_pairs, lemma_wf_seq_push};
use crate::outside::{push_char, base64_encode, base64_decode, hex_decode, date_format, date_parse,
    date_secs_of, base64_bytes_of, base64_text_of, date_text_of, a85_bytes_of, text_token};
use crate::textnum::{spec_hex_decode, spec_uuid_parse, spec_parse_i32, spec_i32_text,
    spec_uuid_text, format_i32, format_i64, parse_i32, uuid_parse, uuid_format, b85_decode,
    a85_clean, a85_call_safe};
use crate::realtext::{format_real, parse_real, spec_real_accepted, is_nan_token, is_nan_bits,
    CANONICAL_NAN_BITS};

/// How one character reads after markup escaping: the five entity-escaped
/// characters become their entity references, every other character stays.
pub open spec fn escape_char(c: char) -> Seq<char> {
    if c == '<' {
        seq!['&', 'l', 't', ';']
    } else if c == '>' {
        seq!['&', 'g', 't', ';']
    } else if c == '&' {
        seq!['&', 'a', 'm', 'p', ';']
    } else if c == '\'' {
        seq!['&', 'a', 'p', 'o', 's', ';']
    } else if c == '"' {
        seq!['&', 'q', 'u', 'o', 't', ';']
    } else {
        seq![c]
    }
}

/// The markup-escaped form of a text: each character escaped in place.
pub open spec fn spec_escape(s: Seq<char>) -> Seq<char>
    decreases s.len(),
{
    if s.len() == 0 {
        Seq::empty()
    } else {
        escape_char(s[0]) + spec_escape(s.drop_first())
    }
}

/// Escaping distributes over appending one character.
proof fn lemma_spec_escape_push(s: Seq<char>, c: char)
    ensures
        spec_escape(s.push(c)) == spec_escape(s) + escape_char(c),
    decreases s.len(),
{
    if s.len() == 0 {
        assert(s.push(c).drop_first() =~= Seq::<char>::empty());
        assert(s.push(c)[0] == c);
        assert(spec_escape(Seq::<char>::empty()) =~= Seq::<char>::empty());
        assert(spec_escape(s.push(c)) =~= escape_char(c));
        assert(spec_escape(s) + escape_char(c) =~= escape_char(c));
    } else {
        lemma_spec_escape_push(s.drop_first(), c);
        assert(s.push(c).drop_first() =~= s.drop_first().push(c));
        assert(s.push(c)[0] == s[0]);
        assert(spec_escape(s.push(c)) == escape_char(s[0]) + (spec_escape(s.drop_first())
            + escape_char(c)));
        assert(spec_escape(s) == escape_char(s[0]) + spec_escape(s.drop_first()));
        assert(escape_char(s[0]) + (spec_escape(s.drop_first()) + escape_char(c)) =~= (escape_char(
            s[0],
        ) + spec_escape(s.drop_first())) + escape_char(c));
    }
}

/// XML standard character escapes: `<`, `>`, `&`, `'` and `"` become their
/// entity references, all other characters pass through unchanged.
pub fn xml_escape(unescaped: &str) -> (r: String)
    ensures
        r@ == spec_escape(unescaped@),
{
    let n = unescaped.unicode_len();
    let mut out = String::new();
    let mut i: usize = 0;
    proof {
        assert(unescaped@.take(0) =~= Seq::<char>::empty());
        assert(spec_escape(unescaped@.take(0)) =~= Seq::<char>::empty());
    }
    while i < n
        invariant
            i <= n,
            n == unescaped@.len(),
            out@ == spec_escape(unescaped@.take(i as int)),
        decreases n - i,
    {
        let c = unescaped.get_char(i);
        if c == '<' {
            out.append("&lt;");
            proof {
                reveal_strlit("&lt;");
            }
        } else if c == '>' {
            out.append("&gt;");
            proof {
                reveal_strlit("&gt;");
            }
        } else if c == '&' {
            out.append("&amp;");
            proof {
                reveal_strlit("&amp;");
            }
        } else if c == '\'' {
            out.append("&apos;");
            proof {
                reveal_strlit("&apos;");
            }
        } else if c == '"' {
            out.append("&quot;");
            proof {
                reveal_strlit("&quot;");
            }
        } else {
            push_char(&mut out, c);
        }
        proof {
            lemma_spec_escape_push(unescaped@.take(i as int), unescaped@[i as int]);
            assert(unescaped@.take(i + 1) =~= unescaped@.take(i as int).push(unescaped@[i as int]));
            assert(out@ =~= spec_escape(unescaped@.take(i + 1)));
        }
        i = i + 1;
    }
    proof {
        assert(unescaped@.take(n as int) =~= unescaped@);
    }
    out
}

/// One reader event at the specification level.
pub enum SpecEvent {
    /// A start tag: name, the `encoding` attribute if present, and whether
    /// the element was self-closing.
    Start(Seq<char>, Option<Seq<char>>, bool),
    /// An end tag.
    End(Seq<char>),
    /// A run of non-whitespace text, entities decoded, ends trimmed.
    Text(Seq<char>),
    /// End of the document.
    Eof,
}

/// ASCII whitespace as the reader trims and skips it.
pub open spec fn is_ws_char(c: char) -> bool {
    c == ' ' || c == '\t' || c == '\n' || c == '\r'
}

/// A character that ends an element or attribute name.
pub open spec fn is_name_stop(c: char) -> bool {
    is_ws_char(c) || c == '>' || c == '/' || c == '=' || c == '<'
}

/// Where the name starting at `i` ends: the first stop character or the
/// end of the text.
pub open spec fn spec_name_end(s: Seq<char>, i: int) -> int
    decreases s.len() - i,
{
    if 0 <= i < s.len() && !is_name_stop(s[i]) {
        spec_name_end(s, i + 1)
    } else {
        i
    }
}

/// End of trailing whitespace scanned down from `j`, not below `a`.
pub open spec fn spec_rtrim(t: Seq<char>, j: int, a: int) -> int
    decreases j,
{
    if j > a && 0 <= j - 1 < t.len() && is_ws_char(t[j - 1]) {
        spec_rtrim(t, j - 1, a)
    } else {
        j
    }
}

/// The text with leading and trailing ASCII whitespace removed.
pub open spec fn spec_trim(t: Seq<char>) -> Seq<char> {
    let a = crate::spec_skip_ws(t, 0);
    let b = spec_rtrim(t, t.len() as int, a);
    t.subrange(a, b)
}

/// The first `;` at or after `i`, within six characters; -1 when none.
pub open spec fn spec_semi(s: Seq<char>, i: int, k: int) -> int
    decreases 6 - k,
{
    if k >= 6 || !(0 <= i < s.len()) {
        -1
    } else if s[i] == ';' {
        i
    } else {
        spec_semi(s, i + 1, k + 1)
    }
}

/// The entity reference starting just after an `&` at `i`: one of the five
/// standard names up to the closing `;`, its character and the position
/// after; anything else is rejected.
pub open spec fn spec_entity(s: Seq<char>, i: int) -> Result<(char, int), ErrClass> {
    let j = spec_semi(s, i, 0);
    if j < 0 {
        Err(ErrClass::InvalidEncoding)
    } else {
        let name = s.subrange(i, j);
        if name == seq!['l', 't'] {
            Ok(('<', j + 1))
        } else if name == seq!['g', 't'] {
            Ok(('>', j + 1))
        } else if name == seq!['a', 'm', 'p'] {
            Ok(('&', j + 1))
        } else if name == seq!['a', 'p', 'o', 's'] {
            Ok(('\'', j + 1))
        } else if name == seq!['q', 'u', 'o', 't'] {
            Ok(('"', j + 1))
        } else {
            Err(ErrClass::InvalidEncoding)
        }
    }
}

/// Position after the `?>` closing a processing instruction; -1 when none.
pub open spec fn spec_pi_end(s: Seq<char>, i: int) -> int
    decreases s.len() - i,
{
    if !(0 <= i) || i + 1 >= s.len() {
        -1
    } else if s[i] == '?' && s[i + 1] == '>' {
        i + 2
    } else {
        spec_pi_end(s, i + 1)
    }
}

/// Position after the `-->` closing a comment; -1 when none.
pub open spec fn spec_comment_end(s: Seq<char>, i: int) -> int
    decreases s.len() - i,
{
    if !(0 <= i) || i + 2 >= s.len() {
        -1
    } else if s[i] == '-' && s[i + 1] == '-' && s[i + 2] == '>' {
        i + 3
    } else {
        spec_comment_end(s, i + 1)
    }
}

proof fn lemma_pi_end_bounds(s: Seq<char>, i: int)
    ensures
        spec_pi_end(s, i) == -1 || (i + 2 <= spec_pi_end(s, i) <= s.len()),
    decreases s.len() - i,
{
    if 0 <= i && i + 1 < s.len() && !(s[i] == '?' && s[i + 1] == '>') {
        lemma_pi_end_bounds(s, i + 1);
    }
}

proof fn lemma_comment_end_bounds(s: Seq<char>, i: int)
    ensures
        spec_comment_end(s, i) == -1 || (i + 3 <= spec_comment_end(s, i) <= s.len()),
    decreases s.len() - i,
{
    if 0 <= i && i + 2 < s.len() && !(s[i] == '-' && s[i + 1] == '-' && s[i + 2] == '>') {
        lemma_comment_end_bounds(s, i + 1);
    }
}

proof fn lemma_semi_bounds(s: Seq<char>, i: int, k: int)
    ensures
        spec_semi(s, i, k) == -1 || (i <= spec_semi(s, i, k) < s.len()),
    decreases 6 - k,
{
    if !(k >= 6 || !(0 <= i < s.len())) && s[i] != ';' {
        lemma_semi_bounds(s, i + 1, k + 1);
    }
}

proof fn lemma_skip_ws_bounds(s: Seq<char>, i: int)
    ensures
        i <= crate::spec_skip_ws(s, i) <= s.len() || crate::spec_skip_ws(s, i) == i,
    decreases s.len() - i,
{
    if 0 <= i < s.len() && is_ws_char(s[i]) {
        lemma_skip_ws_bounds(s, i + 1);
    }
}

proof fn lemma_name_end_bounds(s: Seq<char>, i: int)
    ensures
        i <= spec_name_end(s, i) <= s.len() || spec_name_end(s, i) == i,
    decreases s.len() - i,
{
    if 0 <= i < s.len() && !is_name_stop(s[i]) {
        lemma_name_end_bounds(s, i + 1);
    }
}

/// The text run from `i` up to the next `<` or the end of input, entity
/// references decoded.
pub open spec fn spec_text_run(s: Seq<char>, i: int) -> Result<(Seq<char>, int), ErrClass>
    decreases s.len() - i,
    via via_text_run
{
    if !(0 <= i < s.len()) {
        Ok((Seq::empty(), i))
    } else if s[i] == '<' {
        Ok((Seq::empty(), i))
    } else if s[i] == '&' {
        match spec_entity(s, i + 1) {
            Ok((c, j)) => match spec_text_run(s, j) {
                Ok((t, e)) => Ok((seq![c] + t, e)),
                Err(x) => Err(x),
            },
            Err(x) => Err(x),
        }
    } else {
        match spec_text_run(s, i + 1) {
            Ok((t, e)) => Ok((seq![s[i]] + t, e)),
            Err(x) => Err(x),
        }
    }
}

#[via_fn]
proof fn via_text_run(s: Seq<char>, i: int) {
    if 0 <= i < s.len() && s[i] != '<' && s[i] == '&' {
        lemma_semi_bounds(s, i + 1, 0);
    }
}

/// Every position a successful text run stops at lies in the text.
proof fn lemma_text_run_bounds(s: Seq<char>, i: int)
    requires
        0 <= i <= s.len(),
    ensures
        spec_text_run(s, i) matches Ok((t, e)) ==> i <= e <= s.len(),
    decreases s.len() - i,
{
    if 0 <= i < s.len() && s[i] != '<' {
        if s[i] == '&' {
            lemma_semi_bounds(s, i + 1, 0);
            match spec_entity(s, i + 1) {
                Ok((c, j)) => {
                    lemma_text_run_bounds(s, j);
                },
                Err(_) => {},
            }
        } else {
            lemma_text_run_bounds(s, i + 1);
        }
    }
}

/// An attribute value from `i` up to the closing quote, entity references
/// decoded; end of input inside the value is a truncation error.
pub open spec fn spec_attr_value(s: Seq<char>, i: int, q: char) -> Result<
    (Seq<char>, int),
    ErrClass,
>
    decreases s.len() - i,
    via via_attr_value
{
    if !(0 <= i < s.len()) {
        Err(ErrClass::TruncatedInput)
    } else if s[i] == q {
        Ok((Seq::empty(), i + 1))
    } else if s[i] == '&' {
        match spec_entity(s, i + 1) {
            Ok((c, j)) => match spec_attr_value(s, j, q) {
                Ok((t, e)) => Ok((seq![c] + t, e)),
                Err(x) => Err(x),
            },
            Err(x) => Err(x),
        }
    } else {
        match spec_attr_value(s, i + 1, q) {
            Ok((t, e)) => Ok((seq![s[i]] + t, e)),
            Err(x) => Err(x),
        }
    }
}

#[via_fn]
proof fn via_attr_value(s: Seq<char>, i: int, q: char) {
    if 0 <= i < s.len() && s[i] != q && s[i] == '&' {
        lemma_semi_bounds(s, i + 1, 0);
    }
}

/// Every position a successful attribute value stops at lies in the text.
proof fn lemma_attr_value_bounds(s: Seq<char>, i: int, q: char)
    ensures
        spec_attr_value(s, i, q) matches Ok((t, e)) ==> i < e <= s.len(),
    decreases s.len() - i,
{
    if 0 <= i < s.len() && s[i] != q {
        if s[i] == '&' {
            lemma_semi_bounds(s, i + 1, 0);
            match spec_entity(s, i + 1) {
                Ok((c, j)) => {
                    lemma_attr_value_bounds(s, j, q);
                },
                Err(_) => {},
            }
        } else {
            lemma_attr_value_bounds(s, i + 1, q);
        }
    }
}

/// The attribute list from `i` up to the tag's closing bracket: returns the
/// `encoding` attribute's value if one was seen, whether the tag was
/// self-closing, and the position after the bracket.
pub open spec fn spec_attrs(s: Seq<char>, i: int, enc: Option<Seq<char>>) -> Result<
    (Option<Seq<char>>, bool, int),
    ErrClass,
>
    decreases s.len() - i,
    via via_attrs
{
    if !(0 <= i <= s.len()) {
        Err(ErrClass::TruncatedInput)
    } else {
        let w = crate::spec_skip_ws(s, i);
        if w >= s.len() {
            Err(ErrClass::TruncatedInput)
        } else if s[w] == '>' {
            Ok((enc, false, w + 1))
        } else if s[w] == '/' {
            if w + 1 < s.len() && s[w + 1] == '>' {
                Ok((enc, true, w + 2))
            } else {
                Err(ErrClass::UnknownElementName)
            }
        } else {
            let ne = spec_name_end(s, w);
            if ne == w {
                Err(ErrClass::UnknownElementName)
            } else {
                let aname = s.subrange(w, ne);
                let w2 = crate::spec_skip_ws(s, ne);
                if w2 >= s.len() || s[w2] != '=' {
                    Err(ErrClass::UnknownElementName)
                } else {
                    let w3 = crate::spec_skip_ws(s, w2 + 1);
                    if w3 >= s.len() {
                        Err(ErrClass::TruncatedInput)
                    } else {
                        let q = s[w3];
                        if q != '"' && q != '\'' {
                            Err(ErrClass::UnknownElementName)
                        } else {
                            match spec_attr_value(s, w3 + 1, q) {
                                Ok((val, p)) => spec_attrs(
                                    s,
                                    p,
                                    if aname == "encoding"@ {
                                        Some(val)
                                    } else {
                                        enc
                                    },
                                ),
                                Err(x) => Err(x),
                            }
                        }
                    }
                }
            }
        }
    }
}

#[via_fn]
proof fn via_attrs(s: Seq<char>, i: int, enc: Option<Seq<char>>) {
    if 0 <= i <= s.len() {
        lemma_skip_ws_bounds(s, i);
        let w = crate::spec_skip_ws(s, i);
        if w < s.len() && s[w] != '>' && s[w] != '/' {
            lemma_name_end_bounds(s, w);
            let ne = spec_name_end(s, w);
            if ne != w {
                lemma_skip_ws_bounds(s, ne);
                let w2 = crate::spec_skip_ws(s, ne);
                if w2 < s.len() && s[w2] == '=' {
                    lemma_skip_ws_bounds(s, w2 + 1);
                    let w3 = crate::spec_skip_ws(s, w2 + 1);
                    if w3 < s.len() {
                        lemma_attr_value_bounds(s, w3 + 1, s[w3]);
                    }
                }
            }
        }
    }
}

/// The next reader event at `pos`: a start tag (attributes parsed, the
/// `encoding` one kept), an end tag, a trimmed non-empty text run, or end
/// of input; processing instructions, comments and whitespace-only text
/// are skipped, and malformed markup is rejected.
pub open spec fn spec_next_event(s: Seq<char>, pos: int) -> Result<(SpecEvent, int), ErrClass>
    decreases s.len() - pos,
    via via_next_event
{
    if !(0 <= pos) {
        Err(ErrClass::TruncatedInput)
    } else if pos >= s.len() {
        Ok((SpecEvent::Eof, pos))
    } else if s[pos] == '<' {
        if pos + 1 >= s.len() {
            Err(ErrClass::TruncatedInput)
        } else {
            let c1 = s[pos + 1];
            if c1 == '?' {
                let e = spec_pi_end(s, pos + 2);
                if e < 0 {
                    Err(ErrClass::TruncatedInput)
                } else {
                    spec_next_event(s, e)
                }
            } else if c1 == '!' {
                if s.len() - pos < 4 || s[pos + 2] != '-' || s[pos + 3] != '-' {
                    Err(ErrClass::UnknownElementName)
                } else {
                    let e = spec_comment_end(s, pos + 4);
                    if e < 0 {
                        Err(ErrClass::TruncatedInput)
                    } else {
                        spec_next_event(s, e)
                    }
                }
            } else if c1 == '/' {
                let ne = spec_name_end(s, pos + 2);
                if ne == pos + 2 {
                    Err(ErrClass::UnknownElementName)
                } else {
                    let w = crate::spec_skip_ws(s, ne);
                    if w >= s.len() {
                        Err(ErrClass::TruncatedInput)
                    } else if s[w] != '>' {
                        Err(ErrClass::UnknownElementName)
                    } else {
                        Ok((SpecEvent::End(s.subrange(pos + 2, ne)), w + 1))
                    }
                }
            } else {
                let ne = spec_name_end(s, pos + 1);
                if ne == pos + 1 {
                    Err(ErrClass::UnknownElementName)
                } else {
                    match spec_attrs(s, ne, None) {
                        Ok((enc, emp, p)) => Ok(
                            (SpecEvent::Start(s.subrange(pos + 1, ne), enc, emp), p),
                        ),
                        Err(x) => Err(x),
                    }
                }
            }
        }
    } else {
        match spec_text_run(s, pos) {
            Ok((t, e)) => {
                let tt = spec_trim(t);
                if e <= pos {
                    Err(ErrClass::TruncatedInput)
                } else if tt.len() == 0 {
                    spec_next_event(s, e)
                } else {
                    Ok((SpecEvent::Text(tt), e))
                }
            },
            Err(x) => Err(x),
        }
    }
}

#[via_fn]
proof fn via_next_event(s: Seq<char>, pos: int) {
    if 0 <= pos < s.len() {
        if s[pos] == '<' {
            if pos + 1 < s.len() {
                if s[pos + 1] == '?' {
                    lemma_pi_end_bounds(s, pos + 2);
                } else if s[pos + 1] == '!' {
                    lemma_comment_end_bounds(s, pos + 4);
                }
            }
        } else {
            lemma_text_run_bounds(s, pos);
        }
    }
}

/// A successful attribute scan stops inside the text, past its start.
proof fn lemma_attrs_bounds(s: Seq<char>, i: int, enc: Option<Seq<char>>)
    ensures
        spec_attrs(s, i, enc) matches Ok((e2, emp, p)) ==> i < p <= s.len(),
    decreases s.len() - i,
{
    if 0 <= i <= s.len() {
        lemma_skip_ws_bounds(s, i);
        let w = crate::spec_skip_ws(s, i);
        if w < s.len() && s[w] != '>' && s[w] != '/' {
            lemma_name_end_bounds(s, w);
            let ne = spec_name_end(s, w);
            if ne != w {
                lemma_skip_ws_bounds(s, ne);
                let w2 = crate::spec_skip_ws(s, ne);
                if w2 < s.len() && s[w2] == '=' {
                    lemma_skip_ws_bounds(s, w2 + 1);
                    let w3 = crate::spec_skip_ws(s, w2 + 1);
                    if w3 < s.len() {
                        lemma_attr_value_bounds(s, w3 + 1, s[w3]);
                        match spec_attr_value(s, w3 + 1, s[w3]) {
                            Ok((val, p)) => {
                                lemma_attrs_bounds(
                                    s,
                                    p,
                                    if s.subrange(w, ne) == "encoding"@ {
                                        Some(val)
                                    } else {
                                        enc
                                    },
                                );
                            },
                            Err(_) => {},
                        }
                    }
                }
            }
        }
    }
}

/// A successful event read stops inside the text, and moves past `pos`
/// except at end of input.
pub proof fn lemma_next_event_progress(s: Seq<char>, pos: int)
    requires
        pos <= s.len(),
    ensures
        spec_next_event(s, pos) matches Ok((ev, p)) ==> pos <= p <= s.len() && (!(ev
            matches SpecEvent::Eof) ==> p > pos),
    decreases s.len() - pos,
{
    if 0 <= pos < s.len() {
        if s[pos] == '<' {
            if pos + 1 < s.len() {
                let c1 = s[pos + 1];
                if c1 == '?' {
                    lemma_pi_end_bounds(s, pos + 2);
                    let e = spec_pi_end(s, pos + 2);
                    if e >= 0 {
                        lemma_next_event_progress(s, e);
                    }
                } else if c1 == '!' {
                    if !(s.len() - pos < 4 || s[pos + 2] != '-' || s[pos + 3] != '-') {
                        lemma_comment_end_bounds(s, pos + 4);
                        let e = spec_comment_end(s, pos + 4);
                        if e >= 0 {
                            lemma_next_event_progress(s, e);
                        }
                    }
                } else if c1 == '/' {
                    lemma_name_end_bounds(s, pos + 2);
                    let ne = spec_name_end(s, pos + 2);
                    if ne != pos + 2 {
                        lemma_skip_ws_bounds(s, ne);
                    }
                } else {
                    lemma_name_end_bounds(s, pos + 1);
                    let ne = spec_name_end(s, pos + 1);
                    if ne != pos + 1 {
                        lemma_attrs_bounds(s, ne, None);
                    }
                }
            }
        } else {
            lemma_text_run_bounds(s, pos);
            match spec_text_run(s, pos) {
                Ok((t, e)) => {
                    if spec_trim(t).len() == 0 && e > pos {
                        lemma_next_event_progress(s, e);
                    }
                },
                Err(_) => {},
            }
        }
    }
}

/// The accumulated text of a primitive element: text runs joined with one
/// space, comments skipped, up to the matching end tag; a differently-named
/// end tag is a tag mismatch, a nested element is rejected, and end of
/// input while the element is open is a truncation error.
pub open spec fn spec_prim_text(
    s: Seq<char>,
    pos: int,
    tag: Seq<char>,
    acc: Seq<char>,
    have: bool,
) -> Result<(Seq<char>, int), ErrClass>
    decreases s.len() - pos,
    via via_prim_text
{
    match spec_next_event(s, pos) {
        Err(c) => Err(c),
        Ok((ev, p)) => match ev {
            SpecEvent::Text(t) => spec_prim_text(
                s,
                p,
                tag,
                if have {
                    acc + seq![' '] + t
                } else {
                    acc + t
                },
                true,
            ),
            SpecEvent::End(nm) => if nm == tag {
                Ok((acc, p))
            } else {
                Err(ErrClass::TagMismatch)
            },
            SpecEvent::Start(nm, e2, emp) => Err(ErrClass::UnknownElementName),
            SpecEvent::Eof => Err(ErrClass::TruncatedInput),
        },
    }
}

#[via_fn]
proof fn via_prim_text(s: Seq<char>, pos: int, tag: Seq<char>, acc: Seq<char>, have: bool) {
    if pos <= s.len() {
        lemma_next_event_progress(s, pos);
    }
}

/// One pull event of the text reader.
pub enum XmlEvent {
    /// A start tag: name, the `encoding` attribute if present, and whether
    /// the element was self-closing.
    Start(String, Option<String>, bool),
    /// An end tag.
    End(String),
    /// A run of non-whitespace text, entities decoded, ends trimmed.
    Text(String),
    /// End of the document.
    Eof,
}

impl View for XmlEvent {
    type V = SpecEvent;

    open spec fn view(&self) -> SpecEvent {
        match self {
            XmlEvent::Start(name, enc, empty) => SpecEvent::Start(
                name@,
                match enc {
                    Some(e) => Some(e@),
                    None => None,
                },
                *empty,
            ),
            XmlEvent::End(name) => SpecEvent::End(name@),
            XmlEvent::Text(t) => SpecEvent::Text(t@),
            XmlEvent::Eof => SpecEvent::Eof,
        }
    }
}

/// Character-for-character equality of two strings.
pub(crate) fn str_eq_str(a: &str, b: &str) -> (r: bool)
    ensures
        r == (a@ == b@),
{
    let na = a.unicode_len();
    let nb = b.unicode_len();
    if na != nb {
        return false;
    }
    let mut i: usize = 0;
    while i < na
        invariant
            i <= na,
            na == a@.len(),
            na == b@.len(),
            forall|q: int| 0 <= q < i ==> a@[q] == b@[q],
        decreases na - i,
    {
        if a.get_char(i) != b.get_char(i) {
            return false;
        }
        i = i + 1;
    }
    proof {
        assert(a@ =~= b@);
    }
    true
}

/// End of trailing whitespace scanned down from `n`, not below `a`.
fn trailing_ws_start(t: &str, n: usize, a: usize) -> (r: usize)
    requires
        n == t@.len(),
        a <= n,
    ensures
        a <= r <= n,
        r as int == spec_rtrim(t@, n as int, a as int),
{
    let mut b: usize = n;
    while b > a
        invariant
            a <= b <= n,
            n == t@.len(),
            spec_rtrim(t@, n as int, a as int) == spec_rtrim(t@, b as int, a as int),
        decreases b,
    {
        let c = t.get_char(b - 1);
        if !(c == ' ' || c == '\t' || c == '\n' || c == '\r') {
            assert(spec_rtrim(t@, b as int, a as int) == b as int);
            return b;
        }
        b = b - 1;
    }
    assert(spec_rtrim(t@, b as int, a as int) == b as int);
    b
}

/// Copy of a string with leading and trailing ASCII whitespace removed.
fn trim_to_string(t: &str) -> (r: String)
    ensures
        r@ == spec_trim(t@),
{
    let n = t.unicode_len();
    let a = crate::leading_ws_count(t, n);
    let b = trailing_ws_start(t, n, a);
    t.substring_char(a, b).to_owned()
}

/// Skip ASCII whitespace.  Matches `spec_skip_ws` exactly.
fn skip_ws(s: &str, n: usize, pos: usize) -> (r: usize)
    requires
        n == s@.len(),
        pos <= n,
    ensures
        pos <= r <= n,
        r as int == crate::spec_skip_ws(s@, pos as int),
{
    let mut j = pos;
    while j < n
        invariant
            pos <= j <= n,
            n == s@.len(),
            crate::spec_skip_ws(s@, pos as int) == crate::spec_skip_ws(s@, j as int),
        decreases n - j,
    {
        let c = s.get_char(j);
        if !(c == ' ' || c == '\t' || c == '\n' || c == '\r') {
            assert(crate::spec_skip_ws(s@, j as int) == j as int);
            return j;
        }
        j = j + 1;
    }
    assert(crate::spec_skip_ws(s@, j as int) == j as int);
    j
}

/// Decode one entity reference; entered just after the `&`.  Matches
/// `spec_entity` exactly.
fn read_entity(s: &str, n: usize, pos: usize) -> (r: Result<(char, usize), LLSDError>)
    requires
        n == s@.len(),
        pos <= n,
    ensures
        r matches Ok((c, p)) ==> pos < p <= n && spec_entity(s@, pos as int) == Ok::<
            (char, int),
            ErrClass,
        >((c, p as int)),
        r matches Err(e) ==> (spec_entity(s@, pos as int) matches Err(c2) && c2 == e.class()),
{
    let mut buf: Vec<char> = Vec::new();
    let mut j = pos;
    while j < n && j - pos < 6
        invariant
            pos <= j <= n,
            n == s@.len(),
            j - pos <= 6,
            buf@.len() == j - pos,
            buf@ == s@.subrange(pos as int, j as int),
            spec_semi(s@, pos as int, 0) == spec_semi(s@, j as int, j - pos),
        decreases n - j,
    {
        let c = s.get_char(j);
        if c == ';' {
            proof {
                assert(spec_semi(s@, j as int, j - pos) == j as int);
            }
            let m = buf.len();
            if m == 2 && buf[0] == 'l' && buf[1] == 't' {
                proof {
                    assert(buf@ =~= seq!['l', 't']);
                }
                return Ok(('<', j + 1));
            }
            if m == 2 && buf[0] == 'g' && buf[1] == 't' {
                proof {
                    assert(buf@ =~= seq!['g', 't']);
                }
                return Ok(('>', j + 1));
            }
            if m == 3 && buf[0] == 'a' && buf[1] == 'm' && buf[2] == 'p' {
                proof {
                    assert(buf@ =~= seq!['a', 'm', 'p']);
                }
                return Ok(('&', j + 1));
            }
            if m == 4 && buf[0] == 'a' && buf[1] == 'p' && buf[2] == 'o' && buf[3] == 's' {
                proof {
                    assert(buf@ =~= seq!['a', 'p', 'o', 's']);
                }
                return Ok(('\'', j + 1));
            }
            if m == 4 && buf[0] == 'q' && buf[1] == 'u' && buf[2] == 'o' && buf[3] == 't' {
                proof {
                    assert(buf@ =~= seq!['q', 'u', 'o', 't']);
                }
                return Ok(('"', j + 1));
            }
            return Err(LLSDError::InvalidEncoding {
                detail: s.substring_char(pos, j).to_owned(),
                position: pos,
            });
        }
        buf.push(c);
        proof {
            assert(buf@ =~= s@.subrange(pos as int, j + 1));
        }
        j = j + 1;
    }
    proof {
        assert(spec_semi(s@, j as int, j - pos) == -1);
    }
    Err(LLSDError::InvalidEncoding { detail: String::new(), position: pos })
}

/// Scan an element or attribute name: one or more characters up to
/// whitespace, `>`, `/`, `=` or `<`.  Matches `spec_name_end` exactly.
fn scan_name(s: &str, n: usize, pos: usize) -> (r: Result<(String, usize), LLSDError>)
    requires
        n == s@.len(),
        pos <= n,
    ensures
        r matches Ok((name, p)) ==> pos < p <= n && p as int == spec_name_end(s@, pos as int)
            && name@ == s@.subrange(pos as int, p as int),
        r matches Err(e) ==> spec_name_end(s@, pos as int) == pos as int && e.class()
            == ErrClass::UnknownElementName,
{
    let mut j = pos;
    let mut name = String::new();
    while j < n
        invariant
            pos <= j <= n,
            n == s@.len(),
            name@ == s@.subrange(pos as int, j as int),
            spec_name_end(s@, pos as int) == spec_name_end(s@, j as int),
        decreases n - j,
    {
        let c = s.get_char(j);
        if c == ' ' || c == '\t' || c == '\n' || c == '\r' || c == '>' || c == '/' || c == '='
            || c == '<' {
            assert(spec_name_end(s@, j as int) == j as int);
            if j == pos {
                return Err(LLSDError::UnknownElementName { name, position: pos });
            }
            return Ok((name, j));
        }
        push_char(&mut name, c);
        proof {
            assert(name@ =~= s@.subrange(pos as int, j + 1));
        }
        j = j + 1;
    }
    proof {
        assert(spec_name_end(s@, j as int) == j as int);
    }
    if j == pos {
        return Err(LLSDError::UnknownElementName { name, position: pos });
    }
    Ok((name, j))
}

/// Read a text run: characters up to the next `<` or end of input, entity
/// references decoded.  Matches `spec_text_run` exactly.
fn read_text_run(s: &str, n: usize, pos: usize) -> (r: Result<(String, usize), LLSDError>)
    requires
        n == s@.len(),
        pos <= n,
    ensures
        r matches Ok((t, p)) ==> pos <= p <= n && spec_text_run(s@, pos as int) == Ok::<
            (Seq<char>, int),
            ErrClass,
        >((t@, p as int)),
        r matches Err(e) ==> (spec_text_run(s@, pos as int) matches Err(c) && c == e.class()),
{
    let mut content = String::new();
    let mut j = pos;
    loop
        invariant
            pos <= j <= n,
            n == s@.len(),
            spec_text_run(s@, pos as int) == (match spec_text_run(s@, j as int) {
                Ok((t, e)) => Ok::<(Seq<char>, int), ErrClass>((content@ + t, e)),
                Err(x) => Err::<(Seq<char>, int), ErrClass>(x),
            }),
        decreases n - j,
    {
        if j >= n {
            proof {
                assert(content@ + Seq::<char>::empty() =~= content@);
            }
            return Ok((content, j));
        }
        let ct = s.get_char(j);
        if ct == '<' {
            proof {
                assert(content@ + Seq::<char>::empty() =~= content@);
            }
            return Ok((content, j));
        }
        if ct == '&' {
            match read_entity(s, n, j + 1) {
                Ok((ch, j2)) => {
                    proof {
                        match spec_text_run(s@, j2 as int) {
                            Ok((t, e)) => {
                                assert(content@ + (seq![ch] + t) =~= content@.push(ch) + t);
                            },
                            Err(_) => {},
                        }
                    }
                    push_char(&mut content, ch);
                    j = j2;
                },
                Err(e) => {
                    return Err(e);
                },
            }
        } else {
            proof {
                match spec_text_run(s@, j + 1) {
                    Ok((t, e)) => {
                        assert(content@ + (seq![s@[j as int]] + t) =~= content@.push(s@[j as int])
                            + t);
                    },
                    Err(_) => {},
                }
            }
            push_char(&mut content, ct);
            j = j + 1;
        }
    }
}

/// Read an attribute value up to the closing quote, entity references
/// decoded.  Matches `spec_attr_value` exactly.
fn read_attr_value(s: &str, n: usize, pos: usize, q: char) -> (r: Result<
    (String, usize),
    LLSDError,
>)
    requires
        n == s@.len(),
        pos <= n,
    ensures
        r matches Ok((t, p)) ==> pos < p <= n && spec_attr_value(s@, pos as int, q) == Ok::<
            (Seq<char>, int),
            ErrClass,
        >((t@, p as int)),
        r matches Err(e) ==> (spec_attr_value(s@, pos as int, q) matches Err(c) && c == e.class()),
{
    let mut value = String::new();
    let mut j = pos;
    loop
        invariant
            pos <= j <= n,
            n == s@.len(),
            spec_attr_value(s@, pos as int, q) == (match spec_attr_value(s@, j as int, q) {
                Ok((t, e)) => Ok::<(Seq<char>, int), ErrClass>((value@ + t, e)),
                Err(x) => Err::<(Seq<char>, int), ErrClass>(x),
            }),
        decreases n - j,
    {
        if j >= n {
            return Err(LLSDError::TruncatedInput { offset: j });
        }
        let cv = s.get_char(j);
        if cv == q {
            proof {
                assert(value@ + Seq::<char>::empty() =~= value@);
                lemma_attr_value_bounds(s@, pos as int, q);
            }
            return Ok((value, j + 1));
        }
        if cv == '&' {
            match read_entity(s, n, j + 1) {
                Ok((ch, j2)) => {
                    proof {
                        match spec_attr_value(s@, j2 as int, q) {
                            Ok((t, e)) => {
                                assert(value@ + (seq![ch] + t) =~= value@.push(ch) + t);
                            },
                            Err(_) => {},
                        }
                    }
                    push_char(&mut value, ch);
                    j = j2;
                },
                Err(e) => {
                    return Err(e);
                },
            }
        } else {
            proof {
                match spec_attr_value(s@, j + 1, q) {
                    Ok((t, e)) => {
                        assert(value@ + (seq![s@[j as int]] + t) =~= value@.push(s@[j as int]) + t);
                    },
                    Err(_) => {},
                }
            }
            push_char(&mut value, cv);
            j = j + 1;
        }
    }
}

/// Find the end of a processing instruction: the position after `?>`.
/// Matches `spec_pi_end` exactly.
fn find_pi_end(s: &str, n: usize, from: usize) -> (r: Option<usize>)
    requires
        n == s@.len(),
        from <= n,
    ensures
        r matches Some(e) ==> spec_pi_end(s@, from as int) == e as int && from <= e <= n,
        r is None ==> spec_pi_end(s@, from as int) == -1,
{
    let mut j = from;
    while n - j > 1
        invariant
            from <= j <= n,
            n == s@.len(),
            spec_pi_end(s@, from as int) == spec_pi_end(s@, j as int),
        decreases n - j,
    {
        if s.get_char(j) == '?' && s.get_char(j + 1) == '>' {
            assert(spec_pi_end(s@, j as int) == j + 2);
            return Some(j + 2);
        }
        j = j + 1;
    }
    assert(spec_pi_end(s@, j as int) == -1);
    None
}

/// Find the end of a comment: the position after `-->`.  Matches
/// `spec_comment_end` exactly.
fn find_comment_end(s: &str, n: usize, from: usize) -> (r: Option<usize>)
    requires
        n == s@.len(),
        from <= n,
    ensures
        r matches Some(e) ==> spec_comment_end(s@, from as int) == e as int && from <= e <= n,
        r is None ==> spec_comment_end(s@, from as int) == -1,
{
    let mut j = from;
    while n - j > 2
        invariant
            from <= j <= n,
            n == s@.len(),
            spec_comment_end(s@, from as int) == spec_comment_end(s@, j as int),
        decreases n - j,
    {
        if s.get_char(j) == '-' && s.get_char(j + 1) == '-' && s.get_char(j + 2) == '>' {
            assert(spec_comment_end(s@, j as int) == j + 3);
            return Some(j + 3);
        }
        j = j + 1;
    }
    assert(spec_comment_end(s@, j as int) == -1);
    None
}

/// Read the attribute list of a start tag, entered just after the name:
/// keeps the `encoding` attribute, reports a self-closing tag, and stops
/// after the closing bracket.  Matches `spec_attrs` exactly.
fn read_attrs(s: &str, n: usize, from: usize) -> (r: Result<
    (Option<String>, bool, usize),
    LLSDError,
>)
    requires
        n == s@.len(),
        from <= n,
    ensures
        r matches Ok((enc, emp, p)) ==> from < p <= n && spec_attrs(s@, from as int, None) == Ok::<
            (Option<Seq<char>>, bool, int),
            ErrClass,
        >((
            match enc {
                Some(e) => Some(e@),
                None => None,
            },
            emp,
            p as int,
        )),
        r matches Err(e) ==> (spec_attrs(s@, from as int, None) matches Err(c) && c == e.class()),
{
    let mut enc: Option<String> = None;
    let mut j = from;
    loop
        invariant
            from <= j <= n,
            n == s@.len(),
            spec_attrs(s@, from as int, None) == spec_attrs(
                s@,
                j as int,
                match enc {
                    Some(e) => Some(e@),
                    None => None,
                },
            ),
        decreases n - j,
    {
        let w = skip_ws(s, n, j);
        if w >= n {
            return Err(LLSDError::TruncatedInput { offset: w });
        }
        let ca = s.get_char(w);
        if ca == '>' {
            return Ok((enc, false, w + 1));
        }
        if ca == '/' {
            if w + 1 < n && s.get_char(w + 1) == '>' {
                return Ok((enc, true, w + 2));
            }
            return Err(LLSDError::UnknownElementName { name: String::new(), position: w });
        }
        let (aname, j2) = match scan_name(s, n, w) {
            Ok(t) => t,
            Err(e) => {
                return Err(e);
            },
        };
        let w2 = skip_ws(s, n, j2);
        if w2 >= n || s.get_char(w2) != '=' {
            return Err(LLSDError::UnknownElementName { name: aname, position: w2 });
        }
        let w3 = skip_ws(s, n, w2 + 1);
        if w3 >= n {
            return Err(LLSDError::TruncatedInput { offset: w3 });
        }
        let q = s.get_char(w3);
        if q != '"' && q != '\'' {
            return Err(LLSDError::UnknownElementName { name: aname, position: w3 });
        }
        let (value, j3) = match read_attr_value(s, n, w3 + 1, q) {
            Ok(t) => t,
            Err(e) => {
                return Err(e);
            },
        };
        if str_eq_str(aname.as_str(), "encoding") {
            enc = Some(value);
        }
        j = j3;
    }
}

/// Read the next reader event at `pos`: a start tag (attributes parsed, the
/// `encoding` one kept), an end tag, a trimmed non-empty text run, or end of
/// input.  Comments, processing instructions and whitespace-only text are
/// skipped; a malformed construct is an error.  Matches `spec_next_event`
/// exactly, error classes included.
fn next_event(s: &str, n: usize, pos: usize) -> (r: Result<(XmlEvent, usize), LLSDError>)
    requires
        n == s@.len(),
        pos <= n,
    ensures
        r matches Ok((ev, p)) ==> pos <= p <= n && (!(ev matches XmlEvent::Eof) ==> p > pos)
            && spec_next_event(s@, pos as int) == Ok::<(SpecEvent, int), ErrClass>(
            (ev@, p as int),
        ),
        r matches Err(e) ==> (spec_next_event(s@, pos as int) matches Err(c) && c == e.class()),
    decreases n - pos,
{
    let mut cur = pos;
    loop
        invariant
            pos <= cur <= n,
            n == s@.len(),
            spec_next_event(s@, pos as int) == spec_next_event(s@, cur as int),
        decreases n - cur,
    {
        if cur >= n {
            return Ok((XmlEvent::Eof, cur));
        }
        let c = s.get_char(cur);
        if c == '<' {
            if cur + 1 >= n {
                return Err(LLSDError::TruncatedInput { offset: cur });
            }
            let c1 = s.get_char(cur + 1);
            if c1 == '?' {
                // processing instruction / declaration: skip to ?>
                match find_pi_end(s, n, cur + 2) {
                    Some(e) => {
                        proof {
                            lemma_pi_end_bounds(s@, cur + 2);
                        }
                        cur = e;
                    },
                    None => {
                        return Err(LLSDError::TruncatedInput { offset: cur });
                    },
                }
            } else if c1 == '!' {
                // comment: skip to -->
                if n - cur < 4 || s.get_char(cur + 2) != '-' || s.get_char(cur + 3) != '-' {
                    return Err(LLSDError::UnknownElementName {
                        name: String::new(),
                        position: cur,
                    });
                }
                match find_comment_end(s, n, cur + 4) {
                    Some(e) => {
                        proof {
                            lemma_comment_end_bounds(s@, cur + 4);
                        }
                        cur = e;
                    },
                    None => {
                        return Err(LLSDError::TruncatedInput { offset: cur });
                    },
                }
            } else if c1 == '/' {
                // end tag
                let (name, j) = match scan_name(s, n, cur + 2) {
                    Ok(t) => t,
                    Err(e) => {
                        return Err(e);
                    },
                };
                let w = skip_ws(s, n, j);
                if w >= n {
                    return Err(LLSDError::TruncatedInput { offset: w });
                }
                if s.get_char(w) != '>' {
                    return Err(LLSDError::UnknownElementName { name, position: w });
                }
                return Ok((XmlEvent::End(name), w + 1));
            } else {
                // start tag with optional attributes
                let (name, j) = match scan_name(s, n, cur + 1) {
                    Ok(t) => t,
                    Err(e) => {
                        return Err(e);
                    },
                };
                match read_attrs(s, n, j) {
                    Ok((enc, emp, p)) => {
                        return Ok((XmlEvent::Start(name, enc, emp), p));
                    },
                    Err(e) => {
                        return Err(e);
                    },
                }
            }
        } else {
            // text run up to the next tag
            let (content, j) = match read_text_run(s, n, cur) {
                Ok(t) => t,
                Err(e) => {
                    return Err(e);
                },
            };
            if j <= cur {
                return Err(LLSDError::TruncatedInput { offset: cur });
            }
            let trimmed = trim_to_string(content.as_str());
            if trimmed.as_str().unicode_len() == 0 {
                proof {
                    assert(trimmed@.len() == 0);
                }
                cur = j;
            } else {
                return Ok((XmlEvent::Text(trimmed), j));
            }
        }
    }
}

/// What parsing a whole document yields, as a relation over the result:
/// ignorable events are skipped until the `llsd` wrapper, inside which
/// exactly one value element is the root; a second wrapper or root value is
/// rejected, and at end of input the root read, if any, is the result.
pub open spec fn sp_document_loop(
    s: Seq<char>,
    pos: int,
    out: Option<SpecValue>,
    r: Result<SpecValue, ErrClass>,
) -> bool
    decreases s.len() - pos,
    via via_sp_document_loop
{
    match spec_next_event(s, pos) {
        Err(c) => r == Err::<SpecValue, ErrClass>(c),
        Ok((ev, p)) => match ev {
            SpecEvent::Eof => match out {
                Some(v) => r == Ok::<SpecValue, ErrClass>(v),
                None => r matches Err(c) && c == ErrClass::TruncatedInput,
            },
            SpecEvent::Start(nm, e2, emp) => if nm != "llsd"@ {
                r matches Err(c) && c == ErrClass::UnknownElementName
            } else if out is Some {
                r matches Err(c) && c == ErrClass::UnknownElementName
            } else if emp {
                r matches Err(c) && c == ErrClass::TruncatedInput
            } else {
                match spec_next_event(s, p) {
                    Err(c) => r == Err::<SpecValue, ErrClass>(c),
                    Ok((ev2, p2)) => match ev2 {
                        SpecEvent::Start(tag2, enc2, emp2) => (exists|v: SpecValue, p3: int|
                            #![trigger decode_split(v, p3)]
                            pos < p3 <= s.len() && sp_value(
                                s,
                                p2,
                                tag2,
                                enc2,
                                emp2,
                                crate::binary::MAX_NESTING_DEPTH as int,
                                Ok((v, p3)),
                            ) && sp_document_loop(s, p3, Some(v), r)) || (exists|c: ErrClass|
                            #![trigger err_pick(c)]
                            sp_value(
                                s,
                                p2,
                                tag2,
                                enc2,
                                emp2,
                                crate::binary::MAX_NESTING_DEPTH as int,
                                Err::<(SpecValue, int), ErrClass>(c),
                            ) && r == Err::<SpecValue, ErrClass>(c)),
                        SpecEvent::Eof => r matches Err(c) && c == ErrClass::TruncatedInput,
                        SpecEvent::End(nm2) => r matches Err(c) && c
                            == ErrClass::UnknownElementName,
                        SpecEvent::Text(t2) => r matches Err(c) && c
                            == ErrClass::UnknownElementName,
                    },
                }
            },
            SpecEvent::End(nm) => sp_document_loop(s, p, out, r),
            SpecEvent::Text(t) => sp_document_loop(s, p, out, r),
        },
    }
}

#[via_fn]
proof fn via_sp_document_loop(
    s: Seq<char>,
    pos: int,
    out: Option<SpecValue>,
    r: Result<SpecValue, ErrClass>,
) {
    if 0 <= pos <= s.len() {
        lemma_next_event_progress(s, pos);
    }
}

/// What parsing a whole document yields.
pub open spec fn sp_document(s: Seq<char>, r: Result<SpecValue, ErrClass>) -> bool {
    sp_document_loop(s, 0, None, r)
}

/// Parse LLSD expressed in XML into an LLSD tree: the document's
/// processing instructions are skipped, one `<llsd>` wrapper element is
/// required, and exactly one typed element inside it is the root value; a
/// second wrapper or root, a mismatched close tag, or an early end of input
/// is an error.  Matches the decode relation `sp_document`, error classes
/// included, and every tree returned is well-formed.
pub fn parse(xmlstr: &str) -> (r: Result<LLSDValue, LLSDError>)
    ensures
        r matches Ok(v) ==> wf(v@),
        sp_document(
            xmlstr@,
            match r {
                Ok(v) => Ok(v@),
                Err(e) => Err(e.class()),
            },
        ),
{
    let n = xmlstr.unicode_len();
    let mut pos: usize = 0;
    let mut output: Option<LLSDValue> = None;
    proof {
        assert(xmlstr@.skip(0) =~= xmlstr@);
    }
    loop
        invariant
            pos <= n,
            n == xmlstr@.len(),
            match output {
                Some(v) => wf(v@),
                None => true,
            },
            forall|r2: Result<SpecValue, ErrClass>|
                sp_document_loop(
                    xmlstr@,
                    pos as int,
                    match output {
                        Some(v) => Some(v@),
                        None => None,
                    },
                    r2,
                ) ==> #[trigger] sp_document(xmlstr@, r2),
        decreases n - pos,
    {
        match next_event(xmlstr, n, pos) {
            Err(e) => {
                return Err(e);
            },
            Ok((ev, p)) => {
                match ev {
                    XmlEvent::Eof => {
                        match output {
                            Some(v) => {
                                return Ok(v);
                            },
                            None => {
                                return Err(LLSDError::TruncatedInput { offset: n });
                            },
                        }
                    },
                    XmlEvent::Start(name, _enc, empty) => {
                        if !str_eq_str(name.as_str(), "llsd") {
                            return Err(LLSDError::UnknownElementName { name, position: p });
                        }
                        if output.is_some() {
                            return Err(LLSDError::UnknownElementName { name, position: p });
                        }
                        if empty {
                            return Err(LLSDError::TruncatedInput { offset: p });
                        }
                        match next_event(xmlstr, n, p) {
                            Err(e) => {
                                return Err(e);
                            },
                            Ok((ev2, p2)) => {
                                match ev2 {
                                    XmlEvent::Start(tag2, enc2, empty2) => {
                                        match parse_value(
                                            xmlstr,
                                            n,
                                            p2,
                                            &tag2,
                                            &enc2,
                                            empty2,
                                            MAX_NESTING_DEPTH,
                                        ) {
                                            Ok((v, p3)) => {
                                                let ghost vv = model(v);
                                                proof {
                                                    assert(decode_split(vv, p3 as int));
                                                    assert forall|r2: Result<SpecValue, ErrClass>|
                                                        sp_document_loop(
                                                            xmlstr@,
                                                            p3 as int,
                                                            Some(vv),
                                                            r2,
                                                        ) implies #[trigger] sp_document(
                                                        xmlstr@,
                                                        r2,
                                                    ) by {
                                                        assert(sp_document_loop(
                                                            xmlstr@,
                                                            pos as int,
                                                            None,
                                                            r2,
                                                        ));
                                                    }
                                                }
                                                pos = p3;
                                                output = Some(v);
                                            },
                                            Err(e) => {
                                                proof {
                                                    assert(err_pick(e.class()));
                                                }
                                                return Err(e);
                                            },
                                        }
                                    },
                                    XmlEvent::Eof => {
                                        return Err(LLSDError::TruncatedInput { offset: p2 });
                                    },
                                    XmlEvent::End(nm) => {
                                        return Err(LLSDError::UnknownElementName {
                                            name: nm,
                                            position: p2,
                                        });
                                    },
                                    XmlEvent::Text(t) => {
                                        return Err(LLSDError::UnknownElementName {
                                            name: t,
                                            position: p2,
                                        });
                                    },
                                }
                            },
                        }
                    },
                    XmlEvent::End(_) => {
                        pos = p;
                    },
                    XmlEvent::Text(_) => {
                        pos = p;
                    },
                }
            },
        }
    }
}

/// What converting one primitive element's text yields, as a relation:
/// exact for every element name and error class, with the Real leaf's bits
/// constrained (the grammar decides success, NaN is canonical) rather than
/// fixed for ordinary decimal literals.
pub open spec fn sp_convert_rel(
    tag: Seq<char>,
    text: Seq<char>,
    enc: Option<Seq<char>>,
    r: Result<SpecValue, ErrClass>,
) -> bool {
    &&& ((tag == "undef"@ || tag == "null"@) ==> r == Ok::<SpecValue, ErrClass>(
        SpecValue::Undefined,
    ))
    &&& ((tag == "boolean"@ || tag == "bool"@) ==> (match r {
        Ok(v) => (text == "true"@ || text == "1"@ || text == "false"@ || text == "0"@) && v
            == SpecValue::Boolean(text == "true"@ || text == "1"@),
        Err(c) => !(text == "true"@ || text == "1"@ || text == "false"@ || text == "0"@) && c
            == ErrClass::InvalidNumericLiteral,
    }))
    &&& (tag == "integer"@ ==> (match r {
        Ok(v) => (spec_parse_i32(text) matches Some(i) && v == SpecValue::Integer(i)),
        Err(c) => spec_parse_i32(text) is None && c == ErrClass::InvalidNumericLiteral,
    }))
    &&& (tag == "real"@ ==> (match r {
        Ok(v) => spec_real_accepted(text) && (v matches SpecValue::Real(b)) && (is_nan_token(text)
            ==> v == SpecValue::Real(CANONICAL_NAN_BITS)),
        Err(c) => !spec_real_accepted(text) && c == ErrClass::InvalidNumericLiteral,
    }))
    &&& (tag == "string"@ ==> r == Ok::<SpecValue, ErrClass>(SpecValue::Str(text)))
    &&& (tag == "uri"@ ==> r == Ok::<SpecValue, ErrClass>(SpecValue::Uri(text)))
    &&& (tag == "uuid"@ ==> (match r {
        Ok(v) => (spec_uuid_parse(text) matches Some(b) && v == SpecValue::Uuid(b)),
        Err(c) => spec_uuid_parse(text) is None && c == ErrClass::InvalidNumericLiteral,
    }))
    &&& (tag == "date"@ ==> (match r {
        Ok(v) => (date_secs_of(text) matches Some(d) && v == SpecValue::Date(d)),
        Err(c) => date_secs_of(text) is None && c == ErrClass::InvalidNumericLiteral,
    }))
    &&& (tag == "binary"@ ==> {
        &&& ((enc is None) ==> (match r {
            Ok(v) => (base64_bytes_of(text) matches Some(b) && v == SpecValue::Binary(b)),
            Err(c) => base64_bytes_of(text) is None && c == ErrClass::InvalidEncoding,
        }))
        &&& ((enc == Some("base64"@)) ==> (match r {
            Ok(v) => (base64_bytes_of(text) matches Some(b) && v == SpecValue::Binary(b)),
            Err(c) => base64_bytes_of(text) is None && c == ErrClass::InvalidEncoding,
        }))
        &&& (enc == Some("base16"@) ==> (match r {
            Ok(v) => (spec_hex_decode(text) matches Some(b) && v == SpecValue::Binary(b)),
            Err(c) => spec_hex_decode(text) is None && c == ErrClass::InvalidEncoding,
        }))
        &&& (enc == Some("base85"@) ==> (match r {
            Ok(v) => a85_call_safe(a85_clean(text)) && (a85_bytes_of(a85_clean(text))
                matches Some(b) && v == SpecValue::Binary(b)),
            Err(c) => (!a85_call_safe(a85_clean(text)) || a85_bytes_of(a85_clean(text)) is None)
                && c == ErrClass::InvalidEncoding,
        }))
        &&& ((enc matches Some(e) && e != "base64"@ && e != "base16"@ && e != "base85"@) ==> (
        r matches Err(c) && c == ErrClass::InvalidEncoding))
    })
    &&& (!(tag == "undef"@ || tag == "null"@ || tag == "boolean"@ || tag == "bool"@ || tag
        == "integer"@ || tag == "real"@ || tag == "string"@ || tag == "uri"@ || tag == "uuid"@
        || tag == "date"@ || tag == "binary"@) ==> (r matches Err(c) && c
        == ErrClass::UnknownElementName))
}

/// Convert one primitive element's accumulated text per its element name:
/// the contract pins each conversion to its spec form, and says exactly
/// when each succeeds.
#[verifier::rlimit(100)]
#[verifier::spinoff_prover]
fn convert_primitive(
    tag: &String,
    text: &String,
    encoding: &Option<String>,
    position: usize,
) -> (r: Result<LLSDValue, LLSDError>)
    ensures
        r matches Ok(v) ==> wf(v@),
        sp_convert_rel(
            tag@,
            text@,
            match encoding {
                Some(e) => Some(e@),
                None => None,
            },
            match r {
                Ok(v) => Ok(v@),
                Err(e) => Err(e.class()),
            },
        ),
{
    proof {
        reveal_strlit("undef");
        reveal_strlit("null");
        reveal_strlit("boolean");
        reveal_strlit("bool");
        reveal_strlit("integer");
        reveal_strlit("real");
        reveal_strlit("string");
        reveal_strlit("uri");
        reveal_strlit("uuid");
        reveal_strlit("date");
        reveal_strlit("binary");
        reveal_strlit("true");
        reveal_strlit("false");
        reveal_strlit("1");
        reveal_strlit("0");
        assert("boolean"@[0] != "integer"@[0]);
        assert("null"@[0] != "real"@[0] && "bool"@[0] != "real"@[0]);
        assert("null"@[0] != "uuid"@[0] && "bool"@[0] != "uuid"@[0] && "real"@[0] != "uuid"@[0]);
        assert("null"@[0] != "date"@[0] && "bool"@[0] != "date"@[0] && "real"@[0] != "date"@[0]
            && "uuid"@[0] != "date"@[0]);
        assert("null"@[0] != "bool"@[0]);
        assert("0"@[0] != "1"@[0]);
        assert("string"@[0] != "binary"@[0]);
        assert("undef"@.len() == 5 && "null"@.len() == 4 && "boolean"@.len() == 7 && "bool"@.len()
            == 4 && "integer"@.len() == 7 && "real"@.len() == 4 && "string"@.len() == 6
            && "uri"@.len() == 3 && "uuid"@.len() == 4 && "date"@.len() == 4 && "binary"@.len()
            == 6 && "true"@.len() == 4 && "false"@.len() == 5 && "1"@.len() == 1 && "0"@.len()
            == 1);
        reveal_strlit("base64");
        reveal_strlit("base16");
        reveal_strlit("base85");
        assert("base64"@[4] != "base16"@[4] && "base64"@[4] != "base85"@[4] && "base16"@[4]
            != "base85"@[4]);
    }
    if str_eq_str(tag.as_str(), "undef") || str_eq_str(tag.as_str(), "null") {
        return Ok(LLSDValue::Undefined);
    } else if str_eq_str(tag.as_str(), "boolean") || str_eq_str(tag.as_str(), "bool") {
        if str_eq_str(text.as_str(), "true") || str_eq_str(text.as_str(), "1") {
            return Ok(LLSDValue::Boolean(true));
        } else if str_eq_str(text.as_str(), "false") || str_eq_str(text.as_str(), "0") {
            return Ok(LLSDValue::Boolean(false));
        } else {
            return Err(LLSDError::InvalidNumericLiteral { text: text.clone(), position });
        }
    } else if str_eq_str(tag.as_str(), "integer") {
        match parse_i32(text.as_str()) {
            Some(v) => {
                return Ok(LLSDValue::Integer(v));
            },
            None => {
                return Err(LLSDError::InvalidNumericLiteral { text: text.clone(), position });
            },
        }
    } else if str_eq_str(tag.as_str(), "real") {
        match parse_real(text.as_str()) {
            Some(bits) => {
                return Ok(LLSDValue::Real(bits));
            },
            None => {
                return Err(LLSDError::InvalidNumericLiteral { text: text.clone(), position });
            },
        }
    } else if str_eq_str(tag.as_str(), "string") {
        return Ok(LLSDValue::String(text.clone()));
    } else if str_eq_str(tag.as_str(), "uri") {
        return Ok(LLSDValue::URI(text.clone()));
    } else if str_eq_str(tag.as_str(), "uuid") {
        match uuid_parse(text.as_str()) {
            Some(b) => {
                return Ok(LLSDValue::UUID(b));
            },
            None => {
                return Err(LLSDError::InvalidNumericLiteral { text: text.clone(), position });
            },
        }
    } else if str_eq_str(tag.as_str(), "date") {
        match parse_date(text.as_str(), position) {
            Ok(d) => {
                return Ok(LLSDValue::Date(d));
            },
            Err(e) => {
                return Err(e);
            },
        }
    } else if str_eq_str(tag.as_str(), "binary") {
        match parse_binary(text.as_str(), encoding, position) {
            Ok(b) => {
                return Ok(LLSDValue::Binary(b));
            },
            Err(e) => {
                return Err(e);
            },
        }
    } else {
        return Err(LLSDError::UnknownElementName { name: tag.clone(), position });
    }
}

/// Marks the decomposition a decoded construct is witnessed by; used as
/// the quantifier trigger for the decode relations.
pub open spec fn decode_split(v: SpecValue, p: int) -> bool {
    true
}

/// Marks the error a failing decode is witnessed by; used as the quantifier
/// trigger for the decode relations' failure cases.
pub open spec fn err_pick(c: ErrClass) -> bool {
    true
}

/// A successful primitive-text read stops inside the text.
proof fn lemma_prim_text_bounds(s: Seq<char>, pos: int, tag: Seq<char>, acc: Seq<char>, have: bool)
    requires
        0 <= pos <= s.len(),
    ensures
        spec_prim_text(s, pos, tag, acc, have) matches Ok((t, pe)) ==> pos <= pe <= s.len(),
    decreases s.len() - pos,
{
    lemma_next_event_progress(s, pos);
    match spec_next_event(s, pos) {
        Ok((ev, p)) => {
            match ev {
                SpecEvent::Text(t) => {
                    lemma_prim_text_bounds(
                        s,
                        p,
                        tag,
                        if have {
                            acc + seq![' '] + t
                        } else {
                            acc + t
                        },
                        true,
                    );
                },
                _ => {},
            }
        },
        Err(_) => {},
    }
}

/// What parsing one primitive element yields, as a relation over the
/// result: its accumulated text per `spec_prim_text`, converted per
/// `sp_convert_rel`; for a self-closing element the text is empty and no
/// event is read.
pub open spec fn sp_prim(
    s: Seq<char>,
    pos: int,
    tag: Seq<char>,
    enc: Option<Seq<char>>,
    empty: bool,
    r: Result<(SpecValue, int), ErrClass>,
) -> bool {
    if empty {
        match r {
            Ok((v, p)) => p == pos && sp_convert_rel(tag, Seq::empty(), enc, Ok(v)),
            Err(c) => sp_convert_rel(tag, Seq::empty(), enc, Err(c)),
        }
    } else {
        match spec_prim_text(s, pos, tag, Seq::empty(), false) {
            Err(c) => r == Err::<(SpecValue, int), ErrClass>(c),
            Ok((txt, pe)) => match r {
                Ok((v, p)) => p == pe && sp_convert_rel(tag, txt, enc, Ok(v)),
                Err(c) => sp_convert_rel(tag, txt, enc, Err(c)),
            },
        }
    }
}

/// What parsing one value element yields, as a relation over the result:
/// entered with its start tag read; `map` and `array` descend under the
/// depth budget, the other known names are primitives, an unknown name is
/// rejected.
pub open spec fn sp_value(
    s: Seq<char>,
    pos: int,
    tag: Seq<char>,
    enc: Option<Seq<char>>,
    empty: bool,
    depth: int,
    r: Result<(SpecValue, int), ErrClass>,
) -> bool
    decreases
        (if depth >= 0 {
            depth
        } else {
            0int
        }),
        2int,
        s.len() - pos,
{
    if depth <= 0 {
        r == Err::<(SpecValue, int), ErrClass>(ErrClass::DepthLimitExceeded)
    } else if tag == "map"@ {
        if empty {
            r == Ok::<(SpecValue, int), ErrClass>((SpecValue::Mapping(Seq::empty()), pos))
        } else {
            sp_map(s, pos, depth, Seq::empty(), r)
        }
    } else if tag == "array"@ {
        if empty {
            r == Ok::<(SpecValue, int), ErrClass>((SpecValue::Array(Seq::empty()), pos))
        } else {
            sp_array(s, pos, depth, Seq::empty(), r)
        }
    } else if tag == "undef"@ || tag == "null"@ || tag == "boolean"@ || tag == "bool"@ || tag
        == "integer"@ || tag == "real"@ || tag == "string"@ || tag == "uri"@ || tag == "uuid"@
        || tag == "date"@ || tag == "binary"@ {
        sp_prim(s, pos, tag, enc, empty, r)
    } else {
        r matches Err(c) && c == ErrClass::UnknownElementName
    }
}

/// What parsing a map body yields, as a relation over the result: entered
/// after `<map>` with the entries decoded so far in `acc`, each further
/// `key`/value pair inserted with the last write winning, up to the
/// matching `</map>`.
pub open spec fn sp_map(
    s: Seq<char>,
    pos: int,
    depth: int,
    acc: Seq<(Seq<char>, SpecValue)>,
    r: Result<(SpecValue, int), ErrClass>,
) -> bool
    decreases
        (if depth >= 0 {
            depth
        } else {
            0int
        }),
        1int,
        s.len() - pos,
    via via_sp_map
{
    if depth <= 0 {
        r == Err::<(SpecValue, int), ErrClass>(ErrClass::DepthLimitExceeded)
    } else {
        match spec_next_event(s, pos) {
            Err(c) => r == Err::<(SpecValue, int), ErrClass>(c),
            Ok((ev, p)) => match ev {
                SpecEvent::Start(nm, e2, emp) => if nm != "key"@ {
                    r matches Err(c) && c == ErrClass::UnknownElementName
                } else {
                    (exists|kv: (Seq<char>, SpecValue), p2: int|
                        #![trigger decode_split(kv.1, p2)]
                        pos < p2 <= s.len() && sp_entry(s, p, emp, depth, Ok((kv, p2))) && sp_map(
                            s,
                            p2,
                            depth,
                            crate::binary::assoc_set(acc, kv.0, kv.1),
                            r,
                        )) || (exists|c: ErrClass|
                        #![trigger err_pick(c)]
                        sp_entry(s, p, emp, depth, Err(c)) && r == Err::<
                            (SpecValue, int),
                            ErrClass,
                        >(c))
                },
                SpecEvent::End(nm) => if nm == "map"@ {
                    r == Ok::<(SpecValue, int), ErrClass>((SpecValue::Mapping(acc), p))
                } else {
                    r matches Err(c) && c == ErrClass::TagMismatch
                },
                SpecEvent::Text(t) => sp_map(s, p, depth, acc, r),
                SpecEvent::Eof => r matches Err(c) && c == ErrClass::TruncatedInput,
            },
        }
    }
}

#[via_fn]
proof fn via_sp_map(
    s: Seq<char>,
    pos: int,
    depth: int,
    acc: Seq<(Seq<char>, SpecValue)>,
    r: Result<(SpecValue, int), ErrClass>,
) {
    if 0 <= pos <= s.len() {
        lemma_next_event_progress(s, pos);
    }
}

/// What parsing one map entry yields, as a relation over the result:
/// entered with the `key` start tag read — the key's text up to `</key>`,
/// then exactly one value element one level deeper.
pub open spec fn sp_entry(
    s: Seq<char>,
    pos: int,
    key_empty: bool,
    depth: int,
    r: Result<((Seq<char>, SpecValue), int), ErrClass>,
) -> bool
    decreases
        (if depth >= 0 {
            depth
        } else {
            0int
        }),
        0int,
        s.len() - pos,
    via via_sp_entry
{
    if depth <= 0 {
        r == Err::<((Seq<char>, SpecValue), int), ErrClass>(ErrClass::DepthLimitExceeded)
    } else {
        let keyres = if key_empty {
            Ok((Seq::<char>::empty(), pos))
        } else {
            spec_prim_text(s, pos, "key"@, Seq::empty(), false)
        };
        match keyres {
            Err(c) => r == Err::<((Seq<char>, SpecValue), int), ErrClass>(c),
            Ok((key, pk)) => match spec_next_event(s, pk) {
                Err(c) => r == Err::<((Seq<char>, SpecValue), int), ErrClass>(c),
                Ok((ev, p)) => match ev {
                    SpecEvent::Start(tag2, enc2, emp2) => (match r {
                        Ok((kv, p2)) => kv.0 == key && sp_value(
                            s,
                            p,
                            tag2,
                            enc2,
                            emp2,
                            depth - 1,
                            Ok((kv.1, p2)),
                        ),
                        Err(c) => sp_value(
                            s,
                            p,
                            tag2,
                            enc2,
                            emp2,
                            depth - 1,
                            Err::<(SpecValue, int), ErrClass>(c),
                        ),
                    }),
                    SpecEvent::Eof => r matches Err(c) && c == ErrClass::TruncatedInput,
                    SpecEvent::End(nm) => r matches Err(c) && c == ErrClass::UnknownElementName,
                    SpecEvent::Text(t) => r matches Err(c) && c == ErrClass::UnknownElementName,
                },
            },
        }
    }
}

#[via_fn]
proof fn via_sp_entry(
    s: Seq<char>,
    pos: int,
    key_empty: bool,
    depth: int,
    r: Result<((Seq<char>, SpecValue), int), ErrClass>,
) {
    if 0 <= pos <= s.len() {
        if !key_empty {
            lemma_prim_text_bounds(s, pos, "key"@, Seq::empty(), false);
        }
        let keyres: Result<(Seq<char>, int), ErrClass> = if key_empty {
            Ok((Seq::<char>::empty(), pos))
        } else {
            spec_prim_text(s, pos, "key"@, Seq::empty(), false)
        };
        match keyres {
            Ok((key, pk)) => {
                if 0 <= pk <= s.len() {
                    lemma_next_event_progress(s, pk);
                }
            },
            Err(_) => {},
        }
    }
}

/// What parsing an array body yields, as a relation over the result:
/// entered after `<array>` with the items decoded so far in `acc`, up to
/// the matching `</array>`.
pub open spec fn sp_array(
    s: Seq<char>,
    pos: int,
    depth: int,
    acc: Seq<SpecValue>,
    r: Result<(SpecValue, int), ErrClass>,
) -> bool
    decreases
        (if depth >= 0 {
            depth
        } else {
            0int
        }),
        1int,
        s.len() - pos,
    via via_sp_array
{
    if depth <= 0 {
        r == Err::<(SpecValue, int), ErrClass>(ErrClass::DepthLimitExceeded)
    } else {
        match spec_next_event(s, pos) {
            Err(c) => r == Err::<(SpecValue, int), ErrClass>(c),
            Ok((ev, p)) => match ev {
                SpecEvent::Start(nm, e2, emp) => (exists|v: SpecValue, p2: int|
                    #![trigger decode_split(v, p2)]
                    pos < p2 <= s.len() && sp_value(s, p, nm, e2, emp, depth - 1, Ok((v, p2)))
                        && sp_array(s, p2, depth, acc.push(v), r)) || (exists|c: ErrClass|
                    #![trigger err_pick(c)]
                    sp_value(s, p, nm, e2, emp, depth - 1, Err::<(SpecValue, int), ErrClass>(c))
                        && r == Err::<(SpecValue, int), ErrClass>(c)),
                SpecEvent::End(nm) => if nm == "array"@ {
                    r == Ok::<(SpecValue, int), ErrClass>((SpecValue::Array(acc), p))
                } else {
                    r matches Err(c) && c == ErrClass::TagMismatch
                },
                SpecEvent::Text(t) => sp_array(s, p, depth, acc, r),
                SpecEvent::Eof => r matches Err(c) && c == ErrClass::TruncatedInput,
            },
        }
    }
}

#[via_fn]
proof fn via_sp_array(
    s: Seq<char>,
    pos: int,
    depth: int,
    acc: Seq<SpecValue>,
    r: Result<(SpecValue, int), ErrClass>,
) {
    if 0 <= pos <= s.len() {
        lemma_next_event_progress(s, pos);
    }
}

/// Parse one primitive value: accumulate text (comments skipped, pieces
/// joined with one space) until the matching end tag, then convert per the
/// element name.  Matches `sp_prim`: the text per `spec_prim_text` (a
/// differently-named end tag is a tag-mismatch error, end of input a
/// truncation error), the conversion per `sp_convert_rel`.
fn parse_primitive_value(
    s: &str,
    n: usize,
    pos: usize,
    starttag: &String,
    encoding: &Option<String>,
    empty: bool,
) -> (r: Result<(LLSDValue, usize), LLSDError>)
    requires
        n == s@.len(),
        pos <= n,
    ensures
        r matches Ok((v, p)) ==> wf(v@) && pos <= p <= n,
        sp_prim(
            s@,
            pos as int,
            starttag@,
            match encoding {
                Some(e) => Some(e@),
                None => None,
            },
            empty,
            match r {
                Ok((v, p)) => Ok((v@, p as int)),
                Err(e) => Err(e.class()),
            },
        ),
{
    let mut text = String::new();
    let mut have = false;
    let mut cur = pos;
    if !empty {
        loop
            invariant
                !empty,
                pos <= cur <= n,
                n == s@.len(),
                spec_prim_text(s@, pos as int, starttag@, Seq::empty(), false) == spec_prim_text(
                    s@,
                    cur as int,
                    starttag@,
                    text@,
                    have,
                ),
            decreases n - cur,
        {
            match next_event(s, n, cur) {
                Err(e) => {
                    return Err(e);
                },
                Ok((ev, p)) => {
                    match ev {
                        XmlEvent::Text(t) => {
                            proof {
                                if have {
                                    assert(text@.push(' ') + t@ =~= text@ + seq![' '] + t@);
                                }
                            }
                            if have {
                                push_char(&mut text, ' ');
                            }
                            text.append(t.as_str());
                            have = true;
                            cur = p;
                        },
                        XmlEvent::End(nm) => {
                            if !str_eq_str(nm.as_str(), starttag.as_str()) {
                                return Err(LLSDError::TagMismatch {
                                    open: starttag.clone(),
                                    close: nm,
                                    position: cur,
                                });
                            }
                            proof {
                                assert(spec_prim_text(
                                    s@,
                                    pos as int,
                                    starttag@,
                                    Seq::empty(),
                                    false,
                                ) == Ok::<(Seq<char>, int), ErrClass>((text@, p as int)));
                            }
                            match convert_primitive(starttag, &text, encoding, p) {
                                Ok(v) => {
                                    return Ok((v, p));
                                },
                                Err(e) => {
                                    return Err(e);
                                },
                            }
                        },
                        XmlEvent::Start(nm, _e2, _em) => {
                            return Err(LLSDError::UnknownElementName { name: nm, position: cur });
                        },
                        XmlEvent::Eof => {
                            return Err(LLSDError::TruncatedInput { offset: cur });
                        },
                    }
                },
            }
        }
    }
    proof {
        assert(text@ =~= Seq::<char>::empty());
    }
    match convert_primitive(starttag, &text, encoding, cur) {
        Ok(v) => Ok((v, cur)),
        Err(e) => Err(e),
    }
}

/// Parse one value, entered with its start tag already read: `map` and
/// `array` descend recursively under the depth budget, every other known
/// element name is a primitive; an unknown name is an error.  Matches the
/// decode relation `sp_value`, error classes included.
fn parse_value(
    s: &str,
    n: usize,
    pos: usize,
    starttag: &String,
    encoding: &Option<String>,
    empty: bool,
    depth: u32,
) -> (r: Result<(LLSDValue, usize), LLSDError>)
    requires
        n == s@.len(),
        pos <= n,
    ensures
        r matches Ok((v, p)) ==> wf(v@) && pos <= p <= n,
        sp_value(
            s@,
            pos as int,
            starttag@,
            match encoding {
                Some(e) => Some(e@),
                None => None,
            },
            empty,
            depth as int,
            match r {
                Ok((v, p)) => Ok((v@, p as int)),
                Err(e) => Err(e.class()),
            },
        ),
    decreases depth, 3int,
{
    if depth == 0 {
        return Err(LLSDError::DepthLimitExceeded);
    }
    if str_eq_str(starttag.as_str(), "map") {
        parse_map(s, n, pos, empty, depth)
    } else if str_eq_str(starttag.as_str(), "array") {
        parse_array(s, n, pos, empty, depth)
    } else if str_eq_str(starttag.as_str(), "undef") || str_eq_str(starttag.as_str(), "null")
        || str_eq_str(starttag.as_str(), "boolean") || str_eq_str(starttag.as_str(), "bool")
        || str_eq_str(starttag.as_str(), "integer") || str_eq_str(starttag.as_str(), "real")
        || str_eq_str(starttag.as_str(), "string") || str_eq_str(starttag.as_str(), "uri")
        || str_eq_str(starttag.as_str(), "uuid") || str_eq_str(starttag.as_str(), "date")
        || str_eq_str(starttag.as_str(), "binary") {
        parse_primitive_value(s, n, pos, starttag, encoding, empty)
    } else {
        Err(LLSDError::UnknownElementName { name: starttag.clone(), position: pos })
    }
}

/// Parse a map: repeated `key` elements, each immediately followed by one
/// value element; a repeated key keeps the value written last; the matching
/// `</map>` ends it.  Matches the decode relation `sp_map`.
fn parse_map(s: &str, n: usize, pos: usize, empty: bool, depth: u32) -> (r: Result<
    (LLSDValue, usize),
    LLSDError,
>)
    requires
        n == s@.len(),
        pos <= n,
        depth >= 1,
    ensures
        r matches Ok((v, p)) ==> wf(v@) && pos <= p <= n,
        empty ==> (r matches Ok((v, p)) && p == pos && v@ == SpecValue::Mapping(
            Seq::<(Seq<char>, SpecValue)>::empty(),
        )),
        !empty ==> sp_map(
            s@,
            pos as int,
            depth as int,
            Seq::empty(),
            match r {
                Ok((v, p)) => Ok((v@, p as int)),
                Err(e) => Err(e.class()),
            },
        ),
    decreases depth, 2int,
{
    let mut pairs: Vec<(String, LLSDValue)> = Vec::new();
    proof {
        assert(model_pairs(pairs@) =~= Seq::<(Seq<char>, SpecValue)>::empty());
    }
    if empty {
        return Ok((LLSDValue::Mapping(pairs), pos));
    }
    let mut cur = pos;
    loop
        invariant
            !empty,
            pos <= cur <= n,
            n == s@.len(),
            depth >= 1,
            keys_unique(model_pairs(pairs@)),
            wf_pairs(model_pairs(pairs@)),
            forall|r2: Result<(SpecValue, int), ErrClass>|
                sp_map(s@, cur as int, depth as int, model_pairs(pairs@), r2) ==> #[trigger] sp_map(
                    s@,
                    pos as int,
                    depth as int,
                    Seq::empty(),
                    r2,
                ),
        decreases n - cur,
    {
        match next_event(s, n, cur) {
            Err(e) => {
                return Err(e);
            },
            Ok((ev, p)) => {
                match ev {
                    XmlEvent::Start(nm, _e2, empty2) => {
                        if !str_eq_str(nm.as_str(), "key") {
                            return Err(LLSDError::UnknownElementName { name: nm, position: cur });
                        }
                        match parse_map_entry(s, n, p, empty2, depth) {
                            Ok(((k, v), p2)) => {
                                let ghost mold = model_pairs(pairs@);
                                let ghost kv = model(v);
                                let ghost kk = k@;
                                proof {
                                    lemma_assoc_set_unique(mold, kk, kv);
                                    lemma_assoc_set_wf_pairs(mold, kk, kv);
                                    assert(decode_split(kv, p2 as int));
                                    assert forall|r2: Result<(SpecValue, int), ErrClass>|
                                        sp_map(
                                            s@,
                                            p2 as int,
                                            depth as int,
                                            crate::binary::assoc_set(mold, kk, kv),
                                            r2,
                                        ) implies #[trigger] sp_map(
                                        s@,
                                        pos as int,
                                        depth as int,
                                        Seq::empty(),
                                        r2,
                                    ) by {
                                        assert(sp_map(
                                            s@,
                                            cur as int,
                                            depth as int,
                                            mold,
                                            r2,
                                        ));
                                    }
                                }
                                map_insert(&mut pairs, k, v);
                                cur = p2;
                            },
                            Err(e) => {
                                proof {
                                    assert(err_pick(e.class()));
                                }
                                return Err(e);
                            },
                        }
                    },
                    XmlEvent::End(nm) => {
                        if !str_eq_str(nm.as_str(), "map") {
                            return Err(LLSDError::TagMismatch {
                                open: "map".to_owned(),
                                close: nm,
                                position: cur,
                            });
                        }
                        return Ok((LLSDValue::Mapping(pairs), p));
                    },
                    XmlEvent::Text(_) => {
                        cur = p;
                    },
                    XmlEvent::Eof => {
                        return Err(LLSDError::TruncatedInput { offset: cur });
                    },
                }
            },
        }
    }
}

/// Parse one map entry, entered with the `key` start tag read: the key's
/// text up to `</key>`, then exactly one value element.  Matches the decode
/// relation `sp_entry`.
fn parse_map_entry(s: &str, n: usize, pos: usize, key_empty: bool, depth: u32) -> (r: Result<
    ((String, LLSDValue), usize),
    LLSDError,
>)
    requires
        n == s@.len(),
        pos <= n,
        depth >= 1,
    ensures
        r matches Ok(((k, v), p)) ==> wf(v@) && pos < p <= n,
        sp_entry(
            s@,
            pos as int,
            key_empty,
            depth as int,
            match r {
                Ok(((k, v), p)) => Ok(((k@, v@), p as int)),
                Err(e) => Err(e.class()),
            },
        ),
    decreases depth, 1int,
{
    let mut key = String::new();
    let mut have = false;
    let mut cur = pos;
    if !key_empty {
        loop
            invariant
                !key_empty,
                pos <= cur <= n,
                n == s@.len(),
                depth >= 1,
                spec_prim_text(s@, pos as int, "key"@, Seq::empty(), false) == spec_prim_text(
                    s@,
                    cur as int,
                    "key"@,
                    key@,
                    have,
                ),
            decreases n - cur,
        {
            match next_event(s, n, cur) {
                Err(e) => {
                    return Err(e);
                },
                Ok((ev, p)) => {
                    match ev {
                        XmlEvent::Text(t) => {
                            proof {
                                if have {
                                    assert(key@.push(' ') + t@ =~= key@ + seq![' '] + t@);
                                }
                            }
                            if have {
                                push_char(&mut key, ' ');
                            }
                            key.append(t.as_str());
                            have = true;
                            cur = p;
                        },
                        XmlEvent::End(nm) => {
                            if !str_eq_str(nm.as_str(), "key") {
                                return Err(LLSDError::TagMismatch {
                                    open: "key".to_owned(),
                                    close: nm,
                                    position: cur,
                                });
                            }
                            proof {
                                assert(spec_prim_text(s@, pos as int, "key"@, Seq::empty(), false)
                                    == Ok::<(Seq<char>, int), ErrClass>((key@, p as int)));
                            }
                            return finish_map_entry(s, n, p, key, depth);
                        },
                        XmlEvent::Start(nm, _e2, _em) => {
                            return Err(LLSDError::UnknownElementName { name: nm, position: cur });
                        },
                        XmlEvent::Eof => {
                            return Err(LLSDError::TruncatedInput { offset: cur });
                        },
                    }
                },
            }
        }
    }
    finish_map_entry(s, n, cur, key, depth)
}

/// Parse the value element that completes a map entry, the key in hand.
fn finish_map_entry(s: &str, n: usize, pk: usize, key: String, depth: u32) -> (r: Result<
    ((String, LLSDValue), usize),
    LLSDError,
>)
    requires
        n == s@.len(),
        pk <= n,
        depth >= 1,
    ensures
        r matches Ok(((k, v), p)) ==> wf(v@) && pk < p <= n,
        (match spec_next_event(s@, pk as int) {
            Err(c) => (r matches Err(e) && e.class() == c),
            Ok((ev, p)) => match ev {
                SpecEvent::Start(tag2, enc2, emp2) => (match r {
                    Ok(((k, v), p2)) => k@ == key@ && sp_value(
                        s@,
                        p,
                        tag2,
                        enc2,
                        emp2,
                        depth as int - 1,
                        Ok((v@, p2 as int)),
                    ),
                    Err(e) => sp_value(
                        s@,
                        p,
                        tag2,
                        enc2,
                        emp2,
                        depth as int - 1,
                        Err::<(SpecValue, int), ErrClass>(e.class()),
                    ),
                }),
                SpecEvent::Eof => (r matches Err(e) && e.class() == ErrClass::TruncatedInput),
                SpecEvent::End(nm) => (r matches Err(e) && e.class()
                    == ErrClass::UnknownElementName),
                SpecEvent::Text(t) => (r matches Err(e) && e.class()
                    == ErrClass::UnknownElementName),
            },
        }),
    decreases depth, 0int,
{
    match next_event(s, n, pk) {
        Err(e) => Err(e),
        Ok((ev, p)) => {
            match ev {
                XmlEvent::Start(tag2, enc2, empty2) => {
                    match parse_value(s, n, p, &tag2, &enc2, empty2, depth - 1) {
                        Ok((v, p2)) => Ok(((key, v), p2)),
                        Err(e) => Err(e),
                    }
                },
                XmlEvent::Eof => Err(LLSDError::TruncatedInput { offset: pk }),
                XmlEvent::End(nm) => Err(
                    LLSDError::UnknownElementName { name: nm, position: pk },
                ),
                XmlEvent::Text(t) => Err(LLSDError::UnknownElementName { name: t, position: pk }),
            }
        },
    }
}

/// Parse an array: successive value elements until the matching
/// `</array>`.  Matches the decode relation `sp_array`.
fn parse_array(s: &str, n: usize, pos: usize, empty: bool, depth: u32) -> (r: Result<
    (LLSDValue, usize),
    LLSDError,
>)
    requires
        n == s@.len(),
        pos <= n,
        depth >= 1,
    ensures
        r matches Ok((v, p)) ==> wf(v@) && pos <= p <= n,
        empty ==> (r matches Ok((v, p)) && p == pos && v@ == SpecValue::Array(
            Seq::<SpecValue>::empty(),
        )),
        !empty ==> sp_array(
            s@,
            pos as int,
            depth as int,
            Seq::empty(),
            match r {
                Ok((v, p)) => Ok((v@, p as int)),
                Err(e) => Err(e.class()),
            },
        ),
    decreases depth, 2int,
{
    let mut vals: Vec<LLSDValue> = Vec::new();
    proof {
        assert(model_seq(vals@) =~= Seq::<SpecValue>::empty());
    }
    if empty {
        return Ok((LLSDValue::Array(vals), pos));
    }
    let mut cur = pos;
    loop
        invariant
            !empty,
            pos <= cur <= n,
            n == s@.len(),
            depth >= 1,
            wf_seq(model_seq(vals@)),
            forall|r2: Result<(SpecValue, int), ErrClass>|
                sp_array(s@, cur as int, depth as int, model_seq(vals@), r2)
                    ==> #[trigger] sp_array(s@, pos as int, depth as int, Seq::empty(), r2),
        decreases n - cur,
    {
        match next_event(s, n, cur) {
            Err(e) => {
                return Err(e);
            },
            Ok((ev, p)) => {
                match ev {
                    XmlEvent::Start(nm, enc2, empty2) => {
                        match parse_value(s, n, p, &nm, &enc2, empty2, depth - 1) {
                            Ok((v, p2)) => {
                                let ghost vv = model(v);
                                let ghost mold = model_seq(vals@);
                                proof {
                                    lemma_wf_seq_push(mold, vv);
                                    lemma_model_seq_push(vals@, v);
                                    assert(decode_split(vv, p2 as int));
                                    assert forall|r2: Result<(SpecValue, int), ErrClass>|
                                        sp_array(
                                            s@,
                                            p2 as int,
                                            depth as int,
                                            mold.push(vv),
                                            r2,
                                        ) implies #[trigger] sp_array(
                                        s@,
                                        pos as int,
                                        depth as int,
                                        Seq::empty(),
                                        r2,
                                    ) by {
                                        assert(sp_array(s@, cur as int, depth as int, mold, r2));
                                    }
                                }
                                vals.push(v);
                                cur = p2;
                            },
                            Err(e) => {
                                proof {
                                    assert(err_pick(e.class()));
                                }
                                return Err(e);
                            },
                        }
                    },
                    XmlEvent::End(nm) => {
                        if !str_eq_str(nm.as_str(), "array") {
                            return Err(LLSDError::TagMismatch {
                                open: "array".to_owned(),
                                close: nm,
                                position: cur,
                            });
                        }
                        return Ok((LLSDValue::Array(vals), p));
                    },
                    XmlEvent::Text(_) => {
                        cur = p;
                    },
                    XmlEvent::Eof => {
                        return Err(LLSDError::TruncatedInput { offset: cur });
                    },
                }
            },
        }
    }
}

/// Parse an ISO 8601 / RFC 3339 date, truncated to whole seconds.
fn parse_date(text: &str, position: usize) -> (r: Result<i64, LLSDError>)
    ensures
        r matches Ok(d) ==> date_secs_of(text@) == Some(d),
        r matches Err(e) ==> date_secs_of(text@) is None && e.class()
            == ErrClass::InvalidNumericLiteral,
{
    match date_parse(text) {
        Some(d) => Ok(d),
        None => Err(LLSDError::InvalidNumericLiteral { text: text.to_owned(), position }),
    }
}

/// Decode a binary element's text per its `encoding` attribute: base64 when
/// the attribute is absent or says so, base16 and base85 likewise; any
/// other encoding name, or a payload the named encoding rejects, is an
/// error.
fn parse_binary(text: &str, encoding: &Option<String>, position: usize) -> (r: Result<
    Vec<u8>,
    LLSDError,
>)
    ensures
        (match encoding {
            Option::None => true,
            Option::Some(e) => e@ == "base64"@,
        }) ==> (match r {
            Ok(v) => base64_bytes_of(text@) == Some(v@),
            Err(err) => base64_bytes_of(text@) is None && err.class()
                == ErrClass::InvalidEncoding,
        }),
        (encoding matches Some(e) && e@ == "base16"@) ==> (match r {
            Ok(v) => spec_hex_decode(text@) == Some(v@),
            Err(err) => spec_hex_decode(text@) is None && err.class() == ErrClass::InvalidEncoding,
        }),
        (encoding matches Some(e) && e@ == "base85"@) ==> (match r {
            Ok(v) => a85_call_safe(a85_clean(text@)) && a85_bytes_of(a85_clean(text@)) == Some(
                v@,
            ),
            Err(err) => (!a85_call_safe(a85_clean(text@)) || a85_bytes_of(a85_clean(text@))
                is None) && err.class() == ErrClass::InvalidEncoding,
        }),
        (encoding matches Some(e) && e@ != "base64"@ && e@ != "base16"@ && e@ != "base85"@) ==> (
        r matches Err(err) && err.class() == ErrClass::InvalidEncoding),
{
    proof {
        reveal_strlit("base64");
        reveal_strlit("base16");
        reveal_strlit("base85");
        assert("base64"@ != "base16"@ && "base64"@ != "base85"@ && "base16"@ != "base85"@) by {
            assert("base64"@[4] == '6' && "base16"@[4] == '1' && "base85"@[4] == '8');
        }
    }
    let enc_is_default = match encoding {
        Option::None => true,
        Option::Some(e) => str_eq_str(e.as_str(), "base64"),
    };
    if enc_is_default {
        match base64_decode(text) {
            Some(v) => Ok(v),
            None => Err(LLSDError::InvalidEncoding { detail: text.to_owned(), position }),
        }
    } else {
        let e = match encoding {
            Option::Some(e) => e,
            Option::None => {
                return Err(LLSDError::InvalidEncoding { detail: String::new(), position });
            },
        };
        if str_eq_str(e.as_str(), "base16") {
            match hex_decode(text) {
                Some(v) => Ok(v),
                None => Err(LLSDError::InvalidEncoding { detail: text.to_owned(), position }),
            }
        } else if str_eq_str(e.as_str(), "base85") {
            match b85_decode(text) {
                Some(v) => Ok(v),
                None => Err(LLSDError::InvalidEncoding { detail: text.to_owned(), position }),
            }
        } else {
            Err(LLSDError::InvalidEncoding { detail: e.clone(), position })
        }
    }
}

/// All Date leaves lie where the calendar utility formats them with a
/// four-digit year, so that text encoding succeeds.
pub open spec fn dates_ok(v: SpecValue) -> bool
    decreases v,
{
    match v {
        SpecValue::Date(d) => -62167219200 <= d <= 253402300799,
        SpecValue::Mapping(ps) => dates_ok_pairs(ps),
        SpecValue::Array(cs) => dates_ok_seq(cs),
        _ => true,
    }
}

pub open spec fn dates_ok_seq(cs: Seq<SpecValue>) -> bool
    decreases cs,
{
    cs.len() == 0 || (dates_ok(cs[0]) && dates_ok_seq(cs.drop_first()))
}

pub open spec fn dates_ok_pairs(ps: Seq<(Seq<char>, SpecValue)>) -> bool
    decreases ps,
{
    ps.len() == 0 || (dates_ok(ps[0].1) && dates_ok_pairs(ps.drop_first()))
}

proof fn lemma_dates_ok_seq_index(cs: Seq<SpecValue>, i: int)
    requires
        0 <= i < cs.len(),
        !dates_ok(cs[i]),
    ensures
        !dates_ok_seq(cs),
    decreases cs,
{
    if i > 0 {
        lemma_dates_ok_seq_index(cs.drop_first(), i - 1);
    }
}

proof fn lemma_dates_ok_pairs_index(ps: Seq<(Seq<char>, SpecValue)>, i: int)
    requires
        0 <= i < ps.len(),
        !dates_ok(ps[i].1),
    ensures
        !dates_ok_pairs(ps),
    decreases ps,
{
    if i > 0 {
        lemma_dates_ok_pairs_index(ps.drop_first(), i - 1);
    }
}

/// The layout run before a composite child or closing tag: nothing when
/// pretty-printing is off, else a newline and `indent` spaces.
pub open spec fn spec_layout(spaces: int, indent: int) -> Seq<char> {
    if spaces > 0 {
        seq!['\n'] + Seq::new(indent as nat, |i: int| ' ')
    } else {
        Seq::empty()
    }
}

/// The indent composite children are generated at: one `spaces` step
/// deeper, held still against overflow on absurd inputs.
pub open spec fn spec_inner_indent(spaces: int, indent: int) -> int {
    if indent <= 100_000 && spaces <= 1_000 {
        indent + spaces
    } else {
        indent
    }
}

/// What a Real leaf's text may read as: a nonempty markup-safe token the
/// real-literal grammar accepts (the formatter emits the exact decimal of
/// the bit pattern), and exactly the `nan` token for NaN patterns.
pub open spec fn real_leaf_ok(bits: u64, t: Seq<char>) -> bool {
    text_token(t) && spec_real_accepted(t) && t.len() > 0 && (is_nan_bits(bits) ==> t == seq![
        'n',
        'a',
        'n',
    ])
}

/// Marks the decomposition a generated run is witnessed by; used as the
/// quantifier trigger for the generation relations.
pub open spec fn encode_split(rest: Seq<char>, e: Seq<char>) -> bool {
    true
}

/// The element text one value generates: one open/close tag pair per node,
/// leaf texts in their spec forms, composite children each behind a layout
/// break and one `spaces` step deeper.
pub open spec fn xml_encodes(v: SpecValue, spaces: int, indent: int, s: Seq<char>) -> bool
    decreases v,
{
    match v {
        SpecValue::Undefined => s == "<undef></undef>"@,
        SpecValue::Boolean(b) => s == (if b {
            "<boolean>true</boolean>"@
        } else {
            "<boolean>false</boolean>"@
        }),
        SpecValue::Integer(n) => s == "<integer>"@ + spec_i32_text(n) + "</integer>"@,
        SpecValue::Real(bits) => exists|t: Seq<char>| #![trigger encode_split(t, t)]
            s == "<real>"@ + t + "</real>"@ && real_leaf_ok(bits, t),
        SpecValue::Uuid(b) => s == "<uuid>"@ + spec_uuid_text(b) + "</uuid>"@,
        SpecValue::Str(t) => s == "<string>"@ + spec_escape(t) + "</string>"@,
        SpecValue::Date(d) => s == "<date>"@ + date_text_of(d) + "</date>"@,
        SpecValue::Uri(t) => s == "<uri>"@ + spec_escape(t) + "</uri>"@,
        SpecValue::Binary(b) => s == "<binary>"@ + base64_text_of(b) + "</binary>"@,
        SpecValue::Mapping(ps) => exists|body: Seq<char>| #![trigger encode_split(body, body)]
            s == "<map>"@ + body + spec_layout(spaces, indent) + "</map>"@ && xml_encodes_pairs(
                ps,
                spaces,
                spec_inner_indent(spaces, indent),
                body,
            ),
        SpecValue::Array(cs) => exists|body: Seq<char>| #![trigger encode_split(body, body)]
            s == "<array>"@ + body + spec_layout(spaces, indent) + "</array>"@ && xml_encodes_items(
                cs,
                spaces,
                spec_inner_indent(spaces, indent),
                body,
            ),
    }
}

/// The text a run of map entries generates: for each entry a layout break,
/// its `key` element, another layout break, and its value element.
pub open spec fn xml_encodes_pairs(
    ps: Seq<(Seq<char>, SpecValue)>,
    spaces: int,
    inner: int,
    s: Seq<char>,
) -> bool
    decreases ps,
{
    if ps.len() == 0 {
        s == Seq::<char>::empty()
    } else {
        exists|rest: Seq<char>, e: Seq<char>|
            #![trigger encode_split(rest, e)]
            s == rest + (spec_layout(spaces, inner) + "<key>"@ + spec_escape(ps.last().0)
                + "</key>"@ + spec_layout(spaces, inner) + e) && xml_encodes(
                ps.last().1,
                spaces,
                inner,
                e,
            ) && xml_encodes_pairs(ps.drop_last(), spaces, inner, rest)
    }
}

/// The text a run of array items generates: each behind a layout break.
pub open spec fn xml_encodes_items(
    cs: Seq<SpecValue>,
    spaces: int,
    inner: int,
    s: Seq<char>,
) -> bool
    decreases cs,
{
    if cs.len() == 0 {
        s == Seq::<char>::empty()
    } else {
        exists|rest: Seq<char>, e: Seq<char>|
            #![trigger encode_split(rest, e)]
            s == rest + (spec_layout(spaces, inner) + e) && xml_encodes(
                cs.last(),
                spaces,
                inner,
                e,
            ) && xml_encodes_items(cs.drop_last(), spaces, inner, rest)
    }
}

/// A full document: the declaration, the wrapper, one value element, and
/// the closing wrapper on its own line when pretty-printing is on.
pub open spec fn spec_xml_document(v: SpecValue, spaces: int, s: Seq<char>) -> bool {
    exists|e: Seq<char>| #![trigger encode_split(e, e)]
        s == "<?xml version=\"1.0\" encoding=\"UTF-8\"?>\n<llsd>"@ + e + (if spaces > 0 {
            seq!['\n']
        } else {
            Seq::<char>::empty()
        }) + "</llsd>\n"@ && xml_encodes(v, spaces, 0, e)
}

/// Appending one generated entry extends a generated run of map entries.
proof fn lemma_xml_encodes_pairs_push(
    ps: Seq<(Seq<char>, SpecValue)>,
    p: (Seq<char>, SpecValue),
    spaces: int,
    inner: int,
    s: Seq<char>,
    e: Seq<char>,
)
    requires
        xml_encodes_pairs(ps, spaces, inner, s),
        xml_encodes(p.1, spaces, inner, e),
    ensures
        xml_encodes_pairs(
            ps.push(p),
            spaces,
            inner,
            s + (spec_layout(spaces, inner) + "<key>"@ + spec_escape(p.0) + "</key>"@
                + spec_layout(spaces, inner) + e),
        ),
{
    let q = ps.push(p);
    assert(q.last() == p);
    assert(q.drop_last() =~= ps);
    assert(encode_split(s, e));
    assert(xml_encodes(q.last().1, spaces, inner, e));
    assert(xml_encodes_pairs(q.drop_last(), spaces, inner, s));
    assert(xml_encodes_pairs(
        q,
        spaces,
        inner,
        s + (spec_layout(spaces, inner) + "<key>"@ + spec_escape(q.last().0) + "</key>"@
            + spec_layout(spaces, inner) + e),
    ));
}

/// Appending one generated item extends a generated run of array items.
proof fn lemma_xml_encodes_items_push(
    cs: Seq<SpecValue>,
    v: SpecValue,
    spaces: int,
    inner: int,
    s: Seq<char>,
    e: Seq<char>,
)
    requires
        xml_encodes_items(cs, spaces, inner, s),
        xml_encodes(v, spaces, inner, e),
    ensures
        xml_encodes_items(cs.push(v), spaces, inner, s + (spec_layout(spaces, inner) + e)),
{
    let q = cs.push(v);
    assert(q.last() == v);
    assert(q.drop_last() =~= cs);
    assert(encode_split(s, e));
    assert(xml_encodes(q.last(), spaces, inner, e));
    assert(xml_encodes_items(q.drop_last(), spaces, inner, s));
    assert(xml_encodes_items(q, spaces, inner, s + (spec_layout(spaces, inner) + e)));
}

/// Append `count` spaces.
fn push_spaces(out: &mut String, count: usize)
    ensures
        final(out)@ == old(out)@ + Seq::new(count as nat, |i: int| ' '),
{
    let mut i: usize = 0;
    while i < count
        invariant
            i <= count,
            out@ == old(out)@ + Seq::new(i as nat, |q: int| ' '),
        decreases count - i,
    {
        push_char(out, ' ');
        proof {
            assert(out@ =~= old(out)@ + Seq::new((i + 1) as nat, |q: int| ' '));
        }
        i = i + 1;
    }
    proof {
        assert(out@ =~= old(out)@ + Seq::new(count as nat, |q: int| ' '));
    }
}

/// Append a newline and `indent` spaces when pretty-printing is on.
fn push_indent(out: &mut String, spaces: usize, indent: usize)
    ensures
        final(out)@ == old(out)@ + spec_layout(spaces as int, indent as int),
{
    if spaces > 0 {
        push_char(out, '\n');
        push_spaces(out, indent);
        proof {
            assert(out@ =~= old(out)@ + spec_layout(spaces as int, indent as int));
        }
    }
}

/// Generate one `<TAG>value</TAG>` element, recursing into composites and
/// indenting their children by `spaces` more (zero disables all layout).
/// Fails exactly where a Date leaf cannot be formatted.
#[verifier::rlimit(100)]
#[verifier::spinoff_prover]
fn generate_value(out: &mut String, val: &LLSDValue, spaces: usize, indent: usize) -> (r: Result<
    (),
    LLSDError,
>)
    requires
        wf(val@),
    ensures
        dates_ok(val@) ==> r is Ok,
        r is Err ==> !dates_ok(val@),
        r matches Ok(_) ==> old(out)@.len() <= final(out)@.len() && old(out)@ == final(out)@.take(
            old(out)@.len() as int,
        ) && xml_encodes(val@, spaces as int, indent as int, final(out)@.skip(
            old(out)@.len() as int,
        )),
    decreases val,
{
    let ghost base = old(out)@;
    match val {
        LLSDValue::Undefined => {
            out.append("<undef></undef>");
            proof {
                assert(out@.skip(base.len() as int) =~= "<undef></undef>"@);
                assert(base =~= out@.take(base.len() as int));
            }
            Ok(())
        },
        LLSDValue::Boolean(v) => {
            if *v {
                out.append("<boolean>true</boolean>");
                proof {
                    assert(out@.skip(base.len() as int) =~= "<boolean>true</boolean>"@);
                    assert(base =~= out@.take(base.len() as int));
                }
            } else {
                out.append("<boolean>false</boolean>");
                proof {
                    assert(out@.skip(base.len() as int) =~= "<boolean>false</boolean>"@);
                    assert(base =~= out@.take(base.len() as int));
                }
            }
            Ok(())
        },
        LLSDValue::Integer(v) => {
            out.append("<integer>");
            let t = format_i32(*v);
            out.append(t.as_str());
            out.append("</integer>");
            proof {
                assert(out@.skip(base.len() as int) =~= "<integer>"@ + spec_i32_text(*v)
                    + "</integer>"@);
                assert(base =~= out@.take(base.len() as int));
            }
            Ok(())
        },
        LLSDValue::Real(bits) => {
            out.append("<real>");
            let t = format_real(*bits);
            out.append(t.as_str());
            out.append("</real>");
            proof {
                assert(encode_split(t@, t@));
                assert(real_leaf_ok(*bits, t@));
                assert(out@.skip(base.len() as int) =~= "<real>"@ + t@ + "</real>"@);
                assert(base =~= out@.take(base.len() as int));
                assert(xml_encodes(val@, spaces as int, indent as int, out@.skip(
                    base.len() as int,
                )));
            }
            Ok(())
        },
        LLSDValue::UUID(b) => {
            out.append("<uuid>");
            let t = uuid_format(b);
            out.append(t.as_str());
            out.append("</uuid>");
            proof {
                assert(out@.skip(base.len() as int) =~= "<uuid>"@ + spec_uuid_text(b@)
                    + "</uuid>"@);
                assert(base =~= out@.take(base.len() as int));
            }
            Ok(())
        },
        LLSDValue::String(v) => {
            out.append("<string>");
            let t = xml_escape(v.as_str());
            out.append(t.as_str());
            out.append("</string>");
            proof {
                assert(out@.skip(base.len() as int) =~= "<string>"@ + spec_escape(v@)
                    + "</string>"@);
                assert(base =~= out@.take(base.len() as int));
            }
            Ok(())
        },
        LLSDValue::URI(v) => {
            out.append("<uri>");
            let t = xml_escape(v.as_str());
            out.append(t.as_str());
            out.append("</uri>");
            proof {
                assert(out@.skip(base.len() as int) =~= "<uri>"@ + spec_escape(v@) + "</uri>"@);
                assert(base =~= out@.take(base.len() as int));
            }
            Ok(())
        },
        LLSDValue::Date(d) => {
            match date_format(*d) {
                Some(t) => {
                    out.append("<date>");
                    out.append(t.as_str());
                    out.append("</date>");
                    proof {
                        assert(out@.skip(base.len() as int) =~= "<date>"@ + date_text_of(*d)
                            + "</date>"@);
                        assert(base =~= out@.take(base.len() as int));
                    }
                    Ok(())
                },
                None => Err(
                    LLSDError::InvalidNumericLiteral { text: format_i64(*d), position: 0 },
                ),
            }
        },
        LLSDValue::Binary(v) => {
            out.append("<binary>");
            let t = base64_encode(v);
            out.append(t.as_str());
            out.append("</binary>");
            proof {
                assert(out@.skip(base.len() as int) =~= "<binary>"@ + base64_text_of(v@)
                    + "</binary>"@);
                assert(base =~= out@.take(base.len() as int));
            }
            Ok(())
        },
        LLSDValue::Mapping(ps) => {
            proof {
                assert(decreases_to!(*val => *ps));
            }
            out.append("<map>");
            let ghost s1 = out@;
            match generate_xml_pairs(out, ps, spaces, indent) {
                Ok(()) => {
                    let ghost s2 = out@;
                    let ghost body = s2.skip(s1.len() as int);
                    push_indent(out, spaces, indent);
                    out.append("</map>");
                    proof {
                        assert(s2 =~= s2.take(s1.len() as int) + body);
                        assert(encode_split(body, body));
                        assert(out@.skip(base.len() as int) =~= "<map>"@ + body + spec_layout(
                            spaces as int,
                            indent as int,
                        ) + "</map>"@);
                        assert(xml_encodes(val@, spaces as int, indent as int, out@.skip(
                            base.len() as int,
                        )));
                        assert(base =~= out@.take(base.len() as int));
                    }
                    Ok(())
                },
                Err(e) => Err(e),
            }
        },
        LLSDValue::Array(cs) => {
            proof {
                assert(decreases_to!(*val => *cs));
            }
            out.append("<array>");
            let ghost s1 = out@;
            match generate_xml_items(out, cs, spaces, indent) {
                Ok(()) => {
                    let ghost s2 = out@;
                    let ghost body = s2.skip(s1.len() as int);
                    push_indent(out, spaces, indent);
                    out.append("</array>");
                    proof {
                        assert(s2 =~= s2.take(s1.len() as int) + body);
                        assert(encode_split(body, body));
                        assert(out@.skip(base.len() as int) =~= "<array>"@ + body + spec_layout(
                            spaces as int,
                            indent as int,
                        ) + "</array>"@);
                        assert(xml_encodes(val@, spaces as int, indent as int, out@.skip(
                            base.len() as int,
                        )));
                        assert(base =~= out@.take(base.len() as int));
                    }
                    Ok(())
                },
                Err(e) => Err(e),
            }
        },
    }
}

/// Generate a map's `key`/value pairs in insertion order.
#[verifier::rlimit(100)]
#[verifier::spinoff_prover]
fn generate_xml_pairs(
    out: &mut String,
    ps: &Vec<(String, LLSDValue)>,
    spaces: usize,
    indent: usize,
) -> (r: Result<(), LLSDError>)
    requires
        wf_pairs(model_pairs(ps@)),
    ensures
        dates_ok_pairs(model_pairs(ps@)) ==> r is Ok,
        r is Err ==> !dates_ok_pairs(model_pairs(ps@)),
        r matches Ok(_) ==> old(out)@.len() <= final(out)@.len() && old(out)@ == final(out)@.take(
            old(out)@.len() as int,
        ) && xml_encodes_pairs(
            model_pairs(ps@),
            spaces as int,
            spec_inner_indent(spaces as int, indent as int),
            final(out)@.skip(old(out)@.len() as int),
        ),
    decreases ps,
{
    let ghost m = model_pairs(ps@);
    let ghost base = old(out)@;
    proof {
        crate::lemma_model_pairs_len(ps@);
    }
    let inner = if indent <= 100_000 && spaces <= 1_000 {
        indent + spaces
    } else {
        indent
    };
    let ghost innr = spec_inner_indent(spaces as int, indent as int);
    proof {
        assert(inner as int == innr);
        assert(base.skip(base.len() as int) =~= Seq::<char>::empty());
        assert(base =~= base.take(base.len() as int));
    }
    let n = ps.len();
    let mut i: usize = 0;
    while i < n
        invariant
            i <= n,
            n == ps@.len(),
            m == model_pairs(ps@),
            m.len() == n,
            wf_pairs(m),
            inner as int == innr,
            innr == spec_inner_indent(spaces as int, indent as int),
            base.len() <= out@.len(),
            base == out@.take(base.len() as int),
            xml_encodes_pairs(m.take(i as int), spaces as int, innr, out@.skip(base.len() as int)),
        decreases n - i,
    {
        proof {
            crate::lemma_model_pairs_index(ps@, i as int);
            crate::lemma_wf_pairs_index(m, i as int);
            assert(decreases_to!(*ps => ps@));
            assert(decreases_to!(ps@ => ps@[i as int]));
            assert(decreases_to!(ps@[i as int] => ps@[i as int].1));
        }
        let ghost acc0 = out@.skip(base.len() as int);
        push_indent(out, spaces, inner);
        out.append("<key>");
        let entry = &ps[i];
        let kt = xml_escape(entry.0.as_str());
        out.append(kt.as_str());
        out.append("</key>");
        push_indent(out, spaces, inner);
        let ghost s5 = out@;
        match generate_value(out, &entry.1, spaces, inner) {
            Ok(()) => {},
            Err(e) => {
                proof {
                    lemma_dates_ok_pairs_index(m, i as int);
                }
                return Err(e);
            },
        }
        proof {
            let e = out@.skip(s5.len() as int);
            assert(out@ =~= out@.take(s5.len() as int) + e);
            assert(xml_encodes(m[i as int].1, spaces as int, innr, e));
            lemma_xml_encodes_pairs_push(
                m.take(i as int),
                m[i as int],
                spaces as int,
                innr,
                acc0,
                e,
            );
            assert(m.take(i + 1) =~= m.take(i as int).push(m[i as int]));
            assert(out@.skip(base.len() as int) =~= acc0 + (spec_layout(spaces as int, innr)
                + "<key>"@ + spec_escape(m[i as int].0) + "</key>"@ + spec_layout(
                spaces as int,
                innr,
            ) + e));
            assert(base =~= out@.take(base.len() as int));
        }
        i = i + 1;
    }
    proof {
        assert(m.take(n as int) =~= m);
    }
    Ok(())
}

/// Generate an array's elements in index order.
#[verifier::rlimit(100)]
#[verifier::spinoff_prover]
fn generate_xml_items(
    out: &mut String,
    cs: &Vec<LLSDValue>,
    spaces: usize,
    indent: usize,
) -> (r: Result<(), LLSDError>)
    requires
        wf_seq(model_seq(cs@)),
    ensures
        dates_ok_seq(model_seq(cs@)) ==> r is Ok,
        r is Err ==> !dates_ok_seq(model_seq(cs@)),
        r matches Ok(_) ==> old(out)@.len() <= final(out)@.len() && old(out)@ == final(out)@.take(
            old(out)@.len() as int,
        ) && xml_encodes_items(
            model_seq(cs@),
            spaces as int,
            spec_inner_indent(spaces as int, indent as int),
            final(out)@.skip(old(out)@.len() as int),
        ),
    decreases cs,
{
    let ghost m = model_seq(cs@);
    let ghost base = old(out)@;
    proof {
        crate::lemma_model_seq_len(cs@);
    }
    let inner = if indent <= 100_000 && spaces <= 1_000 {
        indent + spaces
    } else {
        indent
    };
    let ghost innr = spec_inner_indent(spaces as int, indent as int);
    proof {
        assert(inner as int == innr);
        assert(base.skip(base.len() as int) =~= Seq::<char>::empty());
        assert(base =~= base.take(base.len() as int));
    }
    let n = cs.len();
    let mut i: usize = 0;
    while i < n
        invariant
            i <= n,
            n == cs@.len(),
            m == model_seq(cs@),
            m.len() == n,
            wf_seq(m),
            inner as int == innr,
            innr == spec_inner_indent(spaces as int, indent as int),
            base.len() <= out@.len(),
            base == out@.take(base.len() as int),
            xml_encodes_items(m.take(i as int), spaces as int, innr, out@.skip(base.len() as int)),
        decreases n - i,
    {
        proof {
            crate::lemma_model_seq_index(cs@, i as int);
            crate::lemma_wf_seq_index(m, i as int);
            assert(decreases_to!(*cs => cs@));
            assert(decreases_to!(cs@ => cs@[i as int]));
        }
        let ghost acc0 = out@.skip(base.len() as int);
        push_indent(out, spaces, inner);
        let ghost s1 = out@;
        match generate_value(out, &cs[i], spaces, inner) {
            Ok(()) => {},
            Err(e) => {
                proof {
                    lemma_dates_ok_seq_index(m, i as int);
                }
                return Err(e);
            },
        }
        proof {
            let e = out@.skip(s1.len() as int);
            assert(out@ =~= out@.take(s1.len() as int) + e);
            assert(xml_encodes(m[i as int], spaces as int, innr, e));
            lemma_xml_encodes_items_push(
                m.take(i as int),
                m[i as int],
                spaces as int,
                innr,
                acc0,
                e,
            );
            assert(m.take(i + 1) =~= m.take(i as int).push(m[i as int]));
            assert(out@.skip(base.len() as int) =~= acc0 + (spec_layout(spaces as int, innr) + e));
            assert(base =~= out@.take(base.len() as int));
        }
        i = i + 1;
    }
    proof {
        assert(m.take(n as int) =~= m);
    }
    Ok(())
}

/// Render a well-formed value tree as a full XML document: the declaration,
/// the `<llsd>` wrapper, and the value, children indented by `spaces`
/// (zero disables pretty-printing).  Fails exactly where a Date leaf cannot
/// be formatted with a four-digit year.
pub fn to_xml_string_indent(val: &LLSDValue, spaces: usize) -> (r: Result<String, LLSDError>)
    requires
        wf(val@),
    ensures
        dates_ok(val@) ==> r is Ok,
        r is Err ==> !dates_ok(val@),
        r matches Ok(s) ==> spec_xml_document(val@, spaces as int, s@),
{
    let mut out = String::new();
    out.append("<?xml version=\"1.0\" encoding=\"UTF-8\"?>\n<llsd>");
    let ghost s1 = out@;
    proof {
        assert(s1 =~= "<?xml version=\"1.0\" encoding=\"UTF-8\"?>\n<llsd>"@);
    }
    match generate_value(&mut out, val, spaces, 0) {
        Ok(()) => {
            let ghost s2 = out@;
            let ghost e = s2.skip(s1.len() as int);
            if spaces > 0 {
                push_char(&mut out, '\n');
            }
            out.append("</llsd>\n");
            proof {
                assert(s2 =~= s2.take(s1.len() as int) + e);
                assert(encode_split(e, e));
                assert(out@ =~= "<?xml version=\"1.0\" encoding=\"UTF-8\"?>\n<llsd>"@ + e + (
                if spaces > 0 {
                    seq!['\n']
                } else {
                    Seq::<char>::empty()
                }) + "</llsd>\n"@);
                assert(spec_xml_document(val@, spaces as int, out@));
            }
            Ok(out)
        },
        Err(e) => Err(e),
    }
}

/// Render a well-formed value tree as an XML document, pretty-printed with
/// four-space indents or compact.
pub fn to_xml_string(val: &LLSDValue, pretty_print: bool) -> (r: Result<String, LLSDError>)
    requires
        wf(val@),
    ensures
        dates_ok(val@) ==> r is Ok,
        r is Err ==> !dates_ok(val@),
        r matches Ok(s) ==> spec_xml_document(
            val@,
            if pretty_print {
                4int
            } else {
                0int
            },
            s@,
        ),
{
    to_xml_string_indent(val, if pretty_print {
        4
    } else {
        0
    })
}

/// Pretty prints out the value as XML bytes, indenting nested blocks by the
/// given number of spaces (zero disables pretty-printing).
pub fn pretty(val: &LLSDValue, spaces: usize) -> (r: Result<Vec<u8>, LLSDError>)
    requires
        wf(val@),
    ensures
        dates_ok(val@) ==> r is Ok,
        r is Err ==> !dates_ok(val@),
        r matches Ok(bytes) ==> exists|t: Seq<char>|
            bytes@ == vstd::utf8::encode_utf8(t) && #[trigger] spec_xml_document(
                val@,
                spaces as int,
                t,
            ),
{
    match to_xml_string_indent(val, spaces) {
        Ok(s) => {
            let b = s.as_str().as_bytes_vec();
            proof {
                assert(spec_xml_document(val@, spaces as int, s@));
                assert(b@ == vstd::utf8::encode_utf8(s@));
            }
            Ok(b)
        },
        Err(e) => Err(e),
    }
}

/// Prints out the value as compact XML bytes: `pretty` with layout off.
pub fn dump(val: &LLSDValue) -> (r: Result<Vec<u8>, LLSDError>)
    requires
        wf(val@),
    ensures
        dates_ok(val@) ==> r is Ok,
        r is Err ==> !dates_ok(val@),
        r matches Ok(bytes) ==> exists|t: Seq<char>|
            bytes@ == vstd::utf8::encode_utf8(t) && #[trigger] spec_xml_document(val@, 0, t),
{
    pretty(val, 0)
}

} // verus!
