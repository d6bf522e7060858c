//! The binary wire codec: a fixed ASCII sentinel, then one value, each value
//! a single type-tag byte followed by its payload, big-endian fixed-width
//! fields, length-prefixed variable fields, and count-prefixed composites
//! closed by a terminator byte.
//!
//! `spec_message_decode` / `benc` are the specification; the executable
//! functions are proved to match them exactly, including the error class on
//! every failing input, and `lemma_binary_round_trip` shows that decoding an
//! encoded well-formed tree gives the tree back.

use vstd::prelude::*;

verus! {

broadcast use vstd::std_specs::vec::group_vec_axioms, vstd::seq::group_seq_axioms, vstd::slice::group_slice_axioms;

use vstd::utf8::{encode_utf8, decode_utf8, valid_utf8};

use crate::{LLSDValue, SpecValue, wf, keys_unique, wf_seq, wf_pairs, vdepth, vdepth_seq,
    vdepth_pairs, model_seq, model_pairs, lemma_model_seq_index, lemma_model_pairs_index,
    lemma_model_seq_len, lemma_model_pairs_len, lemma_model_seq_push, lemma_model_pairs_push, model};
use crate::err::{LLSDError, ErrClass};

/// Maximum nesting depth a decoder accepts; deeper input is reported as a
/// decode error rather than risking unbounded recursion.
pub const MAX_NESTING_DEPTH: u32 = 512;

/// The fixed sentinel that begins a full binary message: the ASCII bytes of
/// `<? LLSD/Binary ?>` and a newline.
pub open spec fn spec_sentinel() -> Seq<u8> {
    seq![60u8, 63, 32, 76, 76, 83, 68, 47, 66, 105, 110, 97, 114, 121, 32, 63, 62, 10]
}

/// The binary message sentinel as bytes.
pub fn binary_sentinel() -> (r: Vec<u8>)
    ensures
        r@ == spec_sentinel(),
{
    let mut v: Vec<u8> = Vec::new();
    v.push(60);
    v.push(63);
    v.push(32);
    v.push(76);
    v.push(76);
    v.push(83);
    v.push(68);
    v.push(47);
    v.push(66);
    v.push(105);
    v.push(110);
    v.push(97);
    v.push(114);
    v.push(121);
    v.push(32);
    v.push(63);
    v.push(62);
    v.push(10);
    proof {
        assert(v@ =~= spec_sentinel());
    }
    v
}

/// Big-endian bytes of a 32-bit value.
pub open spec fn be32(n: u32) -> Seq<u8> {
    seq![(n >> 24) as u8, (n >> 16) as u8, (n >> 8) as u8, n as u8]
}

/// Big-endian bytes of a 64-bit value.
pub open spec fn be64(n: u64) -> Seq<u8> {
    seq![
        (n >> 56) as u8,
        (n >> 48) as u8,
        (n >> 40) as u8,
        (n >> 32) as u8,
        (n >> 24) as u8,
        (n >> 16) as u8,
        (n >> 8) as u8,
        n as u8,
    ]
}

/// The 32-bit value read from four big-endian bytes.
pub open spec fn from_be32(s: Seq<u8>) -> u32 {
    ((s[0] as u32) << 24) | ((s[1] as u32) << 16) | ((s[2] as u32) << 8) | (s[3] as u32)
}

/// The 64-bit value read from eight big-endian bytes.
pub open spec fn from_be64(s: Seq<u8>) -> u64 {
    ((s[0] as u64) << 56) | ((s[1] as u64) << 48) | ((s[2] as u64) << 40) | ((s[3] as u64) << 32)
        | ((s[4] as u64) << 24) | ((s[5] as u64) << 16) | ((s[6] as u64) << 8) | (s[7] as u64)
}

pub broadcast proof fn lemma_from_be32_be32(n: u32)
    ensures
        #[trigger] from_be32(be32(n)) == n,
{
    assert((((n >> 24) as u8 as u32) << 24) | (((n >> 16) as u8 as u32) << 16) | (((n >> 8) as u8
        as u32) << 8) | (n as u8 as u32) == n) by (bit_vector);
}

pub broadcast proof fn lemma_from_be64_be64(n: u64)
    ensures
        #[trigger] from_be64(be64(n)) == n,
{
    assert((((n >> 56) as u8 as u64) << 56) | (((n >> 48) as u8 as u64) << 48) | (((n >> 40) as u8
        as u64) << 40) | (((n >> 32) as u8 as u64) << 32) | (((n >> 24) as u8 as u64) << 24) | (((n
        >> 16) as u8 as u64) << 16) | (((n >> 8) as u8 as u64) << 8) | (n as u8 as u64) == n)
        by (bit_vector);
}

/// Casting a 32-bit integer through its unsigned bit pattern and back is the
/// identity.
pub broadcast proof fn lemma_i32_u32_roundtrip(v: i32)
    ensures
        #[trigger] ((v as u32) as i32) == v,
{
    assert((v as u32) as i32 == v) by (bit_vector);
}

/// Casting a 64-bit integer through its unsigned bit pattern and back is the
/// identity.
pub broadcast proof fn lemma_i64_u64_roundtrip(v: i64)
    ensures
        #[trigger] ((v as u64) as i64) == v,
{
    assert((v as u64) as i64 == v) by (bit_vector);
}

/// The structural size limits the wire format imposes on an encodable tree:
/// every length and count fits the 4-byte length fields, and a UUID is
/// exactly 16 bytes.
pub open spec fn encodable(v: SpecValue) -> bool
    decreases v,
{
    match v {
        SpecValue::Uuid(b) => b.len() == 16,
        SpecValue::Str(s) => encode_utf8(s).len() < 0x1_0000_0000,
        SpecValue::Uri(s) => encode_utf8(s).len() < 0x1_0000_0000,
        SpecValue::Binary(b) => b.len() < 0x1_0000_0000,
        SpecValue::Mapping(ps) => ps.len() < 0x1_0000_0000 && encodable_pairs(ps),
        SpecValue::Array(cs) => cs.len() < 0x1_0000_0000 && encodable_seq(cs),
        _ => true,
    }
}

pub open spec fn encodable_seq(cs: Seq<SpecValue>) -> bool
    decreases cs,
{
    cs.len() == 0 || (encodable(cs[0]) && encodable_seq(cs.drop_first()))
}

pub open spec fn encodable_pairs(ps: Seq<(Seq<char>, SpecValue)>) -> bool
    decreases ps,
{
    ps.len() == 0 || (encode_utf8(ps[0].0).len() < 0x1_0000_0000 && encodable(ps[0].1)
        && encodable_pairs(ps.drop_first()))
}

pub broadcast proof fn lemma_encodable_seq_index(cs: Seq<SpecValue>, i: int)
    requires
        0 <= i < cs.len(),
        encodable_seq(cs),
    ensures
        #[trigger] encodable(cs[i]),
    decreases cs,
{
    if i > 0 {
        lemma_encodable_seq_index(cs.drop_first(), i - 1);
    }
}

pub broadcast proof fn lemma_encodable_pairs_index(ps: Seq<(Seq<char>, SpecValue)>, i: int)
    requires
        0 <= i < ps.len(),
        encodable_pairs(ps),
    ensures
        encode_utf8((#[trigger] ps[i]).0).len() < 0x1_0000_0000,
        encodable(ps[i].1),
    decreases ps,
{
    if i > 0 {
        lemma_encodable_pairs_index(ps.drop_first(), i - 1);
    }
}

/// The binary encoding of one value: a tag byte, then the payload.
pub open spec fn benc(v: SpecValue) -> Seq<u8>
    decreases v,
{
    match v {
        SpecValue::Undefined => seq![33u8],
        SpecValue::Boolean(b) => if b {
            seq![49u8]
        } else {
            seq![48u8]
        },
        SpecValue::Integer(n) => seq![105u8] + be32(n as u32),
        SpecValue::Real(bits) => seq![114u8] + be64(bits),
        SpecValue::Uuid(b) => seq![117u8] + b,
        SpecValue::Str(s) => seq![115u8] + be32(encode_utf8(s).len() as u32) + encode_utf8(s),
        SpecValue::Uri(s) => seq![108u8] + be32(encode_utf8(s).len() as u32) + encode_utf8(s),
        SpecValue::Date(d) => seq![100u8] + be64(d as u64),
        SpecValue::Binary(b) => seq![98u8] + be32(b.len() as u32) + b,
        SpecValue::Mapping(ps) => seq![123u8] + be32(ps.len() as u32) + benc_pairs(ps)
            + seq![125u8],
        SpecValue::Array(cs) => seq![91u8] + be32(cs.len() as u32) + benc_seq(cs) + seq![93u8],
    }
}

/// The concatenated encodings of array items.
pub open spec fn benc_seq(cs: Seq<SpecValue>) -> Seq<u8>
    decreases cs,
{
    if cs.len() == 0 {
        Seq::empty()
    } else {
        benc(cs[0]) + benc_seq(cs.drop_first())
    }
}

/// The concatenated encodings of map entries: each a `k` byte, a
/// length-prefixed key, then the entry's value.
pub open spec fn benc_pairs(ps: Seq<(Seq<char>, SpecValue)>) -> Seq<u8>
    decreases ps,
{
    if ps.len() == 0 {
        Seq::empty()
    } else {
        seq![107u8] + be32(encode_utf8(ps[0].0).len() as u32) + encode_utf8(ps[0].0) + benc(
            ps[0].1,
        ) + benc_pairs(ps.drop_first())
    }
}

/// Insert a key into an association sequence: the first entry with this key
/// is replaced in place, a fresh key is appended.
pub open spec fn assoc_set(
    ps: Seq<(Seq<char>, SpecValue)>,
    k: Seq<char>,
    v: SpecValue,
) -> Seq<(Seq<char>, SpecValue)>
    decreases ps,
{
    if ps.len() == 0 {
        seq![(k, v)]
    } else if ps[0].0 == k {
        seq![(k, v)] + ps.drop_first()
    } else {
        seq![ps[0]] + assoc_set(ps.drop_first(), k, v)
    }
}

/// The value an association sequence holds for a key, if any.
pub open spec fn assoc_get(ps: Seq<(Seq<char>, SpecValue)>, k: Seq<char>) -> Option<SpecValue>
    decreases ps,
{
    if ps.len() == 0 {
        None
    } else if ps[0].0 == k {
        Some(ps[0].1)
    } else {
        assoc_get(ps.drop_first(), k)
    }
}

/// After an insert, the inserted key reads back as the inserted value: the
/// duplicate-key policy is last write wins.
pub proof fn lemma_assoc_set_get(ps: Seq<(Seq<char>, SpecValue)>, k: Seq<char>, v: SpecValue)
    ensures
        assoc_get(assoc_set(ps, k, v), k) == Some(v),
    decreases ps,
{
    if ps.len() == 0 {
        assert(assoc_set(ps, k, v)[0] == (k, v));
    } else if ps[0].0 == k {
        assert(assoc_set(ps, k, v)[0] == (k, v));
    } else {
        lemma_assoc_set_get(ps.drop_first(), k, v);
        let r = assoc_set(ps, k, v);
        assert(r[0] == ps[0]);
        assert(r.drop_first() =~= assoc_set(ps.drop_first(), k, v));
    }
}

/// Duplicate-key policy: writing the same key twice, in either codec's
/// entry decoding, leaves the value written last.
pub proof fn lemma_duplicate_key_last_wins(
    m: Seq<(Seq<char>, SpecValue)>,
    k: Seq<char>,
    v1: SpecValue,
    v2: SpecValue,
)
    ensures
        assoc_get(assoc_set(assoc_set(m, k, v1), k, v2), k) == Some(v2),
{
    lemma_assoc_set_get(assoc_set(m, k, v1), k, v2);
}

/// Inserting a fresh key appends the pair.
pub proof fn lemma_assoc_set_fresh(ps: Seq<(Seq<char>, SpecValue)>, k: Seq<char>, v: SpecValue)
    requires
        forall|i: int| 0 <= i < ps.len() ==> (#[trigger] ps[i]).0 != k,
    ensures
        assoc_set(ps, k, v) == ps.push((k, v)),
    decreases ps,
{
    if ps.len() == 0 {
        assert(assoc_set(ps, k, v) =~= ps.push((k, v)));
    } else {
        assert(ps[0].0 != k);
        assert(forall|i: int|
            0 <= i < ps.drop_first().len() ==> (#[trigger] ps.drop_first()[i]).0 != k);
        lemma_assoc_set_fresh(ps.drop_first(), k, v);
        assert(assoc_set(ps, k, v) =~= ps.push((k, v)));
    }
}

/// What decoding one value at `pos` yields, given a remaining depth budget.
pub open spec fn bdec(b: Seq<u8>, pos: int, depth: nat) -> Result<(SpecValue, int), ErrClass>
    decreases depth, 1int, 0int,
{
    if depth == 0 {
        Err(ErrClass::DepthLimitExceeded)
    } else if pos < 0 || pos >= b.len() {
        Err(ErrClass::TruncatedInput)
    } else {
        let tag = b[pos];
        if tag == 33 {
            Ok((SpecValue::Undefined, pos + 1))
        } else if tag == 48 {
            Ok((SpecValue::Boolean(false), pos + 1))
        } else if tag == 49 {
            Ok((SpecValue::Boolean(true), pos + 1))
        } else if tag == 105 {
            if pos + 5 > b.len() {
                Err(ErrClass::TruncatedInput)
            } else {
                Ok(
                    (
                        SpecValue::Integer(from_be32(b.subrange(pos + 1, pos + 5)) as i32),
                        pos + 5,
                    ),
                )
            }
        } else if tag == 114 {
            if pos + 9 > b.len() {
                Err(ErrClass::TruncatedInput)
            } else {
                Ok((SpecValue::Real(from_be64(b.subrange(pos + 1, pos + 9))), pos + 9))
            }
        } else if tag == 100 {
            if pos + 9 > b.len() {
                Err(ErrClass::TruncatedInput)
            } else {
                Ok((SpecValue::Date(from_be64(b.subrange(pos + 1, pos + 9)) as i64), pos + 9))
            }
        } else if tag == 117 {
            if pos + 17 > b.len() {
                Err(ErrClass::TruncatedInput)
            } else {
                Ok((SpecValue::Uuid(b.subrange(pos + 1, pos + 17)), pos + 17))
            }
        } else if tag == 115 || tag == 108 {
            if pos + 5 > b.len() {
                Err(ErrClass::TruncatedInput)
            } else {
                let n = from_be32(b.subrange(pos + 1, pos + 5)) as int;
                if pos + 5 + n > b.len() {
                    Err(ErrClass::TruncatedInput)
                } else {
                    let bytes = b.subrange(pos + 5, pos + 5 + n);
                    if valid_utf8(bytes) {
                        if tag == 115 {
                            Ok((SpecValue::Str(decode_utf8(bytes)), pos + 5 + n))
                        } else {
                            Ok((SpecValue::Uri(decode_utf8(bytes)), pos + 5 + n))
                        }
                    } else {
                        Err(ErrClass::InvalidUtf8)
                    }
                }
            }
        } else if tag == 98 {
            if pos + 5 > b.len() {
                Err(ErrClass::TruncatedInput)
            } else {
                let n = from_be32(b.subrange(pos + 1, pos + 5)) as int;
                if pos + 5 + n > b.len() {
                    Err(ErrClass::TruncatedInput)
                } else {
                    Ok((SpecValue::Binary(b.subrange(pos + 5, pos + 5 + n)), pos + 5 + n))
                }
            }
        } else if tag == 123 {
            if pos + 5 > b.len() {
                Err(ErrClass::TruncatedInput)
            } else {
                let n = from_be32(b.subrange(pos + 1, pos + 5)) as nat;
                match bdec_entries(b, pos + 5, n, Seq::empty(), (depth - 1) as nat) {
                    Ok((ps, p)) => if p >= b.len() {
                        Err(ErrClass::TruncatedInput)
                    } else if b[p] != 125 {
                        Err(ErrClass::UnterminatedComposite)
                    } else {
                        Ok((SpecValue::Mapping(ps), p + 1))
                    },
                    Err(e) => Err(e),
                }
            }
        } else if tag == 91 {
            if pos + 5 > b.len() {
                Err(ErrClass::TruncatedInput)
            } else {
                let n = from_be32(b.subrange(pos + 1, pos + 5)) as nat;
                match bdec_items(b, pos + 5, n, Seq::empty(), (depth - 1) as nat) {
                    Ok((cs, p)) => if p >= b.len() {
                        Err(ErrClass::TruncatedInput)
                    } else if b[p] != 93 {
                        Err(ErrClass::UnterminatedComposite)
                    } else {
                        Ok((SpecValue::Array(cs), p + 1))
                    },
                    Err(e) => Err(e),
                }
            }
        } else {
            Err(ErrClass::UnknownTypeTag)
        }
    }
}

/// What decoding `n` further array items yields, the items decoded so far
/// in `acc`.
pub open spec fn bdec_items(b: Seq<u8>, pos: int, n: nat, acc: Seq<SpecValue>, depth: nat) -> Result<
    (Seq<SpecValue>, int),
    ErrClass,
>
    decreases depth, 2int, n,
{
    if n == 0 {
        Ok((acc, pos))
    } else {
        match bdec(b, pos, depth) {
            Ok((v, p)) => bdec_items(b, p, (n - 1) as nat, acc.push(v), depth),
            Err(e) => Err(e),
        }
    }
}

/// What decoding `n` further map entries yields, the entries decoded so far
/// in `acc`; a repeated key replaces the earlier value.
pub open spec fn bdec_entries(
    b: Seq<u8>,
    pos: int,
    n: nat,
    acc: Seq<(Seq<char>, SpecValue)>,
    depth: nat,
) -> Result<(Seq<(Seq<char>, SpecValue)>, int), ErrClass>
    decreases depth, 2int, n,
{
    if n == 0 {
        Ok((acc, pos))
    } else if pos < 0 || pos >= b.len() {
        Err(ErrClass::TruncatedInput)
    } else if b[pos] != 107 {
        Err(ErrClass::UnterminatedComposite)
    } else if pos + 5 > b.len() {
        Err(ErrClass::TruncatedInput)
    } else {
        let klen = from_be32(b.subrange(pos + 1, pos + 5)) as int;
        if pos + 5 + klen > b.len() {
            Err(ErrClass::TruncatedInput)
        } else {
            let kbytes = b.subrange(pos + 5, pos + 5 + klen);
            if !valid_utf8(kbytes) {
                Err(ErrClass::InvalidUtf8)
            } else {
                let key = decode_utf8(kbytes);
                match bdec(b, pos + 5 + klen, depth) {
                    Ok((v, p)) => bdec_entries(b, p, (n - 1) as nat, assoc_set(acc, key, v), depth),
                    Err(e) => Err(e),
                }
            }
        }
    }
}

/// What decoding a headerless value buffer yields: the value at offset 0,
/// trailing bytes ignored.
pub open spec fn spec_value_decode(b: Seq<u8>) -> Result<SpecValue, ErrClass> {
    match bdec(b, 0, MAX_NESTING_DEPTH as nat) {
        Ok((v, p)) => Ok(v),
        Err(e) => Err(e),
    }
}

/// What decoding a full binary message yields: the sentinel validated
/// byte-for-byte, then the value, trailing bytes ignored.
pub open spec fn spec_message_decode(b: Seq<u8>) -> Result<SpecValue, ErrClass> {
    if b.len() < spec_sentinel().len() || b.subrange(0, spec_sentinel().len() as int)
        != spec_sentinel() {
        Err(ErrClass::MalformedHeader)
    } else {
        match bdec(b, spec_sentinel().len() as int, MAX_NESTING_DEPTH as nat) {
            Ok((v, p)) => Ok(v),
            Err(e) => Err(e),
        }
    }
}

/// `benc_seq` distributes over appending one item.
pub proof fn lemma_benc_seq_push(cs: Seq<SpecValue>, v: SpecValue)
    ensures
        benc_seq(cs.push(v)) == benc_seq(cs) + benc(v),
    decreases cs,
{
    if cs.len() == 0 {
        assert(cs.push(v).drop_first() =~= Seq::<SpecValue>::empty());
        assert(cs.push(v)[0] == v);
        assert(benc_seq(Seq::<SpecValue>::empty()) =~= Seq::<u8>::empty());
        assert(benc_seq(cs.push(v)) =~= benc(v));
        assert(benc_seq(cs) + benc(v) =~= benc(v));
    } else {
        lemma_benc_seq_push(cs.drop_first(), v);
        assert(cs.push(v).drop_first() =~= cs.drop_first().push(v));
        assert(cs.push(v)[0] == cs[0]);
        assert(benc_seq(cs.push(v)) == benc(cs[0]) + (benc_seq(cs.drop_first()) + benc(v)));
        assert(benc_seq(cs) == benc(cs[0]) + benc_seq(cs.drop_first()));
        assert(benc(cs[0]) + (benc_seq(cs.drop_first()) + benc(v)) =~= (benc(cs[0]) + benc_seq(
            cs.drop_first(),
        )) + benc(v));
    }
}

/// `benc_pairs` distributes over appending one entry.
pub proof fn lemma_benc_pairs_push(ps: Seq<(Seq<char>, SpecValue)>, p: (Seq<char>, SpecValue))
    ensures
        benc_pairs(ps.push(p)) == benc_pairs(ps) + (seq![107u8] + be32(
            encode_utf8(p.0).len() as u32,
        ) + encode_utf8(p.0) + benc(p.1)),
    decreases ps,
{
    let e = seq![107u8] + be32(#[verifier::truncate] (encode_utf8(p.0).len() as u32))
        + encode_utf8(p.0) + benc(p.1);
    if ps.len() == 0 {
        assert(ps.push(p).drop_first() =~= Seq::<(Seq<char>, SpecValue)>::empty());
        assert(ps.push(p)[0] == p);
        assert(benc_pairs(Seq::<(Seq<char>, SpecValue)>::empty()) =~= Seq::<u8>::empty());
        assert(benc_pairs(ps.push(p)) =~= e);
        assert(benc_pairs(ps) + e =~= e);
    } else {
        lemma_benc_pairs_push(ps.drop_first(), p);
        assert(ps.push(p).drop_first() =~= ps.drop_first().push(p));
        assert(ps.push(p)[0] == ps[0]);
        let e0 = seq![107u8] + be32(#[verifier::truncate] (encode_utf8(ps[0].0).len() as u32))
            + encode_utf8(ps[0].0) + benc(ps[0].1);
        assert(benc_pairs(ps.push(p)) == e0 + (benc_pairs(ps.drop_first()) + e));
        assert(benc_pairs(ps) == e0 + benc_pairs(ps.drop_first()));
        assert(e0 + (benc_pairs(ps.drop_first()) + e) =~= (e0 + benc_pairs(ps.drop_first())) + e);
    }
}

/// Append the big-endian bytes of a 32-bit value.
fn push_be32(out: &mut Vec<u8>, n: u32)
    ensures
        final(out)@ == old(out)@ + be32(n),
{
    out.push((n >> 24) as u8);
    out.push((n >> 16) as u8);
    out.push((n >> 8) as u8);
    out.push(n as u8);
    assert(out@ =~= old(out)@ + be32(n));
}

/// Append the big-endian bytes of a 64-bit value.
fn push_be64(out: &mut Vec<u8>, n: u64)
    ensures
        final(out)@ == old(out)@ + be64(n),
{
    out.push((n >> 56) as u8);
    out.push((n >> 48) as u8);
    out.push((n >> 40) as u8);
    out.push((n >> 32) as u8);
    out.push((n >> 24) as u8);
    out.push((n >> 16) as u8);
    out.push((n >> 8) as u8);
    out.push(n as u8);
    assert(out@ =~= old(out)@ + be64(n));
}

/// Append a byte slice.
fn push_bytes(out: &mut Vec<u8>, b: &[u8])
    ensures
        final(out)@ == old(out)@ + b@,
{
    let n = b.len();
    let mut i: usize = 0;
    while i < n
        invariant
            i <= n,
            n == b@.len(),
            out@ == old(out)@ + b@.take(i as int),
        decreases n - i,
    {
        let x = *vstd::slice::slice_index_get(b, i);
        out.push(x);
        assert(out@ =~= old(out)@ + b@.take(i + 1));
        i = i + 1;
    }
    assert(b@.take(n as int) =~= b@);
}

/// Outputs an LLSDValue as a string of bytes, in LLSD binary format, the
/// sentinel included.
pub fn to_bytes(val: &LLSDValue) -> (r: Result<Vec<u8>, LLSDError>)
    requires
        encodable(val@),
    ensures
        r matches Ok(bytes) && bytes@ == spec_sentinel() + benc(val@),
{
    let mut s = binary_sentinel();
    generate_value(&mut s, val);
    Ok(s)
}

/// Append the encoding of one value: a tag byte, then the payload,
/// recursing into composite children in order.
fn generate_value(s: &mut Vec<u8>, val: &LLSDValue)
    requires
        encodable(val@),
    ensures
        final(s)@ == old(s)@ + benc(val@),
    decreases val,
{
    match val {
        LLSDValue::Undefined => {
            s.push(33);
            assert(s@ =~= old(s)@ + benc(val@));
        },
        LLSDValue::Boolean(v) => {
            s.push(if *v {
                49
            } else {
                48
            });
            assert(s@ =~= old(s)@ + benc(val@));
        },
        LLSDValue::Integer(v) => {
            s.push(105);
            push_be32(s, *v as u32);
            assert(s@ =~= old(s)@ + benc(val@));
        },
        LLSDValue::Real(bits) => {
            s.push(114);
            push_be64(s, *bits);
            assert(s@ =~= old(s)@ + benc(val@));
        },
        LLSDValue::Date(d) => {
            s.push(100);
            push_be64(s, *d as u64);
            assert(s@ =~= old(s)@ + benc(val@));
        },
        LLSDValue::UUID(b) => {
            s.push(117);
            push_bytes(s, b.as_slice());
            assert(s@ =~= old(s)@ + benc(val@));
        },
        LLSDValue::String(v) => {
            s.push(115);
            let bs: &[u8] = v.as_str().as_bytes();
            push_be32(s, bs.len() as u32);
            push_bytes(s, bs);
            assert(s@ =~= old(s)@ + benc(val@));
        },
        LLSDValue::URI(v) => {
            s.push(108);
            let bs: &[u8] = v.as_str().as_bytes();
            push_be32(s, bs.len() as u32);
            push_bytes(s, bs);
            assert(s@ =~= old(s)@ + benc(val@));
        },
        LLSDValue::Binary(v) => {
            s.push(98);
            push_be32(s, v.len() as u32);
            push_bytes(s, v.as_slice());
            assert(s@ =~= old(s)@ + benc(val@));
        },
        LLSDValue::Mapping(ps) => {
            proof {
                lemma_model_pairs_len(ps@);
            }
            s.push(123);
            push_be32(s, ps.len() as u32);
            generate_pairs(s, ps);
            s.push(125);
            assert(s@ =~= old(s)@ + benc(val@));
        },
        LLSDValue::Array(cs) => {
            proof {
                lemma_model_seq_len(cs@);
            }
            s.push(91);
            push_be32(s, cs.len() as u32);
            generate_items(s, cs);
            s.push(93);
            assert(s@ =~= old(s)@ + benc(val@));
        },
    }
}

/// Append the encodings of array items in index order.
fn generate_items(s: &mut Vec<u8>, cs: &Vec<LLSDValue>)
    requires
        encodable_seq(model_seq(cs@)),
    ensures
        final(s)@ == old(s)@ + benc_seq(model_seq(cs@)),
    decreases cs,
{
    let ghost m = model_seq(cs@);
    proof {
        lemma_model_seq_len(cs@);
    }
    let n = cs.len();
    let mut i: usize = 0;
    while i < n
        invariant
            i <= n,
            n == cs@.len(),
            m == model_seq(cs@),
            m.len() == n,
            encodable_seq(m),
            s@ == old(s)@ + benc_seq(m.take(i as int)),
        decreases n - i,
    {
        proof {
            lemma_model_seq_index(cs@, i as int);
            lemma_encodable_seq_index(m, i as int);
            assert(decreases_to!(*cs => cs@));
            assert(decreases_to!(cs@ => cs@[i as int]));
        }
        generate_value(s, &cs[i]);
        proof {
            lemma_benc_seq_push(m.take(i as int), m[i as int]);
            assert(m.take(i + 1) =~= m.take(i as int).push(m[i as int]));
            assert(s@ =~= old(s)@ + benc_seq(m.take(i + 1)));
        }
        i = i + 1;
    }
    proof {
        assert(m.take(n as int) =~= m);
    }
}

/// Append the encodings of map entries in insertion order.
fn generate_pairs(s: &mut Vec<u8>, ps: &Vec<(String, LLSDValue)>)
    requires
        encodable_pairs(model_pairs(ps@)),
    ensures
        final(s)@ == old(s)@ + benc_pairs(model_pairs(ps@)),
    decreases ps,
{
    let ghost m = model_pairs(ps@);
    proof {
        lemma_model_pairs_len(ps@);
    }
    let n = ps.len();
    let mut i: usize = 0;
    while i < n
        invariant
            i <= n,
            n == ps@.len(),
            m == model_pairs(ps@),
            m.len() == n,
            encodable_pairs(m),
            s@ == old(s)@ + benc_pairs(m.take(i as int)),
        decreases n - i,
    {
        proof {
            lemma_model_pairs_index(ps@, i as int);
            lemma_encodable_pairs_index(m, i as int);
            assert(decreases_to!(*ps => ps@));
            assert(decreases_to!(ps@ => ps@[i as int]));
            assert(decreases_to!(ps@[i as int] => ps@[i as int].1));
        }
        s.push(107);
        let entry = &ps[i];
        let kb: &[u8] = entry.0.as_str().as_bytes();
        push_be32(s, kb.len() as u32);
        push_bytes(s, kb);
        generate_value(s, &entry.1);
        proof {
            lemma_benc_pairs_push(m.take(i as int), m[i as int]);
            assert(m.take(i + 1) =~= m.take(i as int).push(m[i as int]));
            assert(s@ =~= old(s)@ + benc_pairs(m.take(i + 1)));
        }
        i = i + 1;
    }
    proof {
        assert(m.take(n as int) =~= m);
    }
}

/// Replacing the first entry that holds the key is an in-place update.
pub(crate) proof fn lemma_assoc_set_found(ps: Seq<(Seq<char>, SpecValue)>, k: Seq<char>, v: SpecValue, j: int)
    requires
        0 <= j < ps.len(),
        ps[j].0 == k,
        forall|i: int| 0 <= i < j ==> (#[trigger] ps[i]).0 != k,
    ensures
        assoc_set(ps, k, v) == ps.update(j, (k, v)),
    decreases ps,
{
    if j == 0 {
        assert(assoc_set(ps, k, v) =~= ps.update(0, (k, v)));
    } else {
        assert(ps[0].0 != k);
        assert(ps.drop_first()[j - 1].0 == k);
        assert(forall|i: int|
            0 <= i < j - 1 ==> (#[trigger] ps.drop_first()[i]).0 != k);
        lemma_assoc_set_found(ps.drop_first(), k, v, j - 1);
        assert(assoc_set(ps, k, v) =~= ps.update(j, (k, v)));
    }
}

/// Insert a key/value entry into the map's entry vector: the duplicate-key
/// policy is that the value written last wins, with the entry kept at the
/// key's first position.
pub(crate) fn map_insert(pairs: &mut Vec<(String, LLSDValue)>, k: String, v: LLSDValue)
    ensures
        model_pairs(final(pairs)@) == assoc_set(model_pairs(old(pairs)@), k@, model(v)),
{
    let ghost m = model_pairs(old(pairs)@);
    let ghost kv = model(v);
    proof {
        lemma_model_pairs_len(old(pairs)@);
    }
    let n = pairs.len();
    let mut j: usize = 0;
    while j < n
        invariant
            j <= n,
            n == pairs@.len(),
            pairs@ == old(pairs)@,
            m == model_pairs(pairs@),
            m.len() == n,
            kv == model(v),
            forall|i: int| 0 <= i < j ==> (#[trigger] m[i]).0 != k@,
        decreases n - j,
    {
        proof {
            lemma_model_pairs_index(pairs@, j as int);
        }
        let hit = pairs[j].0 == k;
        if hit {
            let ghost pr = (k, v);
            proof {
                assert(pr.0@ == k@ && model(pr.1) == kv);
            }
            pairs.remove(j);
            pairs.insert(j, (k, v));
            proof {
                lemma_assoc_set_found(m, k@, kv, j as int);
                let nw = pairs@;
                assert(nw =~= old(pairs)@.update(j as int, pr));
                lemma_model_pairs_len(nw);
                assert forall|i: int| 0 <= i < n implies #[trigger] model_pairs(nw)[i]
                    == m.update(j as int, (k@, kv))[i] by {
                    lemma_model_pairs_index(nw, i);
                    lemma_model_pairs_index(old(pairs)@, i);
                    if i == j {
                        assert(nw[i] == pr);
                        assert(nw[i].0@ == k@);
                        assert(model(nw[i].1) == kv);
                        assert(model_pairs(nw)[i] == (nw[i].0@, model(nw[i].1)));
                        assert(m.update(j as int, (k@, kv))[i] == (k@, kv));
                    } else {
                        assert(nw[i] == old(pairs)@[i]);
                        assert(model_pairs(nw)[i] == (nw[i].0@, model(nw[i].1)));
                        assert(m[i] == (old(pairs)@[i].0@, model(old(pairs)@[i].1)));
                        assert(m.update(j as int, (k@, kv))[i] == m[i]);
                    }
                }
                assert(model_pairs(nw) =~= m.update(j as int, (k@, kv)));
            }
            return;
        }
        j = j + 1;
    }
    proof {
        lemma_model_pairs_push(pairs@, (k, v));
        lemma_assoc_set_fresh(m, k@, kv);
    }
    pairs.push((k, v));
}

/// Read four big-endian bytes as a 32-bit value.
fn read_be32(b: &[u8], pos: usize) -> (x: u32)
    requires
        pos + 4 <= b@.len(),
    ensures
        x == from_be32(b@.subrange(pos as int, pos as int + 4)),
{
    let blen = b.len();
    assert(blen == b@.len());
    let b0 = *vstd::slice::slice_index_get(b, pos);
    let b1 = *vstd::slice::slice_index_get(b, pos + 1);
    let b2 = *vstd::slice::slice_index_get(b, pos + 2);
    let b3 = *vstd::slice::slice_index_get(b, pos + 3);
    let x = ((b0 as u32) << 24) | ((b1 as u32) << 16) | ((b2 as u32) << 8) | (b3 as u32);
    proof {
        let s = b@.subrange(pos as int, pos as int + 4);
        assert(s[0] == b0 && s[1] == b1 && s[2] == b2 && s[3] == b3);
    }
    x
}

/// Read eight big-endian bytes as a 64-bit value.
fn read_be64(b: &[u8], pos: usize) -> (x: u64)
    requires
        pos + 8 <= b@.len(),
    ensures
        x == from_be64(b@.subrange(pos as int, pos as int + 8)),
{
    let blen = b.len();
    assert(blen == b@.len());
    let b0 = *vstd::slice::slice_index_get(b, pos);
    let b1 = *vstd::slice::slice_index_get(b, pos + 1);
    let b2 = *vstd::slice::slice_index_get(b, pos + 2);
    let b3 = *vstd::slice::slice_index_get(b, pos + 3);
    let b4 = *vstd::slice::slice_index_get(b, pos + 4);
    let b5 = *vstd::slice::slice_index_get(b, pos + 5);
    let b6 = *vstd::slice::slice_index_get(b, pos + 6);
    let b7 = *vstd::slice::slice_index_get(b, pos + 7);
    let x = ((b0 as u64) << 56) | ((b1 as u64) << 48) | ((b2 as u64) << 40) | ((b3 as u64) << 32)
        | ((b4 as u64) << 24) | ((b5 as u64) << 16) | ((b6 as u64) << 8) | (b7 as u64);
    proof {
        let s = b@.subrange(pos as int, pos as int + 8);
        assert(s[0] == b0 && s[1] == b1 && s[2] == b2 && s[3] == b3 && s[4] == b4 && s[5] == b5
            && s[6] == b6 && s[7] == b7);
    }
    x
}

/// Parse one value at `pos`: read one tag byte, dispatch on it, read the
/// payload, and for composites read the declared count of children and then
/// the terminator byte.  Matches `bdec` exactly, error classes included.
fn parse_value(b: &[u8], pos: usize, depth: u32) -> (r: Result<(LLSDValue, usize), LLSDError>)
    ensures
        match r {
            Ok((v, p)) => bdec(b@, pos as int, depth as nat) == Ok::<(SpecValue, int), ErrClass>(
                (v@, p as int),
            ) && pos < p <= b@.len(),
            Err(e) => bdec(b@, pos as int, depth as nat) == Err::<(SpecValue, int), ErrClass>(
                e.class(),
            ),
        },
    decreases depth,
{
    if depth == 0 {
        return Err(LLSDError::DepthLimitExceeded);
    }
    if pos >= b.len() {
        return Err(LLSDError::TruncatedInput { offset: pos });
    }
    let tag = *vstd::slice::slice_index_get(b, pos);
    if tag == 33 {
        Ok((LLSDValue::Undefined, pos + 1))
    } else if tag == 48 {
        Ok((LLSDValue::Boolean(false), pos + 1))
    } else if tag == 49 {
        Ok((LLSDValue::Boolean(true), pos + 1))
    } else if tag == 105 {
        if b.len() - pos < 5 {
            return Err(LLSDError::TruncatedInput { offset: pos });
        }
        let x = read_be32(b, pos + 1);
        Ok((LLSDValue::Integer(x as i32), pos + 5))
    } else if tag == 114 {
        if b.len() - pos < 9 {
            return Err(LLSDError::TruncatedInput { offset: pos });
        }
        let x = read_be64(b, pos + 1);
        Ok((LLSDValue::Real(x), pos + 9))
    } else if tag == 100 {
        if b.len() - pos < 9 {
            return Err(LLSDError::TruncatedInput { offset: pos });
        }
        let x = read_be64(b, pos + 1);
        Ok((LLSDValue::Date(x as i64), pos + 9))
    } else if tag == 117 {
        if b.len() - pos < 17 {
            return Err(LLSDError::TruncatedInput { offset: pos });
        }
        let bytes = vstd::slice::slice_subrange(b, pos + 1, pos + 17);
        let v = vstd::slice::slice_to_vec(bytes);
        Ok((LLSDValue::UUID(v), pos + 17))
    } else if tag == 115 || tag == 108 {
        if b.len() - pos < 5 {
            return Err(LLSDError::TruncatedInput { offset: pos });
        }
        let n32 = read_be32(b, pos + 1);
        let n = n32 as usize;
        if b.len() - (pos + 5) < n {
            return Err(LLSDError::TruncatedInput { offset: pos + 5 });
        }
        let bytes = vstd::slice::slice_subrange(b, pos + 5, pos + 5 + n);
        match crate::outside::utf8_to_str(bytes) {
            Some(st) => {
                let so = st.to_owned();
                if tag == 115 {
                    Ok((LLSDValue::String(so), pos + 5 + n))
                } else {
                    Ok((LLSDValue::URI(so), pos + 5 + n))
                }
            },
            None => Err(LLSDError::InvalidUtf8 { offset: pos + 5 }),
        }
    } else if tag == 98 {
        if b.len() - pos < 5 {
            return Err(LLSDError::TruncatedInput { offset: pos });
        }
        let n32 = read_be32(b, pos + 1);
        let n = n32 as usize;
        if b.len() - (pos + 5) < n {
            return Err(LLSDError::TruncatedInput { offset: pos + 5 });
        }
        let bytes = vstd::slice::slice_subrange(b, pos + 5, pos + 5 + n);
        let v = vstd::slice::slice_to_vec(bytes);
        Ok((LLSDValue::Binary(v), pos + 5 + n))
    } else if tag == 123 {
        if b.len() - pos < 5 {
            return Err(LLSDError::TruncatedInput { offset: pos });
        }
        let cnt32 = read_be32(b, pos + 1);
        let cnt = cnt32 as usize;
        let ghost dc = (depth - 1) as nat;
        let mut cur: usize = pos + 5;
        let mut pairs: Vec<(String, LLSDValue)> = Vec::new();
        let mut k: usize = 0;
        proof {
            assert(model_pairs(pairs@) =~= Seq::<(Seq<char>, SpecValue)>::empty());
        }
        while k < cnt
            invariant
                k <= cnt,
                depth >= 1,
                dc == (depth - 1) as nat,
                pos < b@.len(),
                pos + 5 <= b@.len(),
                pos + 5 <= cur <= b@.len(),
                b@[pos as int] == 123,
                cnt as nat == from_be32(b@.subrange(pos as int + 1, pos as int + 5)) as nat,
                bdec_entries(b@, pos as int + 5, cnt as nat, Seq::empty(), dc) == bdec_entries(
                    b@,
                    cur as int,
                    (cnt - k) as nat,
                    model_pairs(pairs@),
                    dc,
                ),
            decreases cnt - k,
        {
            if cur >= b.len() {
                return Err(LLSDError::TruncatedInput { offset: cur });
            }
            let kp = *vstd::slice::slice_index_get(b, cur);
            if kp != 107 {
                return Err(LLSDError::UnterminatedComposite { found: kp, offset: cur });
            }
            if b.len() - cur < 5 {
                return Err(LLSDError::TruncatedInput { offset: cur });
            }
            let kl32 = read_be32(b, cur + 1);
            let kl = kl32 as usize;
            if b.len() - (cur + 5) < kl {
                return Err(LLSDError::TruncatedInput { offset: cur + 5 });
            }
            let kbytes = vstd::slice::slice_subrange(b, cur + 5, cur + 5 + kl);
            let key = match crate::outside::utf8_to_str(kbytes) {
                Some(st) => st.to_owned(),
                None => {
                    return Err(LLSDError::InvalidUtf8 { offset: cur + 5 });
                },
            };
            match parse_value(b, cur + 5 + kl, depth - 1) {
                Ok((v, p)) => {
                    let ghost keyv = key@;
                    let ghost mold = model_pairs(pairs@);
                    map_insert(&mut pairs, key, v);
                    proof {
                        assert(bdec_entries(b@, cur as int, (cnt - k) as nat, mold, dc)
                            == bdec_entries(b@, p as int, (cnt - k - 1) as nat, assoc_set(
                            mold,
                            keyv,
                            v@,
                        ), dc));
                    }
                    cur = p;
                    k = k + 1;
                },
                Err(e) => {
                    return Err(e);
                },
            }
        }
        if cur >= b.len() {
            return Err(LLSDError::TruncatedInput { offset: cur });
        }
        let term = *vstd::slice::slice_index_get(b, cur);
        if term != 125 {
            return Err(LLSDError::UnterminatedComposite { found: term, offset: cur });
        }
        Ok((LLSDValue::Mapping(pairs), cur + 1))
    } else if tag == 91 {
        if b.len() - pos < 5 {
            return Err(LLSDError::TruncatedInput { offset: pos });
        }
        let cnt32 = read_be32(b, pos + 1);
        let cnt = cnt32 as usize;
        let ghost dc = (depth - 1) as nat;
        let mut cur: usize = pos + 5;
        let mut vals: Vec<LLSDValue> = Vec::new();
        let mut k: usize = 0;
        proof {
            assert(model_seq(vals@) =~= Seq::<SpecValue>::empty());
        }
        while k < cnt
            invariant
                k <= cnt,
                depth >= 1,
                dc == (depth - 1) as nat,
                pos < b@.len(),
                pos + 5 <= b@.len(),
                pos + 5 <= cur <= b@.len(),
                b@[pos as int] == 91,
                cnt as nat == from_be32(b@.subrange(pos as int + 1, pos as int + 5)) as nat,
                bdec_items(b@, pos as int + 5, cnt as nat, Seq::empty(), dc) == bdec_items(
                    b@,
                    cur as int,
                    (cnt - k) as nat,
                    model_seq(vals@),
                    dc,
                ),
            decreases cnt - k,
        {
            match parse_value(b, cur, depth - 1) {
                Ok((v, p)) => {
                    proof {
                        lemma_model_seq_push(vals@, v);
                    }
                    vals.push(v);
                    cur = p;
                    k = k + 1;
                },
                Err(e) => {
                    return Err(e);
                },
            }
        }
        if cur >= b.len() {
            return Err(LLSDError::TruncatedInput { offset: cur });
        }
        let term = *vstd::slice::slice_index_get(b, cur);
        if term != 93 {
            return Err(LLSDError::UnterminatedComposite { found: term, offset: cur });
        }
        Ok((LLSDValue::Array(vals), cur + 1))
    } else {
        Err(LLSDError::UnknownTypeTag { tag, offset: pos })
    }
}

/// Parse an LLSD value expressed in binary, no header: the value starts at
/// offset 0, trailing bytes are ignored.
pub fn parse_array(b: &[u8]) -> (r: Result<LLSDValue, LLSDError>)
    ensures
        match r {
            Ok(v) => spec_value_decode(b@) == Ok::<SpecValue, ErrClass>(v@) && wf(v@),
            Err(e) => spec_value_decode(b@) == Err::<SpecValue, ErrClass>(e.class()),
        },
{
    match parse_value(b, 0, MAX_NESTING_DEPTH) {
        Ok((v, _p)) => {
            proof {
                lemma_bdec_wf(b@, 0, MAX_NESTING_DEPTH as nat);
            }
            Ok(v)
        },
        Err(e) => Err(e),
    }
}

/// Whether the buffer starts with the binary message sentinel.
pub fn has_binary_sentinel(msg: &[u8]) -> (r: bool)
    ensures
        r == (msg@.len() >= 18 && msg@.subrange(0, 18) == spec_sentinel()),
{
    let sent = binary_sentinel();
    if msg.len() < sent.len() {
        return false;
    }
    let mut i: usize = 0;
    while i < sent.len()
        invariant
            i <= sent@.len(),
            sent@ == spec_sentinel(),
            msg@.len() >= sent@.len(),
            forall|j: int| 0 <= j < i ==> msg@[j] == sent@[j],
        decreases sent@.len() - i,
    {
        let mb = *vstd::slice::slice_index_get(msg, i);
        if mb != sent[i] {
            proof {
                let jj = i as int;
                assert(msg@.subrange(0, 18)[jj] != spec_sentinel()[jj]);
            }
            return false;
        }
        i = i + 1;
    }
    proof {
        assert(spec_sentinel().len() == 18);
        assert(msg@.subrange(0, 18) =~= spec_sentinel());
    }
    true
}

/// Parse a full binary message: the sentinel is validated byte-for-byte,
/// then one value follows; trailing bytes are ignored.
pub fn parse(msg: &[u8]) -> (r: Result<LLSDValue, LLSDError>)
    ensures
        match r {
            Ok(v) => spec_message_decode(msg@) == Ok::<SpecValue, ErrClass>(v@) && wf(v@),
            Err(e) => spec_message_decode(msg@) == Err::<SpecValue, ErrClass>(e.class()),
        },
{
    if !has_binary_sentinel(msg) {
        return Err(LLSDError::MalformedHeader { offset: 0 });
    }
    match parse_value(msg, 18, MAX_NESTING_DEPTH) {
        Ok((v, _p)) => {
            proof {
                lemma_bdec_wf(msg@, 18, MAX_NESTING_DEPTH as nat);
            }
            Ok(v)
        },
        Err(e) => Err(e),
    }
}

/// Every key of `assoc_set(ps, k, v)` is `k` or a key of `ps`.
pub(crate) proof fn lemma_assoc_set_keys(ps: Seq<(Seq<char>, SpecValue)>, k: Seq<char>, v: SpecValue, i: int)
    requires
        0 <= i < assoc_set(ps, k, v).len(),
    ensures
        assoc_set(ps, k, v)[i].0 == k || exists|j: int|
            0 <= j < ps.len() && (#[trigger] ps[j]).0 == assoc_set(ps, k, v)[i].0,
    decreases ps,
{
    let r = assoc_set(ps, k, v);
    if ps.len() == 0 {
        assert(r[0].0 == k);
    } else if ps[0].0 == k {
        if i > 0 {
            assert(r[i] == ps.drop_first()[i - 1]);
            assert(ps[i] == ps.drop_first()[i - 1]);
        }
    } else {
        if i == 0 {
            assert(r[0] == ps[0]);
        } else {
            assert(r[i] == assoc_set(ps.drop_first(), k, v)[i - 1]);
            lemma_assoc_set_keys(ps.drop_first(), k, v, i - 1);
            if assoc_set(ps.drop_first(), k, v)[i - 1].0 != k {
                let j = choose|j: int|
                    0 <= j < ps.drop_first().len() && (#[trigger] ps.drop_first()[j]).0 == assoc_set(
                        ps.drop_first(),
                        k,
                        v,
                    )[i - 1].0;
                assert(ps[j + 1].0 == r[i].0);
            }
        }
    }
}

/// Inserting keeps keys pairwise distinct.
pub(crate) proof fn lemma_assoc_set_unique(ps: Seq<(Seq<char>, SpecValue)>, k: Seq<char>, v: SpecValue)
    requires
        keys_unique(ps),
    ensures
        keys_unique(assoc_set(ps, k, v)),
    decreases ps,
{
    let r = assoc_set(ps, k, v);
    if ps.len() == 0 {
    } else if ps[0].0 == k {
        assert forall|i: int, j: int| 0 <= i < j < r.len() implies (#[trigger] r[i]).0 != (
        #[trigger] r[j]).0 by {
            assert(r[j] == ps.drop_first()[j - 1]);
            assert(r[j] == ps[j]);
            if i == 0 {
                assert(ps[0].0 != ps[j].0);
            } else {
                assert(r[i] == ps[i]);
            }
        }
    } else {
        assert(keys_unique(ps.drop_first())) by {
            assert forall|i: int, j: int|
                0 <= i < j < ps.drop_first().len() implies (#[trigger] ps.drop_first()[i]).0 != (
            #[trigger] ps.drop_first()[j]).0 by {
                assert(ps.drop_first()[i] == ps[i + 1]);
                assert(ps.drop_first()[j] == ps[j + 1]);
            }
        }
        lemma_assoc_set_unique(ps.drop_first(), k, v);
        let rr = assoc_set(ps.drop_first(), k, v);
        assert forall|i: int, j: int| 0 <= i < j < r.len() implies (#[trigger] r[i]).0 != (
        #[trigger] r[j]).0 by {
            if i == 0 {
                assert(r[0] == ps[0]);
                assert(r[j] == rr[j - 1]);
                lemma_assoc_set_keys(ps.drop_first(), k, v, j - 1);
                if rr[j - 1].0 == k {
                } else {
                    let rj = rr[j - 1];
                    let jj = choose|jj: int|
                        0 <= jj < ps.drop_first().len() && (#[trigger] ps.drop_first()[jj]).0
                            == rj.0;
                    assert(ps[jj + 1].0 == rr[j - 1].0);
                    assert(ps[0].0 != ps[jj + 1].0);
                }
            } else {
                assert(r[i] == rr[i - 1]);
                assert(r[j] == rr[j - 1]);
            }
        }
    }
}

/// Inserting a well-formed value keeps all entries well-formed.
pub(crate) proof fn lemma_assoc_set_wf_pairs(ps: Seq<(Seq<char>, SpecValue)>, k: Seq<char>, v: SpecValue)
    requires
        wf_pairs(ps),
        wf(v),
    ensures
        wf_pairs(assoc_set(ps, k, v)),
    decreases ps,
{
    let r = assoc_set(ps, k, v);
    if ps.len() == 0 {
        assert(r.drop_first() =~= Seq::<(Seq<char>, SpecValue)>::empty());
        assert(r[0].1 == v);
        assert(wf_pairs(r.drop_first()));
        assert(wf(r[0].1) && wf_pairs(r.drop_first()));
    } else if ps[0].0 == k {
        assert(r.drop_first() =~= ps.drop_first());
        assert(r[0].1 == v);
        assert(wf(r[0].1) && wf_pairs(r.drop_first()));
    } else {
        lemma_assoc_set_wf_pairs(ps.drop_first(), k, v);
        assert(r.drop_first() =~= assoc_set(ps.drop_first(), k, v));
        assert(r[0] == ps[0]);
        assert(wf(r[0].1) && wf_pairs(r.drop_first()));
    }
}

/// Appending a well-formed value keeps a sequence of values well-formed.
pub(crate) proof fn lemma_wf_seq_push(cs: Seq<SpecValue>, v: SpecValue)
    requires
        wf_seq(cs),
        wf(v),
    ensures
        wf_seq(cs.push(v)),
    decreases cs,
{
    if cs.len() == 0 {
        assert(cs.push(v)[0] == v);
        assert(cs.push(v).drop_first() =~= Seq::<SpecValue>::empty());
        assert(wf_seq(cs.push(v).drop_first()));
        assert(wf(cs.push(v)[0]) && wf_seq(cs.push(v).drop_first()));
    } else {
        lemma_wf_seq_push(cs.drop_first(), v);
        assert(cs.push(v).drop_first() =~= cs.drop_first().push(v));
        assert(cs.push(v)[0] == cs[0]);
        assert(wf(cs.push(v)[0]) && wf_seq(cs.push(v).drop_first()));
    }
}

/// Every tree a decode produces is well-formed: UUIDs hold 16 bytes and map
/// keys are pairwise distinct.
proof fn lemma_bdec_wf(b: Seq<u8>, pos: int, depth: nat)
    ensures
        bdec(b, pos, depth) matches Ok((v, p)) ==> wf(v),
    decreases depth, 1int, 0int,
{
    if depth == 0 || pos < 0 || pos >= b.len() {
    } else {
        let tag = b[pos];
        if tag == 123 {
            if pos + 5 <= b.len() {
                let n = from_be32(b.subrange(pos + 1, pos + 5)) as nat;
                lemma_bdec_entries_wf(b, pos + 5, n, Seq::empty(), (depth - 1) as nat);
            }
        } else if tag == 91 {
            if pos + 5 <= b.len() {
                let n = from_be32(b.subrange(pos + 1, pos + 5)) as nat;
                lemma_bdec_items_wf(b, pos + 5, n, Seq::empty(), (depth - 1) as nat);
            }
        }
    }
}

proof fn lemma_bdec_items_wf(b: Seq<u8>, pos: int, n: nat, acc: Seq<SpecValue>, depth: nat)
    requires
        wf_seq(acc),
    ensures
        bdec_items(b, pos, n, acc, depth) matches Ok((cs, p)) ==> wf_seq(cs),
    decreases depth, 2int, n,
{
    if n == 0 {
    } else {
        match bdec(b, pos, depth) {
            Ok((v, p)) => {
                lemma_bdec_wf(b, pos, depth);
                lemma_wf_seq_push(acc, v);
                lemma_bdec_items_wf(b, p, (n - 1) as nat, acc.push(v), depth);
            },
            Err(_) => {},
        }
    }
}

proof fn lemma_bdec_entries_wf(
    b: Seq<u8>,
    pos: int,
    n: nat,
    acc: Seq<(Seq<char>, SpecValue)>,
    depth: nat,
)
    requires
        keys_unique(acc),
        wf_pairs(acc),
    ensures
        bdec_entries(b, pos, n, acc, depth) matches Ok((ps, p)) ==> keys_unique(ps) && wf_pairs(
            ps,
        ),
    decreases depth, 2int, n,
{
    if n == 0 || pos < 0 || pos >= b.len() || b[pos] != 107 || pos + 5 > b.len() {
    } else {
        let klen = from_be32(b.subrange(pos + 1, pos + 5)) as int;
        if pos + 5 + klen <= b.len() {
            let kbytes = b.subrange(pos + 5, pos + 5 + klen);
            if valid_utf8(kbytes) {
                let key = decode_utf8(kbytes);
                match bdec(b, pos + 5 + klen, depth) {
                    Ok((v, p)) => {
                        lemma_bdec_wf(b, pos + 5 + klen, depth);
                        lemma_assoc_set_unique(acc, key, v);
                        lemma_assoc_set_wf_pairs(acc, key, v);
                        lemma_bdec_entries_wf(b, p, (n - 1) as nat, assoc_set(acc, key, v), depth);
                    },
                    Err(_) => {},
                }
            }
        }
    }
}

/// Decoding an encoded well-formed value, wherever it stands in a larger
/// buffer, yields the value back and stops exactly at its end.
#[verifier::rlimit(100)]
#[verifier::spinoff_prover]
pub proof fn lemma_bdec_benc(v: SpecValue, pre: Seq<u8>, suf: Seq<u8>, depth: nat)
    requires
        wf(v),
        encodable(v),
        depth > vdepth(v),
    ensures
        bdec(pre + benc(v) + suf, pre.len() as int, depth) == Ok::<(SpecValue, int), ErrClass>(
            (v, (pre.len() + benc(v).len()) as int),
        ),
    decreases v,
{
    let b = pre + benc(v) + suf;
    let pos = pre.len() as int;
    assert(b.len() == pre.len() + benc(v).len() + suf.len());
    assert(b[pos] == benc(v)[0]);
    match v {
        SpecValue::Undefined => {
            assert(benc(v).len() == 1);
            assert(b[pos] == 33);
        },
        SpecValue::Boolean(x) => {
            assert(benc(v).len() == 1);
        },
        SpecValue::Integer(n) => {
            assert(b[pos] == 105);
            assert(b.subrange(pos + 1, pos + 5) =~= be32(n as u32));
            lemma_from_be32_be32(n as u32);
            lemma_i32_u32_roundtrip(n);
        },
        SpecValue::Real(bits) => {
            assert(b[pos] == 114);
            assert(b.subrange(pos + 1, pos + 9) =~= be64(bits));
            lemma_from_be64_be64(bits);
        },
        SpecValue::Date(d) => {
            assert(b[pos] == 100);
            assert(b.subrange(pos + 1, pos + 9) =~= be64(d as u64));
            lemma_from_be64_be64(d as u64);
            lemma_i64_u64_roundtrip(d);
        },
        SpecValue::Uuid(u) => {
            assert(b[pos] == 117);
            assert(u.len() == 16);
            assert(b.subrange(pos + 1, pos + 17) =~= u);
        },
        SpecValue::Str(t) => {
            assert(b[pos] == 115);
            let e = encode_utf8(t);
            let m = e.len();
            assert(b.subrange(pos + 1, pos + 5) =~= be32(m as u32));
            lemma_from_be32_be32(m as u32);
            assert(from_be32(b.subrange(pos + 1, pos + 5)) as int == m);
            assert(b.subrange(pos + 5, pos + 5 + m) =~= e);
            vstd::utf8::encode_utf8_valid_utf8(t);
            vstd::utf8::encode_utf8_decode_utf8(t);
        },
        SpecValue::Uri(t) => {
            assert(b[pos] == 108);
            let e = encode_utf8(t);
            let m = e.len();
            assert(b.subrange(pos + 1, pos + 5) =~= be32(m as u32));
            lemma_from_be32_be32(m as u32);
            assert(from_be32(b.subrange(pos + 1, pos + 5)) as int == m);
            assert(b.subrange(pos + 5, pos + 5 + m) =~= e);
            vstd::utf8::encode_utf8_valid_utf8(t);
            vstd::utf8::encode_utf8_decode_utf8(t);
        },
        SpecValue::Binary(d) => {
            assert(b[pos] == 98);
            let m = d.len();
            assert(b.subrange(pos + 1, pos + 5) =~= be32(m as u32));
            lemma_from_be32_be32(m as u32);
            assert(from_be32(b.subrange(pos + 1, pos + 5)) as int == m);
            assert(b.subrange(pos + 5, pos + 5 + m) =~= d);
        },
        SpecValue::Mapping(ps) => {
            assert(b[pos] == 123);
            let n = ps.len();
            assert(b.subrange(pos + 1, pos + 5) =~= be32(n as u32));
            lemma_from_be32_be32(n as u32);
            assert(from_be32(b.subrange(pos + 1, pos + 5)) as nat == n);
            let pre2 = pre + seq![123u8] + be32(n as u32);
            let suf2 = seq![125u8] + suf;
            assert(b =~= pre2 + benc_pairs(ps) + suf2);
            assert(Seq::<(Seq<char>, SpecValue)>::empty() + ps =~= ps);
            lemma_bdec_benc_pairs(ps, Seq::empty(), pre2, suf2, (depth - 1) as nat);
            assert(bdec_entries(b, pos + 5, n, Seq::empty(), (depth - 1) as nat)
                == Ok::<(Seq<(Seq<char>, SpecValue)>, int), ErrClass>(
                (ps, (pre2.len() + benc_pairs(ps).len()) as int),
            ));
            let p = pre2.len() + benc_pairs(ps).len();
            assert(b[p as int] == 125);
            assert(p + 1 == pre.len() + benc(v).len());
        },
        SpecValue::Array(cs) => {
            assert(b[pos] == 91);
            let n = cs.len();
            assert(b.subrange(pos + 1, pos + 5) =~= be32(n as u32));
            lemma_from_be32_be32(n as u32);
            assert(from_be32(b.subrange(pos + 1, pos + 5)) as nat == n);
            let pre2 = pre + seq![91u8] + be32(n as u32);
            let suf2 = seq![93u8] + suf;
            assert(b =~= pre2 + benc_seq(cs) + suf2);
            assert(Seq::<SpecValue>::empty() + cs =~= cs);
            lemma_bdec_benc_items(cs, Seq::empty(), pre2, suf2, (depth - 1) as nat);
            assert(bdec_items(b, pos + 5, n, Seq::empty(), (depth - 1) as nat) == Ok::<
                (Seq<SpecValue>, int),
                ErrClass,
            >((cs, (pre2.len() + benc_seq(cs).len()) as int)));
            let p = pre2.len() + benc_seq(cs).len();
            assert(b[p as int] == 93);
            assert(p + 1 == pre.len() + benc(v).len());
        },
    }
}

/// Decoding the encoded items of an array appends them, in order, to the
/// items decoded so far.
#[verifier::rlimit(100)]
#[verifier::spinoff_prover]
proof fn lemma_bdec_benc_items(
    cs: Seq<SpecValue>,
    acc: Seq<SpecValue>,
    pre: Seq<u8>,
    suf: Seq<u8>,
    depth: nat,
)
    requires
        wf_seq(cs),
        encodable_seq(cs),
        depth > vdepth_seq(cs),
    ensures
        bdec_items(pre + benc_seq(cs) + suf, pre.len() as int, cs.len(), acc, depth) == Ok::<
            (Seq<SpecValue>, int),
            ErrClass,
        >((acc + cs, (pre.len() + benc_seq(cs).len()) as int)),
    decreases cs,
{
    let b = pre + benc_seq(cs) + suf;
    let pos = pre.len() as int;
    if cs.len() == 0 {
        assert(benc_seq(cs).len() == 0);
        assert(acc + cs =~= acc);
    } else {
        let v0 = cs[0];
        let rest = cs.drop_first();
        assert(benc_seq(cs) == benc(v0) + benc_seq(rest));
        assert(vdepth(v0) <= vdepth_seq(cs));
        assert(b =~= pre + benc(v0) + (benc_seq(rest) + suf));
        lemma_bdec_benc(v0, pre, benc_seq(rest) + suf, depth);
        let p1 = pre.len() + benc(v0).len();
        assert(bdec(b, pos, depth) == Ok::<(SpecValue, int), ErrClass>((v0, p1 as int)));
        let pre2 = pre + benc(v0);
        assert(b =~= pre2 + benc_seq(rest) + suf);
        assert(vdepth_seq(rest) <= vdepth_seq(cs));
        lemma_bdec_benc_items(rest, acc.push(v0), pre2, suf, depth);
        assert(acc.push(v0) + rest =~= acc + cs);
        assert(pre2.len() + benc_seq(rest).len() == pre.len() + benc_seq(cs).len());
    }
}

/// Decoding the encoded entries of a map whose keys are pairwise distinct,
/// and distinct from those decoded so far, appends them in order.
#[verifier::rlimit(100)]
#[verifier::spinoff_prover]
proof fn lemma_bdec_benc_pairs(
    ps: Seq<(Seq<char>, SpecValue)>,
    acc: Seq<(Seq<char>, SpecValue)>,
    pre: Seq<u8>,
    suf: Seq<u8>,
    depth: nat,
)
    requires
        wf_pairs(ps),
        encodable_pairs(ps),
        depth > vdepth_pairs(ps),
        keys_unique(acc + ps),
    ensures
        bdec_entries(pre + benc_pairs(ps) + suf, pre.len() as int, ps.len(), acc, depth) == Ok::<
            (Seq<(Seq<char>, SpecValue)>, int),
            ErrClass,
        >((acc + ps, (pre.len() + benc_pairs(ps).len()) as int)),
    decreases ps,
{
    let b = pre + benc_pairs(ps) + suf;
    let pos = pre.len() as int;
    if ps.len() == 0 {
        assert(benc_pairs(ps).len() == 0);
        assert(acc + ps =~= acc);
    } else {
        let k = ps[0].0;
        let v0 = ps[0].1;
        let rest = ps.drop_first();
        let ke = encode_utf8(k);
        let kl = ke.len();
        let e0 = seq![107u8] + be32(kl as u32) + ke + benc(v0);
        assert(benc_pairs(ps) == e0 + benc_pairs(rest));
        assert(b[pos] == 107);
        assert(b.subrange(pos + 1, pos + 5) =~= be32(kl as u32));
        lemma_from_be32_be32(kl as u32);
        assert(from_be32(b.subrange(pos + 1, pos + 5)) as int == kl);
        assert(b.subrange(pos + 5, pos + 5 + kl) =~= ke);
        vstd::utf8::encode_utf8_valid_utf8(k);
        vstd::utf8::encode_utf8_decode_utf8(k);
        let prev = pre + seq![107u8] + be32(kl as u32) + ke;
        assert(b =~= prev + benc(v0) + (benc_pairs(rest) + suf));
        assert(vdepth(v0) <= vdepth_pairs(ps));
        lemma_bdec_benc(v0, prev, benc_pairs(rest) + suf, depth);
        let p1 = prev.len() + benc(v0).len();
        assert(bdec(b, pos + 5 + kl, depth) == Ok::<(SpecValue, int), ErrClass>((v0, p1 as int)));
        assert forall|i: int| 0 <= i < acc.len() implies (#[trigger] acc[i]).0 != k by {
            assert((acc + ps)[i] == acc[i]);
            assert((acc + ps)[acc.len() as int] == ps[0]);
        }
        lemma_assoc_set_fresh(acc, k, v0);
        assert(assoc_set(acc, k, v0) == acc.push((k, v0)));
        assert(acc.push((k, v0)) =~= acc.push(ps[0]));
        let pre2 = pre + e0;
        assert(b =~= pre2 + benc_pairs(rest) + suf);
        assert(vdepth_pairs(rest) <= vdepth_pairs(ps));
        assert(keys_unique(acc.push(ps[0]) + rest)) by {
            assert(acc.push(ps[0]) + rest =~= acc + ps);
        }
        lemma_bdec_benc_pairs(rest, acc.push(ps[0]), pre2, suf, depth);
        assert(acc.push(ps[0]) + rest =~= acc + ps);
        assert(pre2.len() == p1);
        assert(pre2.len() + benc_pairs(rest).len() == pre.len() + benc_pairs(ps).len());
    }
}

/// Round trip of the binary codec: decoding an encoded well-formed tree,
/// with or without the sentinel framing, yields the tree back.
pub proof fn lemma_binary_round_trip(v: SpecValue)
    requires
        wf(v),
        encodable(v),
        vdepth(v) < MAX_NESTING_DEPTH,
    ensures
        spec_message_decode(spec_sentinel() + benc(v)) == Ok::<SpecValue, ErrClass>(v),
        spec_value_decode(benc(v)) == Ok::<SpecValue, ErrClass>(v),
    {
    let msg = spec_sentinel() + benc(v);
    assert(msg.subrange(0, spec_sentinel().len() as int) =~= spec_sentinel());
    lemma_bdec_benc(v, spec_sentinel(), Seq::empty(), MAX_NESTING_DEPTH as nat);
    assert(spec_sentinel() + benc(v) + Seq::<u8>::empty() =~= msg);
    lemma_bdec_benc(v, Seq::empty(), Seq::empty(), MAX_NESTING_DEPTH as nat);
    assert(Seq::<u8>::empty() + benc(v) + Seq::<u8>::empty() =~= benc(v));
}

/// Map entry order on the wire is insignificant: two encodings of one map,
/// its entries laid out in any two orders, decode to values the library's
/// equality holds equal.
pub proof fn lemma_wire_order_insignificant(
    p: Seq<(Seq<char>, SpecValue)>,
    q: Seq<(Seq<char>, SpecValue)>,
)
    requires
        wf(SpecValue::Mapping(p)),
        wf(SpecValue::Mapping(q)),
        encodable(SpecValue::Mapping(p)),
        encodable(SpecValue::Mapping(q)),
        vdepth(SpecValue::Mapping(p)) < MAX_NESTING_DEPTH,
        vdepth(SpecValue::Mapping(q)) < MAX_NESTING_DEPTH,
        q.len() == p.len(),
        forall|i: int| 0 <= i < p.len() ==> assoc_get(q, (#[trigger] p[i]).0) == Some(p[i].1),
    ensures
        spec_value_decode(benc(SpecValue::Mapping(p))) == Ok::<SpecValue, ErrClass>(
            SpecValue::Mapping(p),
        ),
        spec_value_decode(benc(SpecValue::Mapping(q))) == Ok::<SpecValue, ErrClass>(
            SpecValue::Mapping(q),
        ),
        crate::veq(SpecValue::Mapping(p), SpecValue::Mapping(q)),
{
    lemma_binary_round_trip(SpecValue::Mapping(p));
    lemma_binary_round_trip(SpecValue::Mapping(q));
    crate::lemma_mapping_eq_any_order(p, q);
}

/// NaN preservation in the binary codec: a Real holding any NaN bit
/// pattern decodes back bit-exact, so the result still reads as NaN.
pub proof fn lemma_binary_nan_preserved(bits: u64)
    requires
        crate::realtext::is_nan_bits(bits),
    ensures
        spec_message_decode(spec_sentinel() + benc(SpecValue::Real(bits))) == Ok::<
            SpecValue,
            ErrClass,
        >(SpecValue::Real(bits)),
{
    lemma_binary_round_trip(SpecValue::Real(bits));
}

/// NaN normalization in the text codec's Real leaf: the formatter prints
/// any NaN bit pattern as the lowercase `nan` token, and the parser maps
/// that token (case-insensitively) to the canonical NaN bit pattern, which
/// reads as NaN.
pub proof fn lemma_text_nan_normalized()
    ensures
        crate::realtext::is_nan_token(seq!['n', 'a', 'n']),
        crate::realtext::is_nan_bits(crate::realtext::CANONICAL_NAN_BITS),
{
    let t = seq!['n', 'a', 'n'];
    assert(crate::realtext::spec_strip_sign(t).1 =~= t);
    let c: u64 = crate::realtext::CANONICAL_NAN_BITS;
    assert((c >> 52) & 0x7FF == 0x7FF && c & 0xF_FFFF_FFFF_FFFF != 0) by (bit_vector)
        requires
            c == 0x7FF8_0000_0000_0000u64,
    ;
}

} // verus!
