//! Codec library for the LLSD structured-data format: a shared value-tree
//! model, a binary wire codec, an XML text codec, and a format-detecting
//! dispatcher.  Both codecs consume and produce the same [`LLSDValue`] tree
//! and round-trip it losslessly.

use vstd::prelude::*;

pub mod binary;
pub mod err;
pub mod outside;
pub mod realtext;
pub mod textnum;
pub mod xml;

verus! {

broadcast use vstd::std_specs::vec::group_vec_axioms, vstd::seq::group_seq_axioms;

/// One node of an LLSD value tree.  Equality (`==`) is structural, with
/// map equality independent of entry order: see [`veq`].
#[derive(Debug)]
pub enum LLSDValue {
    Undefined,
    Boolean(bool),
    /// IEEE 754 double-precision bit pattern, kept bit-exact.
    Real(u64),
    Integer(i32),
    /// Exactly 16 bytes in a well-formed tree.
    UUID(Vec<u8>),
    String(String),
    /// Seconds since the epoch, truncated to whole seconds.
    Date(i64),
    URI(String),
    Binary(Vec<u8>),
    /// Key/value pairs; a well-formed tree has pairwise-distinct keys, and a
    /// decoder that meets a repeated key keeps the value written last.
    Mapping(Vec<(String, LLSDValue)>),
    Array(Vec<LLSDValue>),
}

/// The mathematical model of an [`LLSDValue`] tree: the same shape over
/// `Seq` and plain values.  All codec specifications are stated over this
/// type.
pub enum SpecValue {
    Undefined,
    Boolean(bool),
    Real(u64),
    Integer(i32),
    Uuid(Seq<u8>),
    Str(Seq<char>),
    Date(i64),
    Uri(Seq<char>),
    Binary(Seq<u8>),
    Mapping(Seq<(Seq<char>, SpecValue)>),
    Array(Seq<SpecValue>),
}

/// Model of one value tree node.
pub closed spec fn model(t: LLSDValue) -> SpecValue
    decreases t,
{
    match t {
        LLSDValue::Undefined => SpecValue::Undefined,
        LLSDValue::Boolean(b) => SpecValue::Boolean(b),
        LLSDValue::Real(bits) => SpecValue::Real(bits),
        LLSDValue::Integer(n) => SpecValue::Integer(n),
        LLSDValue::UUID(b) => SpecValue::Uuid(b@),
        LLSDValue::String(s) => SpecValue::Str(s@),
        LLSDValue::Date(d) => SpecValue::Date(d),
        LLSDValue::URI(s) => SpecValue::Uri(s@),
        LLSDValue::Binary(b) => SpecValue::Binary(b@),
        LLSDValue::Mapping(ps) => SpecValue::Mapping(model_pairs(ps@)),
        LLSDValue::Array(cs) => SpecValue::Array(model_seq(cs@)),
    }
}

/// Model of a sequence of sibling nodes.
pub closed spec fn model_seq(s: Seq<LLSDValue>) -> Seq<SpecValue>
    decreases s,
{
    if s.len() == 0 {
        Seq::empty()
    } else {
        seq![model(s[0])] + model_seq(s.drop_first())
    }
}

/// Model of a sequence of map entries.
pub closed spec fn model_pairs(s: Seq<(String, LLSDValue)>) -> Seq<(Seq<char>, SpecValue)>
    decreases s,
{
    if s.len() == 0 {
        Seq::empty()
    } else {
        seq![(s[0].0@, model(s[0].1))] + model_pairs(s.drop_first())
    }
}

impl View for LLSDValue {
    type V = SpecValue;

    open spec fn view(&self) -> SpecValue {
        model(*self)
    }
}

pub broadcast proof fn lemma_model_seq_len(s: Seq<LLSDValue>)
    ensures
        #[trigger] model_seq(s).len() == s.len(),
    decreases s,
{
    if s.len() > 0 {
        lemma_model_seq_len(s.drop_first());
    }
}

pub broadcast proof fn lemma_model_seq_index(s: Seq<LLSDValue>, i: int)
    requires
        0 <= i < s.len(),
    ensures
        model_seq(s).len() == s.len(),
        #[trigger] model_seq(s)[i] == model(s[i]),
    decreases s,
{
    lemma_model_seq_len(s);
    if i > 0 {
        lemma_model_seq_index(s.drop_first(), i - 1);
    }
}

pub broadcast proof fn lemma_model_pairs_len(s: Seq<(String, LLSDValue)>)
    ensures
        #[trigger] model_pairs(s).len() == s.len(),
    decreases s,
{
    if s.len() > 0 {
        lemma_model_pairs_len(s.drop_first());
    }
}

pub broadcast proof fn lemma_model_pairs_index(s: Seq<(String, LLSDValue)>, i: int)
    requires
        0 <= i < s.len(),
    ensures
        model_pairs(s).len() == s.len(),
        #[trigger] model_pairs(s)[i] == (s[i].0@, model(s[i].1)),
    decreases s,
{
    lemma_model_pairs_len(s);
    if i > 0 {
        lemma_model_pairs_index(s.drop_first(), i - 1);
    }
}

pub broadcast proof fn lemma_model_seq_push(s: Seq<LLSDValue>, v: LLSDValue)
    ensures
        #[trigger] model_seq(s.push(v)) == model_seq(s).push(model(v)),
    decreases s,
{
    if s.len() == 0 {
        assert(s.push(v).drop_first() =~= Seq::<LLSDValue>::empty());
        assert(s.push(v)[0] == v);
        assert(model_seq(Seq::<LLSDValue>::empty()) =~= Seq::<SpecValue>::empty());
        assert(model_seq(s.push(v)) =~= seq![model(v)]);
        assert(model_seq(s).push(model(v)) =~= seq![model(v)]);
    } else {
        lemma_model_seq_push(s.drop_first(), v);
        assert(s.push(v).drop_first() =~= s.drop_first().push(v));
        assert(s.push(v)[0] == s[0]);
        assert(model_seq(s.push(v)) == seq![model(s[0])] + (model_seq(s.drop_first()).push(
            model(v),
        )));
        assert(model_seq(s) == seq![model(s[0])] + model_seq(s.drop_first()));
        assert(seq![model(s[0])] + (model_seq(s.drop_first()).push(model(v))) =~= (seq![
            model(s[0]),
        ] + model_seq(s.drop_first())).push(model(v)));
    }
}

pub broadcast proof fn lemma_model_pairs_push(s: Seq<(String, LLSDValue)>, p: (String, LLSDValue))
    ensures
        #[trigger] model_pairs(s.push(p)) == model_pairs(s).push((p.0@, model(p.1))),
    decreases s,
{
    if s.len() == 0 {
        assert(s.push(p).drop_first() =~= Seq::<(String, LLSDValue)>::empty());
        assert(s.push(p)[0] == p);
        assert(model_pairs(Seq::<(String, LLSDValue)>::empty()) =~= Seq::<(
            Seq<char>,
            SpecValue,
        )>::empty());
        assert(model_pairs(s.push(p)) =~= seq![(p.0@, model(p.1))]);
        assert(model_pairs(s).push((p.0@, model(p.1))) =~= seq![(p.0@, model(p.1))]);
    } else {
        lemma_model_pairs_push(s.drop_first(), p);
        assert(s.push(p).drop_first() =~= s.drop_first().push(p));
        assert(s.push(p)[0] == s[0]);
        assert(model_pairs(s.push(p)) == seq![(s[0].0@, model(s[0].1))] + (model_pairs(
            s.drop_first(),
        ).push((p.0@, model(p.1)))));
        assert(model_pairs(s) == seq![(s[0].0@, model(s[0].1))] + model_pairs(s.drop_first()));
        assert(seq![(s[0].0@, model(s[0].1))] + (model_pairs(s.drop_first()).push(
            (p.0@, model(p.1)),
        )) =~= (seq![(s[0].0@, model(s[0].1))] + model_pairs(s.drop_first())).push(
            (p.0@, model(p.1)),
        ));
    }
}

/// The keys of a sequence of map entries are pairwise distinct.
pub open spec fn keys_unique(ps: Seq<(Seq<char>, SpecValue)>) -> bool {
    forall|i: int, j: int| 0 <= i < j < ps.len() ==> (#[trigger] ps[i]).0 != (#[trigger] ps[j]).0
}

/// Well-formedness of a value tree: every UUID holds exactly 16 bytes and
/// every map's keys are pairwise distinct.  Decoders only produce
/// well-formed trees; encoders expect one.
pub open spec fn wf(v: SpecValue) -> bool
    decreases v,
{
    match v {
        SpecValue::Uuid(b) => b.len() == 16,
        SpecValue::Mapping(ps) => keys_unique(ps) && wf_pairs(ps),
        SpecValue::Array(cs) => wf_seq(cs),
        _ => true,
    }
}

pub open spec fn wf_seq(cs: Seq<SpecValue>) -> bool
    decreases cs,
{
    cs.len() == 0 || (wf(cs[0]) && wf_seq(cs.drop_first()))
}

pub open spec fn wf_pairs(ps: Seq<(Seq<char>, SpecValue)>) -> bool
    decreases ps,
{
    ps.len() == 0 || (wf(ps[0].1) && wf_pairs(ps.drop_first()))
}

pub broadcast proof fn lemma_wf_seq_index(cs: Seq<SpecValue>, i: int)
    requires
        0 <= i < cs.len(),
        wf_seq(cs),
    ensures
        #[trigger] wf(cs[i]),
    decreases cs,
{
    if i > 0 {
        lemma_wf_seq_index(cs.drop_first(), i - 1);
    }
}

pub broadcast proof fn lemma_wf_pairs_index(ps: Seq<(Seq<char>, SpecValue)>, i: int)
    requires
        0 <= i < ps.len(),
        wf_pairs(ps),
    ensures
        #[trigger] wf(ps[i].1),
    decreases ps,
{
    if i > 0 {
        lemma_wf_pairs_index(ps.drop_first(), i - 1);
    }
}

/// Nesting depth of a value tree: 0 for leaves, one more than the deepest
/// child for composites.
pub open spec fn vdepth(v: SpecValue) -> nat
    decreases v,
{
    match v {
        SpecValue::Mapping(ps) => 1 + vdepth_pairs(ps),
        SpecValue::Array(cs) => 1 + vdepth_seq(cs),
        _ => 0,
    }
}

pub open spec fn vdepth_seq(cs: Seq<SpecValue>) -> nat
    decreases cs,
{
    if cs.len() == 0 {
        0
    } else {
        let d0 = vdepth(cs[0]);
        let dr = vdepth_seq(cs.drop_first());
        if d0 >= dr {
            d0
        } else {
            dr
        }
    }
}

pub open spec fn vdepth_pairs(ps: Seq<(Seq<char>, SpecValue)>) -> nat
    decreases ps,
{
    if ps.len() == 0 {
        0
    } else {
        let d0 = vdepth(ps[0].1);
        let dr = vdepth_pairs(ps.drop_first());
        if d0 >= dr {
            d0
        } else {
            dr
        }
    }
}

/// Structural equality of two value trees: the same variant at every node,
/// with map equality independent of entry order — an entry of the left map
/// must be held, under the same key, by the right map, and the maps must be
/// the same size.  (On maps with repeated keys, which no decoder produces
/// and `wf` excludes, the relation compares against the key's first entry.)
pub open spec fn veq(x: SpecValue, y: SpecValue) -> bool
    decreases x,
{
    match (x, y) {
        (SpecValue::Undefined, SpecValue::Undefined) => true,
        (SpecValue::Boolean(a), SpecValue::Boolean(b)) => a == b,
        (SpecValue::Real(a), SpecValue::Real(b)) => a == b,
        (SpecValue::Integer(a), SpecValue::Integer(b)) => a == b,
        (SpecValue::Uuid(a), SpecValue::Uuid(b)) => a == b,
        (SpecValue::Str(a), SpecValue::Str(b)) => a == b,
        (SpecValue::Date(a), SpecValue::Date(b)) => a == b,
        (SpecValue::Uri(a), SpecValue::Uri(b)) => a == b,
        (SpecValue::Binary(a), SpecValue::Binary(b)) => a == b,
        (SpecValue::Mapping(p), SpecValue::Mapping(q)) => p.len() == q.len() && veq_pairs(p, q),
        (SpecValue::Array(a), SpecValue::Array(b)) => a.len() == b.len() && veq_seq(a, b),
        _ => false,
    }
}

/// Every entry of `p` is held, under the same key, by `q`.
pub open spec fn veq_pairs(p: Seq<(Seq<char>, SpecValue)>, q: Seq<(Seq<char>, SpecValue)>) -> bool
    decreases p,
{
    p.len() == 0 || ((match crate::binary::assoc_get(q, p[0].0) {
        Some(w) => veq(p[0].1, w),
        None => false,
    }) && veq_pairs(p.drop_first(), q))
}

/// Elementwise equality of two equal-length value sequences.
pub open spec fn veq_seq(a: Seq<SpecValue>, b: Seq<SpecValue>) -> bool
    decreases a,
{
    a.len() == 0 || (b.len() > 0 && veq(a[0], b[0]) && veq_seq(a.drop_first(), b.drop_first()))
}

/// In a map with pairwise-distinct keys, looking any entry's key up finds
/// that entry's value.
pub proof fn lemma_assoc_get_own_key(ps: Seq<(Seq<char>, SpecValue)>, i: int)
    requires
        keys_unique(ps),
        0 <= i < ps.len(),
    ensures
        crate::binary::assoc_get(ps, ps[i].0) == Some(ps[i].1),
    decreases ps,
{
    if i == 0 {
    } else {
        assert(ps[0].0 != ps[i].0);
        assert(keys_unique(ps.drop_first())) by {
            assert forall|a: int, b: int|
                0 <= a < b < ps.drop_first().len() implies (#[trigger] ps.drop_first()[a]).0 != (
            #[trigger] ps.drop_first()[b]).0 by {
                assert(ps.drop_first()[a] == ps[a + 1]);
                assert(ps.drop_first()[b] == ps[b + 1]);
            }
        }
        assert(ps.drop_first()[i - 1] == ps[i]);
        lemma_assoc_get_own_key(ps.drop_first(), i - 1);
    }
}

/// If every entry of `p` is found in `q` with an equal value, the entries
/// compare equal as map contents.
pub proof fn lemma_veq_pairs_from_get(
    p: Seq<(Seq<char>, SpecValue)>,
    q: Seq<(Seq<char>, SpecValue)>,
)
    requires
        forall|i: int|
            0 <= i < p.len() ==> (match crate::binary::assoc_get(q, (#[trigger] p[i]).0) {
                Some(w) => veq(p[i].1, w),
                None => false,
            }),
    ensures
        veq_pairs(p, q),
    decreases p,
{
    if p.len() > 0 {
        assert forall|i: int|
            0 <= i < p.drop_first().len() implies (match crate::binary::assoc_get(
            q,
            (#[trigger] p.drop_first()[i]).0,
        ) {
            Some(w) => veq(p.drop_first()[i].1, w),
            None => false,
        }) by {
            assert(p.drop_first()[i] == p[i + 1]);
        }
        lemma_veq_pairs_from_get(p.drop_first(), q);
    }
}

/// Structural equality is reflexive on well-formed trees.
pub proof fn lemma_veq_refl(x: SpecValue)
    requires
        wf(x),
    ensures
        veq(x, x),
    decreases x,
{
    match x {
        SpecValue::Mapping(p) => {
            assert forall|i: int|
                0 <= i < p.len() implies (match crate::binary::assoc_get(
                p,
                (#[trigger] p[i]).0,
            ) {
                Some(w) => veq(p[i].1, w),
                None => false,
            }) by {
                lemma_assoc_get_own_key(p, i);
                lemma_wf_pairs_index(p, i);
                lemma_veq_refl(p[i].1);
            }
            lemma_veq_pairs_from_get(p, p);
        },
        SpecValue::Array(a) => {
            lemma_veq_seq_refl(a);
        },
        _ => {},
    }
}

pub proof fn lemma_veq_seq_refl(a: Seq<SpecValue>)
    requires
        wf_seq(a),
    ensures
        veq_seq(a, a),
    decreases a,
{
    if a.len() > 0 {
        lemma_veq_refl(a[0]);
        lemma_veq_seq_refl(a.drop_first());
    }
}

/// Map equality does not depend on entry order: a well-formed map equals
/// any equal-sized map that holds the same value under each of its keys,
/// wherever those entries stand.
pub proof fn lemma_mapping_eq_any_order(
    p: Seq<(Seq<char>, SpecValue)>,
    q: Seq<(Seq<char>, SpecValue)>,
)
    requires
        keys_unique(p),
        wf_pairs(p),
        q.len() == p.len(),
        forall|i: int|
            0 <= i < p.len() ==> crate::binary::assoc_get(q, (#[trigger] p[i]).0) == Some(p[i].1),
    ensures
        veq(SpecValue::Mapping(p), SpecValue::Mapping(q)),
{
    assert forall|i: int|
        0 <= i < p.len() implies (match crate::binary::assoc_get(q, (#[trigger] p[i]).0) {
        Some(w) => veq(p[i].1, w),
        None => false,
    }) by {
        lemma_wf_pairs_index(p, i);
        lemma_veq_refl(p[i].1);
    }
    lemma_veq_pairs_from_get(p, q);
}

/// Equality of two byte vectors.
fn bytes_eq(a: &Vec<u8>, b: &Vec<u8>) -> (r: bool)
    ensures
        r == (a@ == b@),
{
    let n = a.len();
    if n != b.len() {
        return false;
    }
    let mut i: usize = 0;
    while i < n
        invariant
            i <= n,
            n == a@.len(),
            n == b@.len(),
            forall|q: int| 0 <= q < i ==> a@[q] == b@[q],
        decreases n - i,
    {
        if a[i] != b[i] {
            return false;
        }
        i = i + 1;
    }
    proof {
        assert(a@ =~= b@);
    }
    true
}

/// The value a map's entry vector holds for a key, if any: the key's first
/// entry.
fn map_get<'a>(pairs: &'a Vec<(String, LLSDValue)>, k: &String) -> (r: Option<&'a LLSDValue>)
    ensures
        match r {
            Some(w) => crate::binary::assoc_get(model_pairs(pairs@), k@) == Some(model(*w)),
            None => crate::binary::assoc_get(model_pairs(pairs@), k@) is None,
        },
{
    let ghost mp = model_pairs(pairs@);
    proof {
        lemma_model_pairs_len(pairs@);
        assert(mp.skip(0) =~= mp);
    }
    let n = pairs.len();
    let mut j: usize = 0;
    while j < n
        invariant
            j <= n,
            n == pairs@.len(),
            mp == model_pairs(pairs@),
            mp.len() == n,
            crate::binary::assoc_get(mp, k@) == crate::binary::assoc_get(mp.skip(j as int), k@),
        decreases n - j,
    {
        proof {
            lemma_model_pairs_index(pairs@, j as int);
            assert(mp.skip(j as int)[0] == mp[j as int]);
            assert(mp.skip(j as int).drop_first() =~= mp.skip(j as int + 1));
        }
        let hit = pairs[j].0 == *k;
        if hit {
            return Some(&pairs[j].1);
        }
        j = j + 1;
    }
    proof {
        assert(mp.skip(n as int) =~= Seq::<(Seq<char>, SpecValue)>::empty());
    }
    None
}

/// Structural equality of two trees, maps compared independent of entry
/// order.
fn value_eq(a: &LLSDValue, b: &LLSDValue) -> (r: bool)
    ensures
        r == veq(a@, b@),
    decreases a,
{
    match (a, b) {
        (LLSDValue::Undefined, LLSDValue::Undefined) => true,
        (LLSDValue::Boolean(x), LLSDValue::Boolean(y)) => *x == *y,
        (LLSDValue::Real(x), LLSDValue::Real(y)) => *x == *y,
        (LLSDValue::Integer(x), LLSDValue::Integer(y)) => *x == *y,
        (LLSDValue::UUID(x), LLSDValue::UUID(y)) => bytes_eq(x, y),
        (LLSDValue::String(x), LLSDValue::String(y)) => crate::xml::str_eq_str(
            x.as_str(),
            y.as_str(),
        ),
        (LLSDValue::Date(x), LLSDValue::Date(y)) => *x == *y,
        (LLSDValue::URI(x), LLSDValue::URI(y)) => crate::xml::str_eq_str(x.as_str(), y.as_str()),
        (LLSDValue::Binary(x), LLSDValue::Binary(y)) => bytes_eq(x, y),
        (LLSDValue::Mapping(p), LLSDValue::Mapping(q)) => {
            proof {
                assert(decreases_to!(*a => *p));
            }
            pairs_eq(p, q)
        },
        (LLSDValue::Array(x), LLSDValue::Array(y)) => {
            proof {
                assert(decreases_to!(*a => *x));
            }
            items_eq(x, y)
        },
        _ => {
            assert(!veq(a@, b@));
            false
        },
    }
}

/// Map-content equality of two entry vectors: same size, and each left
/// entry found under its key on the right.
fn pairs_eq(p: &Vec<(String, LLSDValue)>, q: &Vec<(String, LLSDValue)>) -> (r: bool)
    ensures
        r == (model_pairs(p@).len() == model_pairs(q@).len() && veq_pairs(
            model_pairs(p@),
            model_pairs(q@),
        )),
    decreases p,
{
    let ghost mp = model_pairs(p@);
    let ghost mq = model_pairs(q@);
    proof {
        lemma_model_pairs_len(p@);
        lemma_model_pairs_len(q@);
        assert(mp.skip(0) =~= mp);
    }
    if p.len() != q.len() {
        return false;
    }
    let n = p.len();
    let mut i: usize = 0;
    while i < n
        invariant
            i <= n,
            n == p@.len(),
            mp == model_pairs(p@),
            mq == model_pairs(q@),
            mp.len() == n,
            veq_pairs(mp, mq) == veq_pairs(mp.skip(i as int), mq),
        decreases n - i,
    {
        proof {
            lemma_model_pairs_index(p@, i as int);
            assert(mp.skip(i as int)[0] == mp[i as int]);
            assert(mp.skip(i as int).drop_first() =~= mp.skip(i as int + 1));
            assert(decreases_to!(*p => p@));
            assert(decreases_to!(p@ => p@[i as int]));
            assert(decreases_to!(p@[i as int] => p@[i as int].1));
        }
        let entry = &p[i];
        match map_get(q, &entry.0) {
            Some(w) => {
                if !value_eq(&entry.1, w) {
                    return false;
                }
            },
            None => {
                return false;
            },
        }
        i = i + 1;
    }
    proof {
        assert(mp.skip(n as int) =~= Seq::<(Seq<char>, SpecValue)>::empty());
    }
    true
}

/// Elementwise equality of two value vectors.
fn items_eq(x: &Vec<LLSDValue>, y: &Vec<LLSDValue>) -> (r: bool)
    ensures
        r == (model_seq(x@).len() == model_seq(y@).len() && veq_seq(model_seq(x@), model_seq(y@))),
    decreases x,
{
    let ghost ma = model_seq(x@);
    let ghost mb = model_seq(y@);
    proof {
        lemma_model_seq_len(x@);
        lemma_model_seq_len(y@);
        assert(ma.skip(0) =~= ma);
        assert(mb.skip(0) =~= mb);
    }
    if x.len() != y.len() {
        return false;
    }
    let n = x.len();
    let mut i: usize = 0;
    while i < n
        invariant
            i <= n,
            n == x@.len(),
            n == y@.len(),
            ma == model_seq(x@),
            mb == model_seq(y@),
            ma.len() == n,
            mb.len() == n,
            veq_seq(ma, mb) == veq_seq(ma.skip(i as int), mb.skip(i as int)),
        decreases n - i,
    {
        proof {
            lemma_model_seq_index(x@, i as int);
            lemma_model_seq_index(y@, i as int);
            assert(ma.skip(i as int)[0] == ma[i as int]);
            assert(mb.skip(i as int)[0] == mb[i as int]);
            assert(ma.skip(i as int).drop_first() =~= ma.skip(i as int + 1));
            assert(mb.skip(i as int).drop_first() =~= mb.skip(i as int + 1));
            assert(decreases_to!(*x => x@));
            assert(decreases_to!(x@ => x@[i as int]));
        }
        if !value_eq(&x[i], &y[i]) {
            return false;
        }
        i = i + 1;
    }
    proof {
        assert(ma.skip(n as int) =~= Seq::<SpecValue>::empty());
    }
    true
}

impl PartialEq for LLSDValue {
    /// Structural equality, map equality independent of entry order.
    fn eq(&self, other: &LLSDValue) -> (r: bool) {
        value_eq(self, other)
    }
}

impl vstd::std_specs::cmp::PartialEqSpecImpl for LLSDValue {
    open spec fn obeys_eq_spec() -> bool {
        true
    }

    open spec fn eq_spec(&self, other: &LLSDValue) -> bool {
        veq(self@, other@)
    }
}

impl Clone for LLSDValue {
    /// Deep copy: the clone models the same tree.
    fn clone(&self) -> (r: LLSDValue)
        ensures
            r@ == self@,
    {
        clone_value(self)
    }
}

/// Deep copy of one node.
fn clone_value(v: &LLSDValue) -> (r: LLSDValue)
    ensures
        r@ == v@,
    decreases v,
{
    match v {
        LLSDValue::Undefined => LLSDValue::Undefined,
        LLSDValue::Boolean(b) => LLSDValue::Boolean(*b),
        LLSDValue::Real(bits) => LLSDValue::Real(*bits),
        LLSDValue::Integer(n) => LLSDValue::Integer(*n),
        LLSDValue::UUID(b) => LLSDValue::UUID(clone_bytes(b)),
        LLSDValue::String(s) => LLSDValue::String(s.clone()),
        LLSDValue::Date(d) => LLSDValue::Date(*d),
        LLSDValue::URI(s) => LLSDValue::URI(s.clone()),
        LLSDValue::Binary(b) => LLSDValue::Binary(clone_bytes(b)),
        LLSDValue::Mapping(ps) => {
            proof {
                assert(decreases_to!(*v => *ps));
            }
            LLSDValue::Mapping(clone_pairs(ps))
        },
        LLSDValue::Array(cs) => {
            proof {
                assert(decreases_to!(*v => *cs));
            }
            LLSDValue::Array(clone_items(cs))
        },
    }
}

/// Copy of a byte vector.
fn clone_bytes(b: &Vec<u8>) -> (r: Vec<u8>)
    ensures
        r@ == b@,
{
    let mut out: Vec<u8> = Vec::new();
    let n = b.len();
    let mut i: usize = 0;
    while i < n
        invariant
            i <= n,
            n == b@.len(),
            out@ == b@.take(i as int),
        decreases n - i,
    {
        out.push(b[i]);
        assert(out@ =~= b@.take(i + 1));
        i = i + 1;
    }
    proof {
        assert(b@.take(n as int) =~= b@);
    }
    out
}

/// Deep copy of sibling nodes.
fn clone_items(cs: &Vec<LLSDValue>) -> (r: Vec<LLSDValue>)
    ensures
        model_seq(r@) == model_seq(cs@),
    decreases cs,
{
    let mut out: Vec<LLSDValue> = Vec::new();
    let n = cs.len();
    let mut i: usize = 0;
    while i < n
        invariant
            i <= n,
            n == cs@.len(),
            out@.len() == i,
            model_seq(out@) == model_seq(cs@.take(i as int)),
        decreases n - i,
    {
        proof {
            assert(decreases_to!(*cs => cs@));
            assert(decreases_to!(cs@ => cs@[i as int]));
        }
        let c = clone_value(&cs[i]);
        proof {
            lemma_model_seq_push(out@, c);
            lemma_model_seq_push(cs@.take(i as int), cs@[i as int]);
            assert(cs@.take(i + 1) =~= cs@.take(i as int).push(cs@[i as int]));
        }
        out.push(c);
        i = i + 1;
    }
    proof {
        assert(cs@.take(n as int) =~= cs@);
    }
    out
}

/// Deep copy of map entries.
fn clone_pairs(ps: &Vec<(String, LLSDValue)>) -> (r: Vec<(String, LLSDValue)>)
    ensures
        model_pairs(r@) == model_pairs(ps@),
    decreases ps,
{
    let mut out: Vec<(String, LLSDValue)> = Vec::new();
    let n = ps.len();
    let mut i: usize = 0;
    while i < n
        invariant
            i <= n,
            n == ps@.len(),
            out@.len() == i,
            model_pairs(out@) == model_pairs(ps@.take(i as int)),
        decreases n - i,
    {
        proof {
            assert(decreases_to!(*ps => ps@));
            assert(decreases_to!(ps@ => ps@[i as int]));
            assert(decreases_to!(ps@[i as int] => ps@[i as int].1));
        }
        let entry = &ps[i];
        let k = entry.0.clone();
        let v = clone_value(&entry.1);
        proof {
            lemma_model_pairs_push(out@, (k, v));
            lemma_model_pairs_push(ps@.take(i as int), ps@[i as int]);
            assert(ps@.take(i + 1) =~= ps@.take(i as int).push(ps@[i as int]));
        }
        out.push((k, v));
        i = i + 1;
    }
    proof {
        assert(ps@.take(n as int) =~= ps@);
    }
    out
}

/// First position at or after `i` in `t` that holds no ASCII whitespace.
pub open spec fn spec_skip_ws(t: Seq<char>, i: int) -> int
    decreases t.len() - i,
{
    if 0 <= i < t.len() && (t[i] == ' ' || t[i] == '\t' || t[i] == '\n' || t[i] == '\r') {
        spec_skip_ws(t, i + 1)
    } else {
        i
    }
}

/// The text, after leading whitespace, starts with the `<?xml` declaration.
pub open spec fn spec_text_sentinel(t: Seq<char>) -> bool {
    let w = spec_skip_ws(t, 0);
    t.len() - w >= 5 && t[w] == '<' && t[w + 1] == '?' && t[w + 2] == 'x' && t[w + 3] == 'm' && t[w
        + 4] == 'l'
}

/// The buffer starts with the binary message sentinel.
pub open spec fn spec_binary_sentinel_at(b: Seq<u8>) -> bool {
    b.len() >= 18 && b.subrange(0, 18) == binary::spec_sentinel()
}

/// The buffer's first and last bytes are a matching composite bracket pair.
pub open spec fn spec_bracket_pair(b: Seq<u8>) -> bool {
    b.len() > 1 && ((b[0] == 123 && b[b.len() - 1] == 125) || (b[0] == 91 && b[b.len() - 1]
        == 93))
}

/// The index where leading ASCII whitespace ends.
pub(crate) fn leading_ws_count(s: &str, n: usize) -> (r: usize)
    requires
        n == s@.len(),
    ensures
        r <= n,
        r as int == spec_skip_ws(s@, 0),
{
    let mut w: usize = 0;
    while w < n
        invariant
            w <= n,
            n == s@.len(),
            spec_skip_ws(s@, 0) == spec_skip_ws(s@, w as int),
        decreases n - w,
    {
        let c = s.get_char(w);
        if !(c == ' ' || c == '\t' || c == '\n' || c == '\r') {
            assert(spec_skip_ws(s@, w as int) == w as int);
            return w;
        }
        w = w + 1;
    }
    w
}

impl LLSDValue {
    /// Parse LLSD, detecting the format: a buffer carrying the binary
    /// sentinel is decoded as a full binary message; a headerless binary
    /// composite (matching `{`...`}` or `[`...`]` bracket bytes) is decoded
    /// as binary without a header; anything else must be UTF-8 text, and is
    /// decoded as XML when, after leading whitespace, it starts with the
    /// `<?xml` declaration.  Otherwise the buffer's format is not
    /// recognized, and the error carries a diagnostic snippet of at most 60
    /// characters, cut on a character boundary.
    pub fn parse(msg: &[u8]) -> (r: Result<LLSDValue, err::LLSDError>)
        ensures
            r matches Ok(v) ==> wf(v@),
            spec_binary_sentinel_at(msg@) ==> (match r {
                Ok(v) => binary::spec_message_decode(msg@) == Ok::<SpecValue, err::ErrClass>(v@),
                Err(e) => binary::spec_message_decode(msg@) == Err::<SpecValue, err::ErrClass>(
                    e.class(),
                ),
            }),
            !spec_binary_sentinel_at(msg@) && spec_bracket_pair(msg@) ==> (match r {
                Ok(v) => binary::spec_value_decode(msg@) == Ok::<SpecValue, err::ErrClass>(v@),
                Err(e) => binary::spec_value_decode(msg@) == Err::<SpecValue, err::ErrClass>(
                    e.class(),
                ),
            }),
            !spec_binary_sentinel_at(msg@) && !spec_bracket_pair(msg@) && !vstd::utf8::valid_utf8(
                msg@,
            ) ==> (r matches Err(e) && e.class() == err::ErrClass::InvalidUtf8),
            (!spec_binary_sentinel_at(msg@) && !spec_bracket_pair(msg@) && vstd::utf8::valid_utf8(
                msg@,
            ) && spec_text_sentinel(vstd::utf8::decode_utf8(msg@))) ==> (match r {
                Ok(v) => xml::sp_document(vstd::utf8::decode_utf8(msg@), Ok(v@)),
                Err(e) => xml::sp_document(vstd::utf8::decode_utf8(msg@), Err(e.class())),
            }),
            (!spec_binary_sentinel_at(msg@) && !spec_bracket_pair(msg@) && vstd::utf8::valid_utf8(
                msg@,
            ) && !spec_text_sentinel(vstd::utf8::decode_utf8(msg@))) ==> {
                let text = vstd::utf8::decode_utf8(msg@);
                (r matches Err(err::LLSDError::FormatNotRecognized { snippet }) && snippet@
                    == text.take(
                    if text.len() < 60 {
                        text.len() as int
                    } else {
                        60
                    },
                ))
            },
    {
        if binary::has_binary_sentinel(msg) {
            return binary::parse(msg);
        }
        // headerless binary: matching composite bracket bytes at both ends
        if msg.len() > 1 {
            let first = *vstd::slice::slice_index_get(msg, 0);
            let last = *vstd::slice::slice_index_get(msg, msg.len() - 1);
            if (first == 123 && last == 125) || (first == 91 && last == 93) {
                return binary::parse_array(msg);
            }
        }
        // no binary framing: the buffer must be UTF-8 text
        let msgstring = match outside::utf8_to_str(msg) {
            Some(st) => st,
            None => {
                return Err(err::LLSDError::InvalidUtf8 { offset: 0 });
            },
        };
        let n = msgstring.unicode_len();
        let w = leading_ws_count(msgstring, n);
        let mut is_xml = n - w >= 5;
        if is_xml {
            is_xml = msgstring.get_char(w) == '<' && msgstring.get_char(w + 1) == '?'
                && msgstring.get_char(w + 2) == 'x' && msgstring.get_char(w + 3) == 'm'
                && msgstring.get_char(w + 4) == 'l';
        }
        if is_xml {
            return xml::parse(msgstring);
        }
        // not recognized: report with a character-boundary-safe snippet
        let k: usize = if n < 60 {
            n
        } else {
            60
        };
        let snippet = msgstring.substring_char(0, k).to_owned();
        proof {
            assert(snippet@ =~= vstd::utf8::decode_utf8(msg@).take(
                if vstd::utf8::decode_utf8(msg@).len() < 60 {
                    vstd::utf8::decode_utf8(msg@).len() as int
                } else {
                    60
                },
            ));
        }
        Err(err::LLSDError::FormatNotRecognized { snippet })
    }
}

} // verus!
