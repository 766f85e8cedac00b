//! Canonical finite payload types and assume/guarantee predicates, with
//! order-independent SHA-256 identities.

use vstd::prelude::*;
use vstd::string::StringSliceAdditionalSpecFns;
use vstd::utf8::encode_utf8;
use crate::sha256::{append_bytes, be64, digest_eq, hex, hex_text, push_be64, sha256, sha256_spec};
use crate::smap::{StrMap, has_key, key_seq, lookup, sorted_keys, entries_view, lemma_sorted_ext, lemma_lookup_none, map_entry_values, lemma_map_entry_values};
use crate::text::{debug_text, quote_between, seq_lt, str_eq};

verus! {

/// A finite name: an ASCII letter or underscore, then ASCII letters,
/// digits, `_`, `-` or `.`, at most 255 characters.
pub open spec fn is_atom(s: Seq<char>) -> bool {
    &&& s.len() > 0
    &&& s.len() <= 255
    &&& atom_head(s[0])
    &&& forall|i: int| 1 <= i < s.len() ==> atom_tail(#[trigger] s[i])
}

pub open spec fn atom_head(c: char) -> bool {
    ('a' <= c && c <= 'z') || ('A' <= c && c <= 'Z') || c == '_'
}

pub open spec fn atom_tail(c: char) -> bool {
    atom_head(c) || ('0' <= c && c <= '9') || c == '-' || c == '.'
}

/// Whether `value` is a finite name.
pub fn canonical_atom(value: &str) -> (r: bool)
    ensures
        r == is_atom(value@),
{
    let n = value.unicode_len();
    if n == 0 || n > 255 {
        return false;
    }
    let first = value.get_char(0);
    if !(('a' <= first && first <= 'z') || ('A' <= first && first <= 'Z') || first == '_') {
        return false;
    }
    let mut i: usize = 1;
    while i < n
        invariant
            n == value@.len(),
            1 <= i <= n,
            forall|j: int| 1 <= j < i ==> atom_tail(#[trigger] value@[j]),
        decreases n - i,
    {
        let c = value.get_char(i);
        if !(('a' <= c && c <= 'z') || ('A' <= c && c <= 'Z') || c == '_' || ('0' <= c && c <= '9') || c == '-' || c == '.') {
            return false;
        }
        i = i + 1;
    }
    true
}

/// The length-prefixed UTF-8 bytes of a text.
pub open spec fn text_bytes(s: Seq<char>) -> Seq<u8> {
    be64(encode_utf8(s).len() as u64) + encode_utf8(s)
}

/// The length-prefixed texts of `vs`, one after another.
pub open spec fn texts_bytes(vs: Seq<Seq<char>>) -> Seq<u8>
    decreases vs.len(),
{
    if vs.len() == 0 {
        Seq::empty()
    } else {
        texts_bytes(vs.drop_last()) + text_bytes(vs.last())
    }
}

pub open spec fn payload_type_domain() -> Seq<u8> {
    seq![78u8, 77u8, 76u8, 84u8, 45u8, 80u8, 65u8, 89u8, 76u8, 79u8, 65u8, 68u8, 45u8, 84u8, 89u8, 80u8, 69u8, 0u8, 118u8, 49u8, 0u8]
}

pub open spec fn payload_predicate_domain() -> Seq<u8> {
    seq![78u8, 77u8, 76u8, 84u8, 45u8, 80u8, 65u8, 89u8, 76u8, 79u8, 65u8, 68u8, 45u8, 80u8, 82u8, 69u8, 68u8, 73u8, 67u8, 65u8, 84u8, 69u8, 0u8, 118u8, 49u8, 0u8]
}

/// The identity of the type `name` with the sorted variants `variants`.
pub open spec fn payload_type_id(name: Seq<char>, variants: Seq<Seq<char>>) -> Seq<u8> {
    sha256_spec(payload_type_domain() + text_bytes(name) + be64(variants.len() as u64) + texts_bytes(variants))
}

/// The identity of the predicate accepting the sorted `values` of the type `ty`.
pub open spec fn payload_predicate_id(ty: Seq<u8>, values: Seq<Seq<char>>) -> Seq<u8> {
    sha256_spec(payload_predicate_domain() + ty + be64(values.len() as u64) + texts_bytes(values))
}

fn push_text(out: &mut Vec<u8>, value: &str)
    ensures
        final(out)@ == old(out)@ + text_bytes(value@),
{
    let bytes = value.as_bytes();
    proof {
        assert(bytes@ == encode_utf8(value@));
    }
    push_be64(out, bytes.len() as u64);
    append_bytes(out, bytes);
}

fn push_texts(out: &mut Vec<u8>, set: &StrMap<()>)
    ensures
        final(out)@ == old(out)@ + texts_bytes(key_seq(set@)),
{
    let entries = set.entries();
    let ghost keys = key_seq(set@);
    let ghost start = out@;
    let mut i: usize = 0;
    while i < entries.len()
        invariant
            entries_view(entries@) == set@,
            keys == key_seq(set@),
            i <= entries@.len(),
            out@ == start + texts_bytes(keys.subrange(0, i as int)),
        decreases entries@.len() - i,
    {
        push_text(out, entries[i].0.as_str());
        proof {
            let pre = keys.subrange(0, i + 1);
            assert(pre.drop_last() =~= keys.subrange(0, i as int));
            assert(pre.last() == entries@[i as int].0@);
            assert(out@ =~= start + texts_bytes(pre));
        }
        i = i + 1;
    }
    proof {
        assert(keys.subrange(0, entries@.len() as int) =~= keys);
    }
}

#[derive(Clone, Copy, Debug, PartialEq, Eq, PartialOrd, Ord, Hash)]
pub struct PayloadTypeId([u8; 32]);

#[derive(Clone, Copy, Debug, PartialEq, Eq, PartialOrd, Ord, Hash)]
pub struct PayloadPredicateId([u8; 32]);

impl View for PayloadTypeId {
    type V = Seq<u8>;

    closed spec fn view(&self) -> Seq<u8> {
        self.0@
    }
}

impl View for PayloadPredicateId {
    type V = Seq<u8>;

    closed spec fn view(&self) -> Seq<u8> {
        self.0@
    }
}

impl PayloadTypeId {
    pub fn digest(&self) -> (r: [u8; 32])
        ensures
            r@ == self@,
    {
        self.0
    }

    /// Whether both identities are equal.
    pub fn same(&self, other: &PayloadTypeId) -> (r: bool)
        ensures
            r == (self@ == other@),
    {
        digest_eq(&self.0, &other.0)
    }

    /// The identity written as `nmlt-payload-type-v1:sha256:` and the hex digest.
    pub fn to_string(&self) -> (r: String)
        ensures
            r@ == "nmlt-payload-type-v1:sha256:"@ + hex_text(self@),
    {
        let h = hex(self.0.as_slice());
        String::from_str("nmlt-payload-type-v1:sha256:").concat(h.as_str())
    }
}

impl PayloadPredicateId {
    pub fn digest(&self) -> (r: [u8; 32])
        ensures
            r@ == self@,
    {
        self.0
    }

    /// Whether both identities are equal.
    pub fn same(&self, other: &PayloadPredicateId) -> (r: bool)
        ensures
            r == (self@ == other@),
    {
        digest_eq(&self.0, &other.0)
    }

    /// The identity written as `nmlt-payload-predicate-v1:sha256:` and the hex digest.
    pub fn to_string(&self) -> (r: String)
        ensures
            r@ == "nmlt-payload-predicate-v1:sha256:"@ + hex_text(self@),
    {
        let h = hex(self.0.as_slice());
        String::from_str("nmlt-payload-predicate-v1:sha256:").concat(h.as_str())
    }
}

#[derive(Clone, Debug, PartialEq, Eq)]
pub enum PayloadTypeError {
    InvalidName(String),
    EmptyVariants,
    InvalidVariant(String),
    DuplicateVariant(String),
}

/// A finite nominal payload type with a canonical, order-independent identity.
#[derive(Clone, Debug, PartialEq, Eq)]
pub struct PayloadType {
    name: String,
    variants: StrMap<()>,
    id: PayloadTypeId,
}

pub struct PayloadTypeV {
    pub name: Seq<char>,
    pub variants: Seq<Seq<char>>,
    pub id: Seq<u8>,
}

impl View for PayloadType {
    type V = PayloadTypeV;

    closed spec fn view(&self) -> PayloadTypeV {
        PayloadTypeV { name: self.name@, variants: key_seq(self.variants@), id: self.id@ }
    }
}

/// The item at `i` of `vs` is not a name, or repeats an earlier item.
pub open spec fn list_fault(vs: Seq<Seq<char>>, i: int) -> bool {
    !is_atom(vs[i]) || vs.subrange(0, i).contains(vs[i])
}

/// `s` is the strictly increasing arrangement of the set of `vs`.
pub open spec fn sorted_set_of(s: Seq<Seq<char>>, vs: Seq<Seq<char>>) -> bool {
    &&& forall|i: int, j: int| 0 <= i < j < s.len() ==> seq_lt(s[i], s[j])
    &&& s.to_set() == vs.to_set()
}

pub open spec fn str_views(s: Seq<&str>) -> Seq<Seq<char>> {
    s.map_values(|a: &str| a@)
}

/// Inserts the items of `vs` into a fresh set, failing on the first item that
/// is not a name or repeats an earlier one.
fn collect_atoms(vs: &Vec<&str>) -> (r: Result<StrMap<()>, usize>)
    ensures
        r matches Ok(m) ==> sorted_keys(m@) && sorted_set_of(key_seq(m@), str_views(vs@)) && forall|i: int| 0 <= i < vs@.len() ==> !list_fault(str_views(vs@), i),
        r matches Err(i) ==> i < vs@.len() && list_fault(str_views(vs@), i as int) && forall|j: int| 0 <= j < i ==> !list_fault(str_views(vs@), j),
        r is Ok <==> forall|i: int| 0 <= i < vs@.len() ==> !list_fault(str_views(vs@), i),
{
    let ghost sv = str_views(vs@);
    let mut set: StrMap<()> = StrMap::new();
    proof {
        assert(key_seq(set@).to_set() =~= sv.subrange(0, 0).to_set());
    }
    let mut i: usize = 0;
    while i < vs.len()
        invariant
            sv == str_views(vs@),
            i <= vs@.len(),
            sorted_keys(set@),
            key_seq(set@).to_set() == sv.subrange(0, i as int).to_set(),
            forall|k: Seq<char>| #[trigger] has_key(set@, k) == sv.subrange(0, i as int).contains(k),
            forall|j: int| 0 <= j < i ==> !list_fault(sv, j),
        decreases vs@.len() - i,
    {
        let v = vs[i];
        proof {
            assert(sv[i as int] == v@);
        }
        if !canonical_atom(v) {
            proof {
                assert(list_fault(sv, i as int));
            }
            return Err(i);
        }
        if set.contains_key(v) {
            proof {
                assert(has_key(set@, v@));
                assert(list_fault(sv, i as int));
            }
            return Err(i);
        }
        let ghost before = set@;
        set.insert(v.to_owned(), ());
        proof {
            let pre = sv.subrange(0, i + 1);
            assert(pre =~= sv.subrange(0, i as int).push(v@));
            sv.subrange(0, i as int).lemma_push_to_set_commute(v@);
            assert forall|k: Seq<char>| #[trigger] has_key(set@, k) == pre.contains(k) by {
                assert(has_key(before, k) == sv.subrange(0, i as int).contains(k));
                assert(pre[i as int] == v@);
                if sv.subrange(0, i as int).contains(k) {
                    let w = choose|w: int| 0 <= w < i && sv.subrange(0, i as int)[w] == k;
                    assert(pre[w] == k);
                }
                if pre.contains(k) && k != v@ {
                    let w = choose|w: int| 0 <= w < pre.len() && pre[w] == k;
                    assert(sv.subrange(0, i as int)[w] == k);
                }
            }
            assert forall|k: Seq<char>| key_seq(set@).to_set().contains(k) <==> pre.to_set().contains(k) by {
                if key_seq(set@).contains(k) {
                    let w = choose|w: int| 0 <= w < key_seq(set@).len() && key_seq(set@)[w] == k;
                    assert(set@[w].0 == k);
                }
                if has_key(set@, k) {
                    let w = choose|w: int| 0 <= w < set@.len() && set@[w].0 == k;
                    assert(key_seq(set@)[w] == k);
                }
            }
            assert(key_seq(set@).to_set() =~= pre.to_set());
        }
        i = i + 1;
    }
    proof {
        assert(sv.subrange(0, vs@.len() as int) =~= sv);
        assert forall|a: int, b: int| 0 <= a < b < key_seq(set@).len() implies seq_lt(key_seq(set@)[a], key_seq(set@)[b]) by {
            assert(key_seq(set@)[a] == set@[a].0 && key_seq(set@)[b] == set@[b].0);
        }
    }
    Ok(set)
}

impl PayloadType {
    /// A finite enumeration type. Fails on an invalid name, then on the first
    /// variant, in input order, that is invalid or repeated, then on an empty
    /// list of variants.
    pub fn enumeration(name: &str, variants: Vec<&str>) -> (r: Result<PayloadType, PayloadTypeError>)
        ensures
            r is Ok <==> is_atom(name@) && variants@.len() > 0 && forall|i: int| 0 <= i < variants@.len() ==> !list_fault(str_views(variants@), i),
            r matches Ok(t) ==> t@.name == name@ && sorted_set_of(t@.variants, str_views(variants@)) && t@.id == payload_type_id(name@, t@.variants),
            r matches Err(e) ==> match e {
                PayloadTypeError::InvalidName(n) => n@ == name@ && !is_atom(name@),
                PayloadTypeError::EmptyVariants => is_atom(name@) && variants@.len() == 0,
                PayloadTypeError::InvalidVariant(v) => is_atom(name@) && exists|i: int| 0 <= i < variants@.len() && v@ == variants@[i]@
                    && !is_atom(variants@[i]@) && forall|j: int| 0 <= j < i ==> !list_fault(str_views(variants@), j),
                PayloadTypeError::DuplicateVariant(v) => is_atom(name@) && exists|i: int| 0 <= i < variants@.len() && v@ == variants@[i]@
                    && is_atom(variants@[i]@) && str_views(variants@).subrange(0, i).contains(variants@[i]@)
                    && forall|j: int| 0 <= j < i ==> !list_fault(str_views(variants@), j),
            },
    {
        if !canonical_atom(name) {
            return Err(PayloadTypeError::InvalidName(name.to_owned()));
        }
        let set = match collect_atoms(&variants) {
            Ok(set) => set,
            Err(i) => {
                let v = variants[i];
                proof {
                    assert(str_views(variants@)[i as int] == v@);
                }
                if !canonical_atom(v) {
                    return Err(PayloadTypeError::InvalidVariant(v.to_owned()));
                }
                return Err(PayloadTypeError::DuplicateVariant(v.to_owned()));
            },
        };
        if variants.len() == 0 {
            return Err(PayloadTypeError::EmptyVariants);
        }
        let id = payload_type_digest(name, &set);
        Ok(PayloadType { name: name.to_owned(), variants: set, id })
    }

    /// The built-in unit type, with the single variant `unit`.
    pub fn unit() -> (r: PayloadType)
        ensures
            r@.name == "Unit"@,
            r@.variants == seq!["unit"@],
    {
        proof {
            reveal_strlit("Unit");
            reveal_strlit("unit");
        }
        let variants = vec!["unit"];
        proof {
            assert(str_views(variants@) =~= seq!["unit"@]);
            assert(str_views(variants@).subrange(0, 0).len() == 0);
            assert(is_atom("unit"@));
            assert(is_atom("Unit"@));
        }
        match PayloadType::enumeration("Unit", variants) {
            Ok(t) => {
                proof {
                    let s = t@.variants;
                    assert(seq!["unit"@].to_set().contains("unit"@)) by {
                        assert(seq!["unit"@][0] == "unit"@);
                    }
                    assert(s.to_set().contains("unit"@));
                    assert(s.len() == 1) by {
                        if s.len() > 1 {
                            assert(s.to_set().contains(s[1]));
                            assert(s.to_set().contains(s[0]));
                            crate::text::lemma_seq_lt_irreflexive(s[0]);
                        }
                        if s.len() == 0 {
                            assert(!s.to_set().contains("unit"@));
                        }
                    }
                    assert(s[0] == "unit"@) by {
                        assert(s.to_set().contains(s[0]));
                        assert(seq!["unit"@].to_set().contains(s[0]));
                    }
                    assert(s =~= seq!["unit"@]);
                }
                t
            },
            Err(_) => {
                proof {
                    assert(false);
                }
                PayloadType { name: String::new(), variants: StrMap::new(), id: PayloadTypeId([0u8; 32]) }
            },
        }
    }

    /// A type with the same name, variants and identity.
    pub fn copy(&self) -> (r: PayloadType)
        ensures
            r@ == self@,
    {
        PayloadType { name: self.name.clone(), variants: copy_set(&self.variants), id: self.id }
    }

    pub fn name(&self) -> (r: &str)
        ensures
            r@ == self@.name,
    {
        self.name.as_str()
    }

    /// The variants, in increasing order.
    pub fn variants(&self) -> (r: &StrMap<()>)
        ensures
            key_seq(r@) == self@.variants,
    {
        &self.variants
    }

    pub fn id(&self) -> (r: PayloadTypeId)
        ensures
            r@ == self@.id,
    {
        self.id
    }

    /// Whether `value` is a variant of this type.
    pub fn has_variant(&self, value: &str) -> (r: bool)
        ensures
            r == self@.variants.contains(value@),
    {
        let r = self.variants.contains_key(value);
        proof {
            if r {
                let w = choose|w: int| 0 <= w < self.variants@.len() && self.variants@[w].0 == value@;
                assert(key_seq(self.variants@)[w] == value@);
            }
            if key_seq(self.variants@).contains(value@) {
                let w = choose|w: int| 0 <= w < key_seq(self.variants@).len() && key_seq(self.variants@)[w] == value@;
                assert(self.variants@[w].0 == value@);
            }
        }
        r
    }
}

fn payload_type_digest(name: &str, set: &StrMap<()>) -> (r: PayloadTypeId)
    ensures
        r@ == payload_type_id(name@, key_seq(set@)),
{
    let mut bytes: Vec<u8> = Vec::new();
    let domain: [u8; 21] = [78, 77, 76, 84, 45, 80, 65, 89, 76, 79, 65, 68, 45, 84, 89, 80, 69, 0, 118, 49, 0];
    proof {
        assert(domain@ =~= payload_type_domain());
    }
    append_bytes(&mut bytes, domain.as_slice());
    push_text(&mut bytes, name);
    push_be64(&mut bytes, set.len() as u64);
    push_texts(&mut bytes, set);
    proof {
        assert(bytes@ =~= payload_type_domain() + text_bytes(name@) + be64(key_seq(set@).len() as u64) + texts_bytes(key_seq(set@)));
    }
    PayloadTypeId(sha256(bytes.as_slice()))
}

fn payload_predicate_digest(ty: &PayloadTypeId, set: &StrMap<()>) -> (r: PayloadPredicateId)
    ensures
        r@ == payload_predicate_id(ty@, key_seq(set@)),
{
    let mut bytes: Vec<u8> = Vec::new();
    let domain: [u8; 26] = [78, 77, 76, 84, 45, 80, 65, 89, 76, 79, 65, 68, 45, 80, 82, 69, 68, 73, 67, 65, 84, 69, 0, 118, 49, 0];
    proof {
        assert(domain@ =~= payload_predicate_domain());
    }
    append_bytes(&mut bytes, domain.as_slice());
    append_bytes(&mut bytes, ty.0.as_slice());
    push_be64(&mut bytes, set.len() as u64);
    push_texts(&mut bytes, set);
    proof {
        assert(bytes@ =~= payload_predicate_domain() + ty@ + be64(key_seq(set@).len() as u64) + texts_bytes(key_seq(set@)));
    }
    PayloadPredicateId(sha256(bytes.as_slice()))
}


/// Two strictly increasing sequences with the same items are equal.
pub proof fn lemma_sorted_sets_equal(a: Seq<Seq<char>>, b: Seq<Seq<char>>)
    requires
        forall|i: int, j: int| 0 <= i < j < a.len() ==> seq_lt(a[i], a[j]),
        forall|i: int, j: int| 0 <= i < j < b.len() ==> seq_lt(b[i], b[j]),
        a.to_set() == b.to_set(),
    ensures
        a == b,
    decreases a.len(),
{
    if a.len() == 0 {
        if b.len() > 0 {
            assert(b.to_set().contains(b[0]));
        }
        assert(a =~= b);
    } else {
        assert(a.to_set().contains(a[0]));
        assert(b.len() > 0);
        assert(b.to_set().contains(b[0]));
        let i = choose|i: int| 0 <= i < a.len() && a[i] == b[0];
        let j = choose|j: int| 0 <= j < b.len() && b[j] == a[0];
        if a[0] != b[0] {
            assert(i > 0 && j > 0);
            crate::text::lemma_seq_lt_transitive(a[0], a[i], a[0]);
            crate::text::lemma_seq_lt_irreflexive(a[0]);
        }
        let a1 = a.drop_first();
        let b1 = b.drop_first();
        assert forall|x: Seq<char>| a1.to_set().contains(x) <==> b1.to_set().contains(x) by {
            if a1.contains(x) {
                let w = choose|w: int| 0 <= w < a1.len() && a1[w] == x;
                assert(a[w + 1] == x);
                assert(x != a[0]) by {
                    if x == a[0] {
                        crate::text::lemma_seq_lt_irreflexive(a[0]);
                    }
                }
                assert(a.contains(x));
                assert(a.to_set().contains(x));
                assert(b.to_set().contains(x));
                assert(b.contains(x));
                let v = choose|v: int| 0 <= v < b.len() && b[v] == x;
                assert(v != 0);
                assert(b1[v - 1] == x);
            }
            if b1.contains(x) {
                let w = choose|w: int| 0 <= w < b1.len() && b1[w] == x;
                assert(b[w + 1] == x);
                assert(x != b[0]) by {
                    if x == b[0] {
                        crate::text::lemma_seq_lt_irreflexive(b[0]);
                    }
                }
                assert(b.contains(x));
                assert(b.to_set().contains(x));
                assert(a.to_set().contains(x));
                assert(a.contains(x));
                let v = choose|v: int| 0 <= v < a.len() && a[v] == x;
                assert(v != 0);
                assert(a1[v - 1] == x);
            }
        }
        assert(a1.to_set() =~= b1.to_set());
        lemma_sorted_sets_equal(a1, b1);
        assert(a =~= b) by {
            assert(a =~= seq![a[0]] + a1);
            assert(b =~= seq![b[0]] + b1);
        }
    }
}

/// The identity of a payload type depends on its name and on the set of its
/// variants, not on the order in which they were listed.
pub proof fn payload_identity_order_independent(name: Seq<char>, s1: Seq<Seq<char>>, v1: Seq<Seq<char>>, s2: Seq<Seq<char>>, v2: Seq<Seq<char>>)
    requires
        sorted_set_of(s1, v1),
        sorted_set_of(s2, v2),
        v1.to_set() == v2.to_set(),
    ensures
        payload_type_id(name, s1) == payload_type_id(name, s2),
{
    lemma_sorted_sets_equal(s1, s2);
}

#[derive(Clone, Debug, PartialEq, Eq)]
pub enum PayloadPredicateError {
    InvalidValue(String),
    DuplicateValue(String),
    ValueOutsideType { payload_type: PayloadTypeId, value: String },
}

/// A canonical finite predicate: the accepted subset of a payload type.
#[derive(Clone, Debug, PartialEq, Eq)]
pub struct PayloadPredicate {
    payload_type: PayloadTypeId,
    accepted: StrMap<()>,
    id: PayloadPredicateId,
}

pub struct PayloadPredicateV {
    pub payload_type: Seq<u8>,
    pub accepted: Seq<Seq<char>>,
    pub id: Seq<u8>,
}

impl View for PayloadPredicate {
    type V = PayloadPredicateV;

    closed spec fn view(&self) -> PayloadPredicateV {
        PayloadPredicateV { payload_type: self.payload_type@, accepted: key_seq(self.accepted@), id: self.id@ }
    }
}

/// The value at `i` of `vs` is not a name, not a variant of the type, or a repeat.
pub open spec fn value_fault(variants: Seq<Seq<char>>, vs: Seq<Seq<char>>, i: int) -> bool {
    !is_atom(vs[i]) || !variants.contains(vs[i]) || vs.subrange(0, i).contains(vs[i])
}

/// A copy of a string set.
fn copy_set(set: &StrMap<()>) -> (r: StrMap<()>)
    ensures
        r@ == set@,
{
    let e = set.entries();
    let mut out: StrMap<()> = StrMap::new();
    let mut i: usize = 0;
    while i < e.len()
        invariant
            entries_view(e@) == set@,
            i <= e@.len(),
            out@ == set@.subrange(0, i as int),
        decreases e@.len() - i,
    {
        out.push_unchecked(e[i].0.clone(), ());
        proof {
            assert(out@ =~= set@.subrange(0, i + 1));
        }
        i = i + 1;
    }
    proof {
        assert(set@.subrange(0, e@.len() as int) =~= set@);
    }
    out
}

impl PayloadPredicate {
    /// The predicate accepting `accepted` of `payload_type`. Fails on the
    /// first value, in input order, that is not a name, not a variant of
    /// the type, or a repeat, in that order of checks.
    pub fn new(payload_type: &PayloadType, accepted: Vec<&str>) -> (r: Result<PayloadPredicate, PayloadPredicateError>)
        ensures
            r is Ok <==> forall|i: int| 0 <= i < accepted@.len() ==> !value_fault(payload_type@.variants, str_views(accepted@), i),
            r matches Ok(p) ==> p@.payload_type == payload_type@.id && sorted_set_of(p@.accepted, str_views(accepted@))
                && p@.id == payload_predicate_id(payload_type@.id, p@.accepted),
            r matches Err(e) ==> exists|i: int| #![trigger accepted@[i]] 0 <= i < accepted@.len() && (forall|j: int| 0 <= j < i ==> !value_fault(payload_type@.variants, str_views(accepted@), j)) && match e {
                PayloadPredicateError::InvalidValue(v) => v@ == accepted@[i]@ && !is_atom(v@),
                PayloadPredicateError::ValueOutsideType { payload_type: t, value } => value@ == accepted@[i]@ && is_atom(value@)
                    && t@ == payload_type@.id && !payload_type@.variants.contains(value@),
                PayloadPredicateError::DuplicateValue(v) => v@ == accepted@[i]@ && is_atom(v@) && payload_type@.variants.contains(v@)
                    && str_views(accepted@).subrange(0, i).contains(v@),
            },
    {
        let ghost sv = str_views(accepted@);
        let ghost vars = payload_type@.variants;
        let mut set: StrMap<()> = StrMap::new();
        proof {
            assert(key_seq(set@).to_set() =~= sv.subrange(0, 0).to_set());
        }
        let mut i: usize = 0;
        while i < accepted.len()
            invariant
                sv == str_views(accepted@),
                vars == payload_type@.variants,
                i <= accepted@.len(),
                sorted_keys(set@),
                key_seq(set@).to_set() == sv.subrange(0, i as int).to_set(),
                forall|k: Seq<char>| #[trigger] has_key(set@, k) == sv.subrange(0, i as int).contains(k),
                forall|j: int| 0 <= j < i ==> !value_fault(vars, sv, j),
            decreases accepted@.len() - i,
        {
            let v = accepted[i];
            proof {
                assert(sv[i as int] == v@);
            }
            if !canonical_atom(v) {
                proof {
                    assert(value_fault(vars, sv, i as int));
                }
                return Err(PayloadPredicateError::InvalidValue(v.to_owned()));
            }
            if !payload_type.has_variant(v) {
                proof {
                    assert(value_fault(vars, sv, i as int));
                }
                return Err(PayloadPredicateError::ValueOutsideType { payload_type: payload_type.id(), value: v.to_owned() });
            }
            if set.contains_key(v) {
                proof {
                    assert(has_key(set@, v@));
                    assert(value_fault(vars, sv, i as int));
                }
                return Err(PayloadPredicateError::DuplicateValue(v.to_owned()));
            }
            let ghost before = set@;
            set.insert(v.to_owned(), ());
            proof {
                let pre = sv.subrange(0, i + 1);
                assert(pre =~= sv.subrange(0, i as int).push(v@));
                sv.subrange(0, i as int).lemma_push_to_set_commute(v@);
                assert forall|k: Seq<char>| #[trigger] has_key(set@, k) == pre.contains(k) by {
                    assert(has_key(before, k) == sv.subrange(0, i as int).contains(k));
                    assert(pre[i as int] == v@);
                    if sv.subrange(0, i as int).contains(k) {
                        let w = choose|w: int| 0 <= w < i && sv.subrange(0, i as int)[w] == k;
                        assert(pre[w] == k);
                    }
                    if pre.contains(k) && k != v@ {
                        let w = choose|w: int| 0 <= w < pre.len() && pre[w] == k;
                        assert(sv.subrange(0, i as int)[w] == k);
                    }
                }
                assert forall|k: Seq<char>| key_seq(set@).to_set().contains(k) <==> pre.to_set().contains(k) by {
                    if key_seq(set@).contains(k) {
                        let w = choose|w: int| 0 <= w < key_seq(set@).len() && key_seq(set@)[w] == k;
                        assert(set@[w].0 == k);
                    }
                    if has_key(set@, k) {
                        let w = choose|w: int| 0 <= w < set@.len() && set@[w].0 == k;
                        assert(key_seq(set@)[w] == k);
                    }
                }
                assert(key_seq(set@).to_set() =~= pre.to_set());
            }
            i = i + 1;
        }
        proof {
            assert(sv.subrange(0, accepted@.len() as int) =~= sv);
            assert forall|a: int, b: int| 0 <= a < b < key_seq(set@).len() implies seq_lt(key_seq(set@)[a], key_seq(set@)[b]) by {
                assert(key_seq(set@)[a] == set@[a].0 && key_seq(set@)[b] == set@[b].0);
            }
        }
        let ty = payload_type.id();
        let id = payload_predicate_digest(&ty, &set);
        Ok(PayloadPredicate { payload_type: ty, accepted: set, id })
    }

    /// The predicate accepting every variant of `payload_type`.
    pub fn all(payload_type: &PayloadType) -> (r: PayloadPredicate)
        ensures
            r@.payload_type == payload_type@.id,
            r@.accepted == payload_type@.variants,
            r@.id == payload_predicate_id(payload_type@.id, payload_type@.variants),
    {
        let set = copy_set(payload_type.variants());
        let ty = payload_type.id();
        let id = payload_predicate_digest(&ty, &set);
        PayloadPredicate { payload_type: ty, accepted: set, id }
    }

    pub fn payload_type(&self) -> (r: PayloadTypeId)
        ensures
            r@ == self@.payload_type,
    {
        self.payload_type
    }

    /// The accepted values, in increasing order.
    pub fn accepted(&self) -> (r: &StrMap<()>)
        ensures
            key_seq(r@) == self@.accepted,
    {
        &self.accepted
    }

    pub fn id(&self) -> (r: PayloadPredicateId)
        ensures
            r@ == self@.id,
    {
        self.id
    }

    /// Whether this predicate is over the same type and accepts no value that
    /// `other` rejects.
    pub fn is_subset_of(&self, other: &PayloadPredicate) -> (r: bool)
        ensures
            r == (self@.payload_type == other@.payload_type && forall|v: Seq<char>| #[trigger] self@.accepted.contains(v) ==> other@.accepted.contains(v)),
    {
        if !self.payload_type.same(&other.payload_type) {
            return false;
        }
        self.first_missing_in(other).is_none()
    }

    /// The first accepted value, in increasing order, that `other` does not accept.
    pub fn first_missing_in(&self, other: &PayloadPredicate) -> (r: Option<&str>)
        ensures
            r is None <==> forall|v: Seq<char>| #[trigger] self@.accepted.contains(v) ==> other@.accepted.contains(v),
            r matches Some(v) ==> exists|i: int| 0 <= i < self@.accepted.len() && self@.accepted[i] == v@ && !other@.accepted.contains(v@)
                && forall|j: int| 0 <= j < i ==> other@.accepted.contains(#[trigger] self@.accepted[j]),
    {
        let e = self.accepted.entries();
        let ghost mine = self@.accepted;
        let ghost theirs = other@.accepted;
        let mut i: usize = 0;
        while i < e.len()
            invariant
                entries_view(e@) == self.accepted@,
                mine == key_seq(self.accepted@),
                theirs == key_seq(other.accepted@),
                i <= e@.len(),
                forall|j: int| 0 <= j < i ==> theirs.contains(#[trigger] mine[j]),
            decreases e@.len() - i,
        {
            let v = e[i].0.as_str();
            proof {
                assert(mine[i as int] == v@);
            }
            let inside = other.accepted.contains_key(v);
            proof {
                if inside {
                    let w = choose|w: int| 0 <= w < other.accepted@.len() && other.accepted@[w].0 == v@;
                    assert(theirs[w] == v@);
                } else {
                    if theirs.contains(v@) {
                        let w = choose|w: int| 0 <= w < theirs.len() && theirs[w] == v@;
                        assert(other.accepted@[w].0 == v@);
                    }
                }
            }
            if !inside {
                proof {
                    assert(mine.contains(v@));
                }
                return Some(v);
            }
            i = i + 1;
        }
        proof {
            assert forall|v: Seq<char>| #[trigger] mine.contains(v) implies theirs.contains(v) by {
                let w = choose|w: int| 0 <= w < mine.len() && mine[w] == v;
                assert(theirs.contains(mine[w]));
            }
        }
        None
    }
}

#[derive(Clone, Debug, PartialEq, Eq)]
pub enum FiniteContractError {
    InvalidAction(String),
    DuplicateAssumption(String),
    DuplicateGuarantee(String),
}

/// Input assumptions and output guarantees, at most one predicate per action.
#[derive(Clone, Debug, PartialEq, Eq)]
pub struct FiniteContract {
    assumptions: StrMap<PayloadPredicate>,
    guarantees: StrMap<PayloadPredicate>,
}

pub open spec fn predicate_views(s: Seq<(Seq<char>, PayloadPredicate)>) -> Seq<(Seq<char>, PayloadPredicateV)> {
    s.map_values(|e: (Seq<char>, PayloadPredicate)| (e.0, e.1@))
}

pub open spec fn predicate_fn() -> spec_fn(PayloadPredicate) -> PayloadPredicateV {
    |p: PayloadPredicate| p@
}

pub struct FiniteContractV {
    pub assumptions: Seq<(Seq<char>, PayloadPredicateV)>,
    pub guarantees: Seq<(Seq<char>, PayloadPredicateV)>,
}

impl View for FiniteContract {
    type V = FiniteContractV;

    closed spec fn view(&self) -> FiniteContractV {
        FiniteContractV { assumptions: predicate_views(self.assumptions@), guarantees: predicate_views(self.guarantees@) }
    }
}

impl Default for FiniteContract {
    fn default() -> (r: FiniteContract)
        ensures
            r@.assumptions.len() == 0,
            r@.guarantees.len() == 0,
    {
        FiniteContract::empty()
    }
}

/// The clause at `i` of `cs` has an empty action or repeats an earlier action.
pub open spec fn clause_fault(cs: Seq<(Seq<char>, PayloadPredicateV)>, i: int) -> bool {
    cs[i].0.len() == 0 || exists|j: int| 0 <= j < i && cs[j].0 == cs[i].0
}

/// Clause `i` is the first faulty clause of `cs`.
pub open spec fn first_fault(cs: Seq<(Seq<char>, PayloadPredicateV)>, i: int) -> bool {
    &&& 0 <= i < cs.len()
    &&& clause_fault(cs, i)
    &&& forall|j: int| 0 <= j < i ==> !clause_fault(cs, j)
}

/// The error for a faulty clause with action `a`: an empty action is
/// invalid, else the action is a duplicate assumption or guarantee.
pub open spec fn fault_error(a: Seq<char>, e: FiniteContractError, assumption: bool) -> bool {
    if a.len() == 0 {
        e matches FiniteContractError::InvalidAction(x) && x@ == a
    } else if assumption {
        e matches FiniteContractError::DuplicateAssumption(x) && x@ == a
    } else {
        e matches FiniteContractError::DuplicateGuarantee(x) && x@ == a
    }
}

pub open spec fn clause_views(cs: Seq<(&str, PayloadPredicate)>) -> Seq<(Seq<char>, PayloadPredicateV)> {
    cs.map_values(|c: (&str, PayloadPredicate)| (c.0@, c.1@))
}

/// Collects clauses into a map in increasing action order; fails with the
/// position of the first clause with an empty or repeated action.
fn collect_clauses(clauses: Vec<(&str, PayloadPredicate)>) -> (r: Result<StrMap<PayloadPredicate>, usize>)
    ensures
        r is Ok <==> forall|i: int| 0 <= i < clauses@.len() ==> !clause_fault(clause_views(clauses@), i),
        r matches Ok(m) ==> sorted_keys(predicate_views(m@)) && predicate_views(m@).len() == clauses@.len()
            && forall|k: Seq<char>| #[trigger] lookup(predicate_views(m@), k) == lookup(clause_views(clauses@), k),
        r matches Err(i) ==> i < clauses@.len() && clause_fault(clause_views(clauses@), i as int)
            && forall|j: int| 0 <= j < i ==> !clause_fault(clause_views(clauses@), j),
{
    let ghost cv = clause_views(clauses@);
    let total = clauses.len();
    let ghost n = clauses@.len();
    let mut result: StrMap<PayloadPredicate> = StrMap::new();
    let mut rest = clauses;
    let mut i: usize = 0;
    proof {
        assert(clause_views(rest@) =~= cv.subrange(0, n as int));
        assert forall|k: Seq<char>| #[trigger] lookup(predicate_views(result@), k) == lookup(cv.subrange(0, 0), k) by {
            assert(predicate_views(result@) =~= Seq::<(Seq<char>, PayloadPredicateV)>::empty());
            assert(cv.subrange(0, 0) =~= Seq::<(Seq<char>, PayloadPredicateV)>::empty());
        }
    }
    while rest.len() > 0
        invariant
            cv.len() == n,
            n == total,
            i + rest@.len() == n,
            clause_views(rest@) == cv.subrange(i as int, n as int),
            sorted_keys(result@),
            result@.len() == i,
            forall|k: Seq<char>| #[trigger] lookup(predicate_views(result@), k) == lookup(cv.subrange(0, i as int), k),
            forall|j: int| 0 <= j < i ==> !clause_fault(cv, j),
        decreases rest@.len(),
    {
        let ghost before = rest@;
        let (action, predicate) = rest.remove(0);
        proof {
            assert(rest@ =~= before.subrange(1, before.len() as int));
            assert(clause_views(before)[0] == cv[i as int]);
            assert(clause_views(before)[0] == (action@, predicate@));
            assert(clause_views(rest@) =~= clause_views(before).subrange(1, before.len() as int));
            assert(clause_views(rest@) =~= cv.subrange(i + 1, n as int));
            assert(cv[i as int] == (action@, predicate@));
        }
        if action.is_empty() {
            proof {
                lemma_utf8_empty(action@);
                assert(clause_fault(cv, i as int));
            }
            return Err(i);
        }
        proof {
            lemma_utf8_empty(action@);
            assert(predicate_views(result@) =~= map_entry_values(result@, predicate_fn()));
            lemma_map_entry_values(result@, predicate_fn(), action@);
            crate::smap::lemma_lookup_is_some(predicate_views(result@), action@);
            crate::smap::lemma_lookup_is_some(cv.subrange(0, i as int), action@);
        }
        if result.contains_key(action) {
            proof {
                let p = choose|p: int| 0 <= p < i && cv.subrange(0, i as int)[p].0 == action@;
                assert(cv[p].0 == cv[i as int].0);
                assert(clause_fault(cv, i as int));
            }
            return Err(i);
        }
        proof {
            assert forall|j: int| 0 <= j < i implies cv[j].0 != cv[i as int].0 by {
                assert(cv.subrange(0, i as int)[j] == cv[j]);
            }
        }
        let ghost old_result = result@;
        result.insert(action.to_owned(), predicate);
        proof {
            assert(cv.subrange(0, i + 1) =~= cv.subrange(0, i as int).push(cv[i as int]));
            assert forall|k: Seq<char>| #[trigger] lookup(predicate_views(result@), k) == lookup(cv.subrange(0, i + 1), k) by {
                assert(predicate_views(result@) =~= map_entry_values(result@, predicate_fn()));
                assert(predicate_views(old_result) =~= map_entry_values(old_result, predicate_fn()));
                lemma_map_entry_values(result@, predicate_fn(), k);
                lemma_map_entry_values(old_result, predicate_fn(), k);
                crate::smap::lemma_lookup_push_new(cv.subrange(0, i as int), cv[i as int], k);
            }
        }
        i = i + 1;
    }
    proof {
        assert(cv.subrange(0, n as int) =~= cv);
        assert(predicate_views(result@) =~= map_entry_values(result@, predicate_fn()));
        lemma_map_entry_values(result@, predicate_fn(), Seq::empty());
    }
    Ok(result)
}

impl FiniteContract {
    /// Collects the assumptions, then the guarantees, each into a map in
    /// increasing action order. Fails on the first clause with an empty
    /// action, or with an action that an earlier clause of the same list
    /// already has.
    pub fn new(assumptions: Vec<(&str, PayloadPredicate)>, guarantees: Vec<(&str, PayloadPredicate)>) -> (r: Result<FiniteContract, FiniteContractError>)
        ensures
            r is Ok <==> (forall|i: int| 0 <= i < assumptions@.len() ==> !clause_fault(clause_views(assumptions@), i))
                && (forall|i: int| 0 <= i < guarantees@.len() ==> !clause_fault(clause_views(guarantees@), i)),
            r matches Ok(c) ==> sorted_keys(c@.assumptions) && sorted_keys(c@.guarantees)
                && c@.assumptions.len() == assumptions@.len() && c@.guarantees.len() == guarantees@.len()
                && (forall|k: Seq<char>| #[trigger] lookup(c@.assumptions, k) == lookup(clause_views(assumptions@), k))
                && (forall|k: Seq<char>| #[trigger] lookup(c@.guarantees, k) == lookup(clause_views(guarantees@), k)),
            r matches Err(e) ==> if exists|i: int| #[trigger] first_fault(clause_views(assumptions@), i) {
                exists|i: int| #[trigger] first_fault(clause_views(assumptions@), i)
                    && fault_error(clause_views(assumptions@)[i].0, e, true)
            } else {
                exists|i: int| #[trigger] first_fault(clause_views(guarantees@), i)
                    && fault_error(clause_views(guarantees@)[i].0, e, false)
            },
    {
        let ghost av = clause_views(assumptions@);
        let ghost gv = clause_views(guarantees@);
        let names_a = clause_names(&assumptions);
        let names_g = clause_names(&guarantees);
        let a = match collect_clauses(assumptions) {
            Ok(m) => m,
            Err(i) => {
                let name = names_a[i];
                proof {
                    assert(av[i as int].0 == name@);
                    assert(first_fault(av, i as int));
                }
                if name.is_empty() {
                    proof {
                        lemma_utf8_empty(name@);
                    }
                    return Err(FiniteContractError::InvalidAction(name.to_owned()));
                }
                proof {
                    lemma_utf8_empty(name@);
                }
                return Err(FiniteContractError::DuplicateAssumption(name.to_owned()));
            },
        };
        let g = match collect_clauses(guarantees) {
            Ok(m) => m,
            Err(i) => {
                let name = names_g[i];
                proof {
                    assert(gv[i as int].0 == name@);
                    assert(first_fault(gv, i as int));
                    assert(!exists|k: int| #[trigger] first_fault(av, k));
                }
                if name.is_empty() {
                    proof {
                        lemma_utf8_empty(name@);
                    }
                    return Err(FiniteContractError::InvalidAction(name.to_owned()));
                }
                proof {
                    lemma_utf8_empty(name@);
                }
                return Err(FiniteContractError::DuplicateGuarantee(name.to_owned()));
            },
        };
        Ok(FiniteContract { assumptions: a, guarantees: g })
    }

    /// The contract with no clauses.
    pub fn empty() -> (r: FiniteContract)
        ensures
            r@.assumptions.len() == 0,
            r@.guarantees.len() == 0,
    {
        FiniteContract { assumptions: StrMap::new(), guarantees: StrMap::new() }
    }

    pub fn assumptions(&self) -> (r: &StrMap<PayloadPredicate>)
        ensures
            predicate_views(r@) == self@.assumptions,
    {
        &self.assumptions
    }

    pub fn guarantees(&self) -> (r: &StrMap<PayloadPredicate>)
        ensures
            predicate_views(r@) == self@.guarantees,
    {
        &self.guarantees
    }
}

fn clause_names<'a>(clauses: &Vec<(&'a str, PayloadPredicate)>) -> (r: Vec<&'a str>)
    ensures
        r@.len() == clauses@.len(),
        forall|i: int| 0 <= i < r@.len() ==> #[trigger] r@[i] == clauses@[i].0,
{
    let mut out: Vec<&'a str> = Vec::new();
    let mut i: usize = 0;
    while i < clauses.len()
        invariant
            i <= clauses@.len(),
            out@.len() == i,
            forall|j: int| 0 <= j < i ==> #[trigger] out@[j] == clauses@[j].0,
        decreases clauses@.len() - i,
    {
        out.push(clauses[i].0);
        i = i + 1;
    }
    out
}

/// A text encodes to no bytes exactly when it has no characters.
pub proof fn lemma_utf8_empty(chars: Seq<char>)
    ensures
        (encode_utf8(chars).len() == 0) == (chars.len() == 0),
{
}

impl PayloadTypeError {
    /// A human-readable description.
    pub fn to_string(&self) -> (r: String)
        ensures
            r@ == match self {
                PayloadTypeError::InvalidName(n) => "invalid finite payload type name "@ + debug_text(n@),
                PayloadTypeError::EmptyVariants => "a finite payload type needs at least one variant"@,
                PayloadTypeError::InvalidVariant(v) => "invalid finite payload variant "@ + debug_text(v@),
                PayloadTypeError::DuplicateVariant(v) => "finite payload variant "@ + debug_text(v@) + " is duplicated"@,
            },
    {
        proof {
            reveal_strlit("");
        }
        match self {
            PayloadTypeError::InvalidName(n) => {
                let r = quote_between("invalid finite payload type name ", n.as_str(), "");
                assert(r@ =~= "invalid finite payload type name "@ + debug_text(n@));
                r
            },
            PayloadTypeError::EmptyVariants => String::from_str("a finite payload type needs at least one variant"),
            PayloadTypeError::InvalidVariant(v) => {
                let r = quote_between("invalid finite payload variant ", v.as_str(), "");
                assert(r@ =~= "invalid finite payload variant "@ + debug_text(v@));
                r
            },
            PayloadTypeError::DuplicateVariant(v) => quote_between("finite payload variant ", v.as_str(), " is duplicated"),
        }
    }
}

impl PayloadPredicateError {
    /// A human-readable description.
    pub fn to_string(&self) -> (r: String)
        ensures
            r@ == match self {
                PayloadPredicateError::InvalidValue(v) => "invalid finite payload value "@ + debug_text(v@),
                PayloadPredicateError::DuplicateValue(v) => "finite payload predicate repeats "@ + debug_text(v@),
                PayloadPredicateError::ValueOutsideType { payload_type, value } => "payload value "@ + debug_text(value@)
                    + " is not in "@ + "nmlt-payload-type-v1:sha256:"@ + hex_text(payload_type@),
            },
    {
        proof {
            reveal_strlit("");
        }
        match self {
            PayloadPredicateError::InvalidValue(v) => {
                let r = quote_between("invalid finite payload value ", v.as_str(), "");
                assert(r@ =~= "invalid finite payload value "@ + debug_text(v@));
                r
            },
            PayloadPredicateError::DuplicateValue(v) => {
                let r = quote_between("finite payload predicate repeats ", v.as_str(), "");
                assert(r@ =~= "finite payload predicate repeats "@ + debug_text(v@));
                r
            },
            PayloadPredicateError::ValueOutsideType { payload_type, value } => {
                let r = quote_between("payload value ", value.as_str(), " is not in ").concat(payload_type.to_string().as_str());
                assert(r@ =~= "payload value "@ + debug_text(value@) + " is not in "@ + "nmlt-payload-type-v1:sha256:"@ + hex_text(payload_type@));
                r
            },
        }
    }
}

impl FiniteContractError {
    /// A human-readable description.
    pub fn to_string(&self) -> (r: String)
        ensures
            r@ == match self {
                FiniteContractError::InvalidAction(a) => "invalid contract action "@ + debug_text(a@),
                FiniteContractError::DuplicateAssumption(a) => "assumption for action "@ + debug_text(a@) + " is duplicated"@,
                FiniteContractError::DuplicateGuarantee(a) => "guarantee for action "@ + debug_text(a@) + " is duplicated"@,
            },
    {
        proof {
            reveal_strlit("");
        }
        match self {
            FiniteContractError::InvalidAction(a) => {
                let r = quote_between("invalid contract action ", a.as_str(), "");
                assert(r@ =~= "invalid contract action "@ + debug_text(a@));
                r
            },
            FiniteContractError::DuplicateAssumption(a) => quote_between("assumption for action ", a.as_str(), " is duplicated"),
            FiniteContractError::DuplicateGuarantee(a) => quote_between("guarantee for action ", a.as_str(), " is duplicated"),
        }
    }
}

} // verus!
