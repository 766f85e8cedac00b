//! Workflow values and types: the bounded size of a value, and whether a
//! value conforms to a type.

use vstd::prelude::*;
use vstd::utf8::encode_utf8;
use crate::text::str_eq;

verus! {

pub const MAX_SOURCE_BYTES: usize = 131072;
pub const MAX_LIST_ITEMS: usize = 256;
pub const MAX_VALUE_NODES: usize = 4096;
pub const MAX_VALUE_BYTES: usize = 65536;
pub const MAX_VALUE_WORK: usize = 1000000;
pub const MAX_PACKAGE_FILES: usize = 32;
pub const MAX_PACKAGE_BYTES: usize = 1048576;

/// The deepest nesting a value may have.
pub const MAX_VALUE_DEPTH: usize = 16;
/// The longest text a value may hold, in UTF-8 bytes.
pub const MAX_TEXT_BYTES: usize = 4096;
/// The most fields a record value may have.
pub const MAX_RECORD_FIELDS: usize = 16;

#[derive(Debug, PartialEq, Eq)]
pub enum Type {
    Bool,
    Int,
    Text,
    Outcome(Box<Type>),
    List(Box<Type>),
    Record(String),
    Job(Box<Type>),
}

#[derive(Debug, PartialEq, Eq)]
pub enum Value {
    Bool(bool),
    Int(i64),
    Text(String),
    Success(Box<Value>),
    Failure(String),
    List(Vec<Value>),
    /// A record; its fields in increasing order of name, each name once
    /// (`record_fields_wf`), as `Value::record` builds them.
    Record { name: String, fields: Vec<(String, Value)> },
}

#[derive(Clone, Copy, Debug, PartialEq, Eq, Structural)]
pub struct Location {
    pub source: usize,
    pub start: usize,
    pub end: usize,
}

#[derive(Debug, PartialEq, Eq)]
pub struct Parameter {
    pub name: String,
    pub ty: Type,
}

#[derive(Clone, Debug, PartialEq, Eq)]
pub struct SourceIdentity {
    pub path: String,
    pub bytes: usize,
    pub source_sha256: String,
}

impl Type {
    /// A copy of the type, node by node.
    pub fn copy(&self) -> (r: Type)
        ensures
            r == *self,
        decreases self,
    {
        match self {
            Type::Bool => Type::Bool,
            Type::Int => Type::Int,
            Type::Text => Type::Text,
            Type::Outcome(t) => Type::Outcome(Box::new(t.copy())),
            Type::List(t) => Type::List(Box::new(t.copy())),
            Type::Record(n) => {
                let c = n.clone();
                proof {
                    assert(c == *n);
                }
                Type::Record(c)
            },
            Type::Job(t) => Type::Job(Box::new(t.copy())),
        }
    }
}

/// `a` and `b` hold the same value, node by node.
pub open spec fn same_value(a: Value, b: Value) -> bool
    decreases a, 0nat,
{
    match (a, b) {
        (Value::Bool(x), Value::Bool(y)) => x == y,
        (Value::Int(x), Value::Int(y)) => x == y,
        (Value::Text(x), Value::Text(y)) => x@ == y@,
        (Value::Success(x), Value::Success(y)) => same_value(*x, *y),
        (Value::Failure(x), Value::Failure(y)) => x@ == y@,
        (Value::List(xs), Value::List(ys)) => same_values(xs@, ys@),
        (Value::Record { name: n1, fields: f1 }, Value::Record { name: n2, fields: f2 }) => n1@ == n2@ && same_fields(f1@, f2@),
        _ => false,
    }
}

pub open spec fn same_values(xs: Seq<Value>, ys: Seq<Value>) -> bool
    decreases xs, 0nat,
{
    if xs.len() == 0 {
        ys.len() == 0
    } else {
        ys.len() == xs.len() && same_values(xs.drop_last(), ys.drop_last()) && same_value(xs.last(), ys.last())
    }
}

pub open spec fn same_fields(xs: Seq<(String, Value)>, ys: Seq<(String, Value)>) -> bool
    decreases xs, 0nat,
{
    if xs.len() == 0 {
        ys.len() == 0
    } else {
        ys.len() == xs.len() && same_fields(xs.drop_last(), ys.drop_last()) && xs.last().0@ == ys.last().0@
            && same_value(xs.last().1, ys.last().1)
    }
}

impl Value {
    /// A copy of the value, node by node.
    pub fn copy(&self) -> (r: Value)
        ensures
            same_value(r, *self),
        decreases self,
    {
        match self {
            Value::Bool(b) => Value::Bool(*b),
            Value::Int(i) => Value::Int(*i),
            Value::Text(s) => Value::Text(s.clone()),
            Value::Success(x) => Value::Success(Box::new(x.copy())),
            Value::Failure(s) => Value::Failure(s.clone()),
            Value::List(items) => {
                let mut out: Vec<Value> = Vec::new();
                let mut k: usize = 0;
                while k < items.len()
                    invariant
                        k <= items@.len(),
                        out@.len() == k,
                        same_values(out@, items@.subrange(0, k as int)),
                    decreases items@.len() - k,
                {
                    proof {
                        assert(decreases_to!(self => items@[k as int]));
                    }
                    let c = items[k].copy();
                    let ghost before = out@;
                    out.push(c);
                    proof {
                        assert(out@.drop_last() =~= before);
                        assert(items@.subrange(0, k + 1).drop_last() =~= items@.subrange(0, k as int));
                    }
                    k = k + 1;
                }
                proof {
                    assert(items@.subrange(0, items@.len() as int) =~= items@);
                }
                Value::List(out)
            },
            Value::Record { name, fields } => {
                let mut out: Vec<(String, Value)> = Vec::new();
                let mut k: usize = 0;
                while k < fields.len()
                    invariant
                        k <= fields@.len(),
                        out@.len() == k,
                        same_fields(out@, fields@.subrange(0, k as int)),
                    decreases fields@.len() - k,
                {
                    proof {
                        assert(decreases_to!(self => fields@[k as int].1));
                    }
                    let c = fields[k].1.copy();
                    let ghost before = out@;
                    out.push((fields[k].0.clone(), c));
                    proof {
                        assert(out@.drop_last() =~= before);
                        assert(fields@.subrange(0, k + 1).drop_last() =~= fields@.subrange(0, k as int));
                    }
                    k = k + 1;
                }
                proof {
                    assert(fields@.subrange(0, fields@.len() as int) =~= fields@);
                }
                Value::Record { name: name.clone(), fields: out }
            },
        }
    }
}

/// The fields of a record in increasing order of name, each name once.
pub open spec fn record_fields_wf(fields: Seq<(String, Value)>) -> bool {
    crate::smap::sorted_keys(crate::smap::entries_view(fields))
}

impl Value {
    /// The record `name` with the given fields, in increasing order of name;
    /// where a name is given twice, the later field replaces the earlier.
    pub fn record(name: String, fields: Vec<(String, Value)>) -> (r: Value)
        ensures
            r matches Value::Record { name: n, fields: f } && n@ == name@ && record_fields_wf(f@)
                && forall|k: Seq<char>| #[trigger] crate::smap::lookup(crate::smap::entries_view(f@), k)
                    == crate::smap::last_lookup(crate::smap::entries_view(fields@), k),
    {
        let ghost given = crate::smap::entries_view(fields@);
        let total = fields.len();
        let mut map: crate::smap::StrMap<Value> = crate::smap::StrMap::new();
        let mut rest = fields;
        let mut i: usize = 0;
        proof {
            assert(crate::smap::entries_view(rest@) =~= given.subrange(0, total as int));
            assert forall|k: Seq<char>| #[trigger] crate::smap::lookup(map@, k) == crate::smap::last_lookup(given.subrange(0, 0), k) by {
                crate::smap::lemma_lookup_none(map@, k);
                assert(given.subrange(0, 0) =~= Seq::<(Seq<char>, Value)>::empty());
                crate::smap::lemma_last_lookup_empty::<Value>(k);
            }
        }
        while rest.len() > 0
            invariant
                given.len() == total,
                i + rest@.len() == total,
                crate::smap::entries_view(rest@) == given.subrange(i as int, total as int),
                crate::smap::sorted_keys(map@),
                forall|k: Seq<char>| #[trigger] crate::smap::lookup(map@, k) == crate::smap::last_lookup(given.subrange(0, i as int), k),
            decreases rest@.len(),
        {
            let ghost before = rest@;
            let (key, value) = rest.remove(0);
            let ghost old_map = map@;
            proof {
                assert(rest@ =~= before.subrange(1, before.len() as int));
                assert(crate::smap::entries_view(before)[0] == given[i as int]);
                assert(crate::smap::entries_view(rest@) =~= crate::smap::entries_view(before).subrange(1, before.len() as int));
                assert(crate::smap::entries_view(rest@) =~= given.subrange(i + 1, total as int));
                assert(given.subrange(0, i + 1) =~= given.subrange(0, i as int).push(given[i as int]));
            }
            map.insert(key, value);
            proof {
                assert forall|k: Seq<char>| #[trigger] crate::smap::lookup(map@, k) == crate::smap::last_lookup(given.subrange(0, i + 1), k) by {
                    crate::smap::lemma_last_lookup_push(given.subrange(0, i as int), given[i as int], k);
                }
            }
            i = i + 1;
        }
        proof {
            assert(given.subrange(0, total as int) =~= given);
        }
        let out = map.into_entries();
        Value::Record { name, fields: out }
    }
}

impl Clone for Value {
    fn clone(&self) -> Self {
        self.copy()
    }
}

impl Clone for Type {
    fn clone(&self) -> Self {
        self.copy()
    }
}

impl Clone for Parameter {
    fn clone(&self) -> Self {
        Parameter { name: self.name.clone(), ty: self.ty.copy() }
    }
}

/// The lower-case hexadecimal SHA-256 digest of `bytes`.
pub fn digest(bytes: &[u8]) -> (r: String)
    ensures
        r@ == crate::sha256::hex_text(crate::sha256::sha256_spec(bytes@)),
{
    let d = crate::sha256::sha256(bytes);
    crate::sha256::hex(&d)
}

/// The UTF-8 length of a text.
pub open spec fn byte_len(s: Seq<char>) -> nat {
    encode_utf8(s).len()
}

/// The count after `visit` of a value at `depth`, with `nodes` nodes and
/// `bytes` bytes counted before it: `None` where a bound is exceeded.
pub open spec fn visit(v: Value, depth: nat, nodes: nat, bytes: nat) -> Option<(nat, nat)>
    decreases v,
{
    if depth > MAX_VALUE_DEPTH || nodes + 1 > MAX_VALUE_NODES {
        None
    } else {
        let n = nodes + 1;
        let inner = match v {
            Value::Text(s) => if byte_len(s@) > MAX_TEXT_BYTES || bytes + byte_len(s@) > usize::MAX {
                None
            } else {
                Some((n, bytes + byte_len(s@)))
            },
            Value::Failure(s) => if byte_len(s@) > MAX_TEXT_BYTES || bytes + byte_len(s@) > usize::MAX {
                None
            } else {
                Some((n, bytes + byte_len(s@)))
            },
            Value::Success(x) => visit(*x, depth + 1, n, bytes),
            Value::List(items) => if items@.len() > MAX_LIST_ITEMS {
                None
            } else {
                visit_items(items@, depth + 1, n, bytes)
            },
            Value::Record { name, fields } => if fields@.len() > MAX_RECORD_FIELDS || bytes + byte_len(name@) > usize::MAX {
                None
            } else {
                visit_fields(fields@, depth + 1, n, bytes + byte_len(name@))
            },
            _ => Some((n, bytes)),
        };
        match inner {
            Some((n2, b2)) => if b2 <= MAX_VALUE_BYTES { Some((n2, b2)) } else { None },
            None => None,
        }
    }
}

/// `visit` over the values of `s` in turn.
pub open spec fn visit_items(s: Seq<Value>, depth: nat, nodes: nat, bytes: nat) -> Option<(nat, nat)>
    decreases s,
{
    if s.len() == 0 {
        Some((nodes, bytes))
    } else {
        match visit_items(s.drop_last(), depth, nodes, bytes) {
            Some((n, b)) => visit(s.last(), depth, n, b),
            None => None,
        }
    }
}

/// `visit` over the fields of a record in turn, each name counted first.
pub open spec fn visit_fields(s: Seq<(String, Value)>, depth: nat, nodes: nat, bytes: nat) -> Option<(nat, nat)>
    decreases s,
{
    if s.len() == 0 {
        Some((nodes, bytes))
    } else {
        match visit_fields(s.drop_last(), depth, nodes, bytes) {
            Some((n, b)) => if b + byte_len(s.last().0@) > usize::MAX || b + byte_len(s.last().0@) > MAX_VALUE_BYTES {
                None
            } else {
                visit(s.last().1, depth, n, b + byte_len(s.last().0@))
            },
            None => None,
        }
    }
}

/// The size of a value: its nodes plus its text bytes, where the value is
/// within the nesting, count and byte bounds.
pub open spec fn value_units(v: Value) -> Option<nat> {
    match visit(v, 0, 0, 0) {
        Some((n, b)) => Some(n + b),
        None => None,
    }
}

proof fn lemma_visit_fields_step(s: Seq<(String, Value)>, k: int, depth: nat, nodes: nat, bytes: nat)
    requires
        0 <= k < s.len(),
    ensures
        visit_fields(s.subrange(0, k + 1), depth, nodes, bytes) == match visit_fields(s.subrange(0, k), depth, nodes, bytes) {
            Some((n, b)) => if b + byte_len(s[k].0@) > usize::MAX || b + byte_len(s[k].0@) > MAX_VALUE_BYTES {
                None
            } else {
                visit(s[k].1, depth, n, b + byte_len(s[k].0@))
            },
            None => None,
        },
{
    assert(s.subrange(0, k + 1).drop_last() =~= s.subrange(0, k));
}

/// Counts the value `v` at `depth` into `nodes` and `bytes`; false where a
/// bound is exceeded.
fn visit_value(v: &Value, depth: usize, nodes: &mut usize, bytes: &mut usize) -> (ok: bool)
    requires
        depth <= MAX_VALUE_DEPTH + 1,
        *old(nodes) <= MAX_VALUE_NODES,
    ensures
        ok <==> visit(*v, depth as nat, *old(nodes) as nat, *old(bytes) as nat) is Some,
        ok ==> visit(*v, depth as nat, *old(nodes) as nat, *old(bytes) as nat) == Some((*final(nodes) as nat, *final(bytes) as nat)),
        ok ==> *final(nodes) <= MAX_VALUE_NODES && *final(bytes) <= MAX_VALUE_BYTES,
    decreases v,
{
    if depth > MAX_VALUE_DEPTH || *nodes >= MAX_VALUE_NODES {
        return false;
    }
    *nodes = *nodes + 1;
    let inner = match v {
        Value::Text(s) | Value::Failure(s) => {
            let len = s.as_str().as_bytes().len();
            if len > MAX_TEXT_BYTES {
                false
            } else {
                match bytes.checked_add(len) {
                    None => false,
                    Some(b) => {
                        *bytes = b;
                        true
                    },
                }
            }
        },
        Value::Success(x) => visit_value(x, depth + 1, nodes, bytes),
        Value::List(items) => {
            if items.len() > MAX_LIST_ITEMS {
                false
            } else {
                let ghost n0 = *nodes as nat;
                let ghost b0 = *bytes as nat;
                let mut ok = true;
                let mut k: usize = 0;
                proof {
                    assert(items@.subrange(0, 0) =~= Seq::<Value>::empty());
                }
                while k < items.len()
                    invariant
                        depth <= MAX_VALUE_DEPTH,
                        k <= items@.len(),
                        ok,
                        *nodes <= MAX_VALUE_NODES,
                        visit_items(items@.subrange(0, k as int), (depth + 1) as nat, n0, b0) == Some((*nodes as nat, *bytes as nat)),
                    decreases items@.len() - k,
                {
                    proof {
                        assert(decreases_to!(v => items@[k as int]));
                        assert(items@.subrange(0, k + 1).drop_last() =~= items@.subrange(0, k as int));
                    }
                    if !visit_value(&items[k], depth + 1, nodes, bytes) {
                        proof {
                            lemma_items_none_stays(items@, k as int + 1, (depth + 1) as nat, n0, b0);
                        }
                        ok = false;
                        break;
                    }
                    k = k + 1;
                }
                if ok {
                    proof {
                        assert(items@.subrange(0, items@.len() as int) =~= items@);
                    }
                }
                ok
            }
        },
        Value::Record { name, fields } => {
            let nlen = name.as_str().as_bytes().len();
            if fields.len() > MAX_RECORD_FIELDS {
                false
            } else {
                match bytes.checked_add(nlen) {
                    None => false,
                    Some(b) => {
                        *bytes = b;
                        let ghost n0 = *nodes as nat;
                        let ghost b0 = *bytes as nat;
                        let mut ok = true;
                        let mut k: usize = 0;
                        proof {
                            assert(fields@.subrange(0, 0) =~= Seq::<(String, Value)>::empty());
                        }
                        while k < fields.len()
                            invariant
                                depth <= MAX_VALUE_DEPTH,
                                k <= fields@.len(),
                                ok,
                                *nodes <= MAX_VALUE_NODES,
                                visit_fields(fields@.subrange(0, k as int), (depth + 1) as nat, n0, b0) == Some((*nodes as nat, *bytes as nat)),
                            decreases fields@.len() - k,
                        {
                            proof {
                                assert(decreases_to!(v => fields@[k as int].1));
                                lemma_visit_fields_step(fields@, k as int, (depth + 1) as nat, n0, b0);
                            }
                            let flen = fields[k].0.as_str().as_bytes().len();
                            let fits_bytes = match bytes.checked_add(flen) {
                                None => false,
                                Some(b2) => {
                                    if b2 > MAX_VALUE_BYTES {
                                        false
                                    } else {
                                        *bytes = b2;
                                        true
                                    }
                                },
                            };
                            if !fits_bytes || !visit_value(&fields[k].1, depth + 1, nodes, bytes) {
                                proof {
                                    lemma_fields_none_stays(fields@, k as int + 1, (depth + 1) as nat, n0, b0);
                                }
                                ok = false;
                                break;
                            }
                            k = k + 1;
                        }
                        if ok {
                            proof {
                                assert(fields@.subrange(0, fields@.len() as int) =~= fields@);
                            }
                        }
                        ok
                    },
                }
            }
        },
        _ => true,
    };
    inner && *bytes <= MAX_VALUE_BYTES
}

proof fn lemma_items_none_stays(s: Seq<Value>, k: int, depth: nat, nodes: nat, bytes: nat)
    requires
        0 <= k <= s.len(),
        visit_items(s.subrange(0, k), depth, nodes, bytes) is None,
    ensures
        visit_items(s, depth, nodes, bytes) is None,
    decreases s.len() - k,
{
    if k < s.len() {
        assert(s.subrange(0, k + 1).drop_last() =~= s.subrange(0, k));
        lemma_items_none_stays(s, k + 1, depth, nodes, bytes);
    } else {
        assert(s.subrange(0, k) =~= s);
    }
}

proof fn lemma_fields_none_stays(s: Seq<(String, Value)>, k: int, depth: nat, nodes: nat, bytes: nat)
    requires
        0 <= k <= s.len(),
        visit_fields(s.subrange(0, k), depth, nodes, bytes) is None,
    ensures
        visit_fields(s, depth, nodes, bytes) is None,
    decreases s.len() - k,
{
    if k < s.len() {
        assert(s.subrange(0, k + 1).drop_last() =~= s.subrange(0, k));
        lemma_fields_none_stays(s, k + 1, depth, nodes, bytes);
    } else {
        assert(s.subrange(0, k) =~= s);
    }
}

/// The size of `value`: its nodes plus its text bytes, or `None` where it
/// nests too deep, has too many nodes, items or fields, or too many bytes.
pub fn units(value: &Value) -> (r: Option<usize>)
    ensures
        r matches Some(n) ==> value_units(*value) == Some(n as nat),
        r is None ==> value_units(*value) is None,
{
    let mut nodes: usize = 0;
    let mut bytes: usize = 0;
    if visit_value(value, 0, &mut nodes, &mut bytes) {
        Some(nodes + bytes)
    } else {
        None
    }
}

/// The position of the first field of `fields` named `k`, or -1.
pub open spec fn field_index(fields: Seq<(String, Value)>, k: Seq<char>) -> int
    decreases fields.len(),
{
    if fields.len() == 0 {
        -1
    } else if field_index(fields.drop_last(), k) >= 0 {
        field_index(fields.drop_last(), k)
    } else if fields.last().0@ == k {
        fields.len() - 1
    } else {
        -1
    }
}

proof fn lemma_field_index(fields: Seq<(String, Value)>, k: Seq<char>)
    ensures
        -1 <= field_index(fields, k) < fields.len(),
        field_index(fields, k) >= 0 ==> fields[field_index(fields, k)].0@ == k,
        field_index(fields, k) >= 0 ==> forall|j: int| 0 <= j < field_index(fields, k) ==> fields[j].0@ != k,
        field_index(fields, k) < 0 ==> forall|j: int| 0 <= j < fields.len() ==> fields[j].0@ != k,
    decreases fields.len(),
{
    if fields.len() > 0 {
        let d = fields.drop_last();
        lemma_field_index(d, k);
        let i = field_index(d, k);
        if i >= 0 {
            assert forall|j: int| 0 <= j < field_index(fields, k) implies fields[j].0@ != k by {
                assert(d[j] == fields[j]);
            }
            assert(fields[i] == d[i]);
        } else {
            assert forall|j: int| 0 <= j < fields.len() - 1 implies fields[j].0@ != k by {
                assert(d[j] == fields[j]);
            }
        }
    }
}

/// `v` conforms to `ty` under the record declarations `records`.
pub open spec fn fits(v: Value, ty: Type, records: Seq<(Seq<char>, Vec<Parameter>)>) -> bool
    decreases v, 0nat,
{
    match (v, ty) {
        (Value::Bool(_), Type::Bool) => true,
        (Value::Int(_), Type::Int) => true,
        (Value::Text(_), Type::Text) => true,
        (Value::Failure(_), Type::Outcome(_)) => true,
        (Value::Success(x), Type::Outcome(t)) => fits(*x, *t, records),
        (Value::List(items), Type::List(t)) => fits_all(items@, *t, records),
        (Value::Record { name, fields }, Type::Record(expected)) => name@ == expected@ && match crate::smap::lookup(records, name@) {
            Some(def) => fields@.len() == def@.len() && fields_fit(fields@, def@, records),
            None => false,
        },
        _ => false,
    }
}

/// Every value of `s` conforms to `t`.
pub open spec fn fits_all(s: Seq<Value>, t: Type, records: Seq<(Seq<char>, Vec<Parameter>)>) -> bool
    decreases s, 0nat,
{
    if s.len() == 0 {
        true
    } else {
        fits_all(s.drop_last(), t, records) && fits(s.last(), t, records)
    }
}

/// Every declared field of `defs` is a field of `fields` whose value
/// conforms to its type.
pub open spec fn fields_fit(fields: Seq<(String, Value)>, defs: Seq<Parameter>, records: Seq<(Seq<char>, Vec<Parameter>)>) -> bool
    decreases fields, defs.len(),
{
    if defs.len() == 0 {
        true
    } else {
        let i = field_index(fields, defs.last().name@);
        fields_fit(fields, defs.drop_last(), records) && 0 <= i < fields.len() && fits(fields[i].1, defs.last().ty, records)
    }
}

proof fn lemma_fits_all(s: Seq<Value>, t: Type, records: Seq<(Seq<char>, Vec<Parameter>)>)
    ensures
        fits_all(s, t, records) <==> forall|j: int| 0 <= j < s.len() ==> fits(#[trigger] s[j], t, records),
    decreases s.len(),
{
    if s.len() > 0 {
        let d = s.drop_last();
        lemma_fits_all(d, t, records);
        assert forall|j: int| 0 <= j < d.len() implies d[j] == s[j] by {}
    }
}

proof fn lemma_fields_fit(fields: Seq<(String, Value)>, defs: Seq<Parameter>, records: Seq<(Seq<char>, Vec<Parameter>)>)
    ensures
        fields_fit(fields, defs, records) <==> forall|j: int| 0 <= j < defs.len() ==> {
            let i = #[trigger] field_index(fields, defs[j].name@);
            0 <= i < fields.len() && fits(fields[i].1, defs[j].ty, records)
        },
    decreases defs.len(),
{
    if defs.len() > 0 {
        let d = defs.drop_last();
        lemma_fields_fit(fields, d, records);
        assert forall|j: int| 0 <= j < d.len() implies d[j] == defs[j] by {}
    }
}

/// The position of the first field of `fields` named `key`.
fn field_position(fields: &Vec<(String, Value)>, key: &str) -> (r: Option<usize>)
    ensures
        r matches Some(i) ==> field_index(fields@, key@) == i,
        r is None ==> field_index(fields@, key@) == -1,
{
    proof {
        lemma_field_index(fields@, key@);
    }
    let mut i: usize = 0;
    while i < fields.len()
        invariant
            i <= fields@.len(),
            forall|j: int| 0 <= j < i ==> fields@[j].0@ != key@,
        decreases fields@.len() - i,
    {
        if str_eq(fields[i].0.as_str(), key) {
            return Some(i);
        }
        i = i + 1;
    }
    None
}

/// Whether `v` conforms to `ty` under the record declarations `records`.
fn check(v: &Value, ty: &Type, records: &crate::smap::StrMap<Vec<Parameter>>) -> (r: bool)
    ensures
        r == fits(*v, *ty, records@),
    decreases v,
{
    match (v, ty) {
        (Value::Bool(_), Type::Bool) => true,
        (Value::Int(_), Type::Int) => true,
        (Value::Text(_), Type::Text) => true,
        (Value::Failure(_), Type::Outcome(_)) => true,
        (Value::Success(x), Type::Outcome(t)) => check(x, t, records),
        (Value::List(items), Type::List(t)) => {
            proof {
                lemma_fits_all(items@, **t, records@);
            }
            let mut k: usize = 0;
            while k < items.len()
                invariant
                    k <= items@.len(),
                    forall|j: int| 0 <= j < k ==> fits(#[trigger] items@[j], **t, records@),
                decreases items@.len() - k,
            {
                proof {
                    assert(decreases_to!(v => items@[k as int]));
                }
                if !check(&items[k], t, records) {
                    return false;
                }
                k = k + 1;
            }
            true
        },
        (Value::Record { name, fields }, Type::Record(expected)) => {
            if !str_eq(name.as_str(), expected.as_str()) {
                return false;
            }
            match records.get(name.as_str()) {
                None => false,
                Some(defs) => {
                    if fields.len() != defs.len() {
                        return false;
                    }
                    proof {
                        lemma_fields_fit(fields@, defs@, records@);
                    }
                    let mut k: usize = 0;
                    while k < defs.len()
                        invariant
                            k <= defs@.len(),
                            forall|j: int| 0 <= j < k ==> {
                                let i = #[trigger] field_index(fields@, defs@[j].name@);
                                0 <= i < fields@.len() && fits(fields@[i].1, defs@[j].ty, records@)
                            },
                        decreases defs@.len() - k,
                    {
                        match field_position(fields, defs[k].name.as_str()) {
                            None => {
                                return false;
                            },
                            Some(i) => {
                                proof {
                                    lemma_field_index(fields@, defs@[k as int].name@);
                                    assert(decreases_to!(v => fields@[i as int].1));
                                }
                                if !check(&fields[i].1, &defs[k].ty, records) {
                                    return false;
                                }
                            },
                        }
                        k = k + 1;
                    }
                    true
                },
            }
        },
        _ => false,
    }
}

/// Whether `value` is within the value bounds and conforms to `ty`, records
/// named in `ty` being declared by `records`.
pub fn conforms(value: &Value, ty: &Type, records: &crate::smap::StrMap<Vec<Parameter>>) -> (r: bool)
    ensures
        r == (value_units(*value) is Some && fits(*value, *ty, records@)),
{
    units(value).is_some() && check(value, ty, records)
}

impl Value {
    /// Whether the value is within the value bounds and conforms to `ty`,
    /// no record type being declared.
    pub fn conforms(&self, ty: &Type) -> (r: bool)
        ensures
            r == (value_units(*self) is Some && fits(*self, *ty, Seq::empty())),
    {
        let records: crate::smap::StrMap<Vec<Parameter>> = crate::smap::StrMap::new();
        conforms(self, ty, &records)
    }
}

/// Without record declarations no value conforms to a record type: standalone
/// validation cannot resolve a named type.
pub proof fn standalone_records_never_conform(v: Value, name: String)
    ensures
        !fits(v, Type::Record(name), Seq::empty()),
{
    reveal(crate::smap::lookup);
}

} // verus!
