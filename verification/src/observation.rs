//! Observation maps from model states to public fields, action hiding,
//! and stutter projection of words.

use vstd::prelude::*;
use crate::graph::{ModelState, StateId, Value, ValueV, state_views, lemma_sorted_value_view};
use crate::smap::{
    StrMap, entries_view, has_key, lookup, last_lookup, sorted_keys, lemma_sorted_ext,
    lemma_last_lookup_push, lemma_last_lookup_empty, lemma_lookup_none, lemma_sorted_lookup,
    map_entry_values, lemma_map_entry_values, lemma_map_entry_values_last,
};
use crate::text::{debug_text, quote_between, str_eq};

verus! {

/// Values that can be compared and copied by their content.
pub trait Symbol: View + Sized {
    fn same(&self, other: &Self) -> (r: bool)
        ensures
            r == (self@ == other@);

    fn duplicate(&self) -> (r: Self)
        ensures
            r@ == self@;
}

impl Symbol for bool {
    fn same(&self, other: &bool) -> (r: bool) {
        *self == *other
    }

    fn duplicate(&self) -> (r: bool) {
        *self
    }
}

impl Symbol for Value {
    fn same(&self, other: &Value) -> (r: bool) {
        Value::same(self, other)
    }

    fn duplicate(&self) -> (r: Value) {
        self.copy()
    }
}

impl Symbol for ModelState {
    fn same(&self, other: &ModelState) -> (r: bool) {
        ModelState::same(self, other)
    }

    fn duplicate(&self) -> (r: ModelState) {
        self.copy()
    }
}

impl Symbol for String {
    fn same(&self, other: &String) -> (r: bool) {
        str_eq(self.as_str(), other.as_str())
    }

    fn duplicate(&self) -> (r: String) {
        self.clone()
    }
}

#[derive(Clone, Debug, PartialEq, Eq)]
pub enum ObservationError {
    DuplicateOutputField(String),
    MissingSourceField(String),
    StateOutOfRange(StateId),
}

impl ObservationError {
    /// The description `message` gives.
    pub open spec fn text(&self) -> Seq<char> {
        match self {
            ObservationError::DuplicateOutputField(f) => "observation field "@ + debug_text(f@) + " has more than one source"@,
            ObservationError::MissingSourceField(f) => "state does not contain observed source field "@ + debug_text(f@),
            ObservationError::StateOutOfRange(s) => "trace refers to missing state "@ + crate::text::decimal(*s as nat),
        }
    }

    /// A human-readable description.
    pub fn message(&self) -> (r: String)
        ensures
            r@ == self.text(),
    {
        proof {
            reveal_strlit("");
        }
        match self {
            ObservationError::DuplicateOutputField(f) => quote_between("observation field ", f.as_str(), " has more than one source"),
            ObservationError::MissingSourceField(f) => {
                let r = quote_between("state does not contain observed source field ", f.as_str(), "");
                assert(r@ =~= "state does not contain observed source field "@ + debug_text(f@));
                r
            },
            ObservationError::StateOutOfRange(s) => {
                let d = crate::text::usize_string(*s);
                String::from_str("trace refers to missing state ").concat(d.as_str())
            },
        }
    }
}

#[derive(Clone, Debug, PartialEq, Eq)]
pub struct ActionProjectionError {
    pub action_index: usize,
    pub action: String,
}

impl ActionProjectionError {
    /// A human-readable description.
    pub fn to_string(&self) -> (r: String)
        ensures
            r@ == "action "@ + self.action@ + " at trace position "@ + crate::text::decimal(self.action_index as nat)
                + " has no hiding/renaming mapping"@,
    {
        let tail = crate::text::number_between(" at trace position ", self.action_index, " has no hiding/renaming mapping");
        let r = String::from_str("action ").concat(self.action.as_str()).concat(tail.as_str());
        assert(r@ =~= "action "@ + self.action@ + " at trace position "@ + crate::text::decimal(self.action_index as nat)
            + " has no hiding/renaming mapping"@);
        r
    }
}

/// Views the string values of string-keyed entries.
pub open spec fn text_entries_view(s: Seq<(Seq<char>, String)>) -> Seq<(Seq<char>, Seq<char>)> {
    s.map_values(|e: (Seq<char>, String)| (e.0, e.1@))
}

/// Views optional string values.
pub open spec fn opt_text(o: Option<String>) -> Option<Seq<char>> {
    match o {
        Some(s) => Some(s@),
        None => None,
    }
}

/// Views the optional string values of string-keyed entries.
pub open spec fn hiding_view(s: Seq<(Seq<char>, Option<String>)>) -> Seq<(Seq<char>, Option<Seq<char>>)> {
    map_entry_values(s, opt_text_fn())
}

pub open spec fn opt_text_fn() -> spec_fn(Option<String>) -> Option<Seq<char>> {
    |o: Option<String>| opt_text(o)
}

/// The pairs (output, value) that observing `state` through `fields`
/// yields, in field order.
pub open spec fn observed_pairs(fields: Seq<(Seq<char>, Seq<char>)>, state: Seq<(Seq<char>, ValueV)>) -> Seq<(Seq<char>, ValueV)> {
    fields.map_values(|e: (Seq<char>, Seq<char>)| (e.1, lookup(state, e.0).unwrap()))
}

/// Every source field of `fields` is bound in `state`.
pub open spec fn observable(fields: Seq<(Seq<char>, Seq<char>)>, state: Seq<(Seq<char>, ValueV)>) -> bool {
    forall|i: int| 0 <= i < fields.len() ==> has_key(state, #[trigger] fields[i].0)
}

/// `obs` is the observation of `state` through `fields`: sorted by output
/// field, with each output bound to the value of its source.
pub open spec fn is_observation(fields: Seq<(Seq<char>, Seq<char>)>, state: Seq<(Seq<char>, ValueV)>, obs: Seq<(Seq<char>, ValueV)>) -> bool {
    &&& sorted_keys(obs)
    &&& forall|k: Seq<char>| #[trigger] lookup(obs, k) == last_lookup(observed_pairs(fields, state), k)
}

/// Observations of one state are unique.
pub proof fn lemma_observation_unique(fields: Seq<(Seq<char>, Seq<char>)>, state: Seq<(Seq<char>, ValueV)>, a: Seq<(Seq<char>, ValueV)>, b: Seq<(Seq<char>, ValueV)>)
    requires
        is_observation(fields, state, a),
        is_observation(fields, state, b),
    ensures
        a == b,
{
    assert forall|k: Seq<char>| #[trigger] lookup(a, k) == lookup(b, k) by {}
    lemma_sorted_ext(a, b);
}

/// Two sources map to one output.
/// The bindings that `pairs` leave, in increasing source order, a later
/// pair for a source replacing an earlier one.
pub open spec fn collected(pairs: Seq<(Seq<char>, Seq<char>)>) -> Seq<(Seq<char>, Seq<char>)> {
    choose|t: Seq<(Seq<char>, Seq<char>)>| sorted_keys(t) && forall|k: Seq<char>| #[trigger] lookup(t, k) == last_lookup(pairs, k)
}

/// Binding `a` of `t` is the first, in source order, whose output an
/// earlier binding already has.
pub open spec fn first_repeat(t: Seq<(Seq<char>, Seq<char>)>, a: int) -> bool {
    &&& 0 <= a < t.len()
    &&& exists|b: int| 0 <= b < a && t[b].1 == t[a].1
    &&& forall|x: int, y: int| 0 <= x < y < a ==> t[x].1 != t[y].1
}

pub open spec fn duplicate_output(pairs: Seq<(Seq<char>, Seq<char>)>, out: Seq<char>) -> bool {
    exists|k1: Seq<char>, k2: Seq<char>| k1 != k2 && #[trigger] last_lookup(pairs, k1) == Some(out) && #[trigger] last_lookup(pairs, k2) == Some(out)
}

/// A projection from model-state fields to public observation fields, with
/// distinct outputs.
#[derive(Clone, Debug, PartialEq, Eq)]
pub struct ObservationMap {
    fields: StrMap<String>,
}

impl View for ObservationMap {
    type V = Seq<(Seq<char>, Seq<char>)>;

    closed spec fn view(&self) -> Seq<(Seq<char>, Seq<char>)> {
        text_entries_view(self.fields@)
    }
}

pub proof fn lemma_lookup_text_view(s: Seq<(Seq<char>, String)>, k: Seq<char>)
    ensures
        has_key(text_entries_view(s), k) == has_key(s, k),
        lookup(text_entries_view(s), k) == match lookup(s, k) {
            Some(v) => Some(v@),
            None => None::<Seq<char>>,
        },
{
    let t = text_entries_view(s);
    if has_key(s, k) {
        crate::smap::lemma_has_key_first(s, k);
        let i = crate::smap::first_key_index(s, k);
        assert forall|j: int| 0 <= j < i implies t[j].0 != k by {
            assert(t[j].0 == s[j].0);
        }
        crate::smap::lemma_first_key_index(t, k, i);
        crate::smap::lemma_first_key_index(s, k, i);
    } else {
        assert(!has_key(t, k)) by {
            if has_key(t, k) {
                let w = choose|w: int| 0 <= w < t.len() && t[w].0 == k;
                assert(s[w].0 == k);
            }
        }
        lemma_lookup_none(s, k);
        lemma_lookup_none(t, k);
    }
}

pub proof fn lemma_sorted_text_view(s: Seq<(Seq<char>, String)>)
    ensures
        sorted_keys(text_entries_view(s)) == sorted_keys(s),
{
    let t = text_entries_view(s);
    assert forall|j: int| 0 <= j < s.len() implies t[j].0 == s[j].0 by {}
    if sorted_keys(s) {
        assert forall|a: int, b: int| 0 <= a < b < t.len() implies crate::text::seq_lt(t[a].0, t[b].0) by {
            assert(t[a].0 == s[a].0);
            assert(t[b].0 == s[b].0);
        }
    }
    if sorted_keys(t) {
        assert forall|a: int, b: int| 0 <= a < b < s.len() implies crate::text::seq_lt(s[a].0, s[b].0) by {
            assert(t[a].0 == s[a].0);
            assert(t[b].0 == s[b].0);
        }
    }
}

impl ObservationMap {
    /// Builds a map from (source, output) pairs; a later pair for a source
    /// replaces an earlier one. Fails on the first output, in source order,
    /// that two sources share.
    pub fn new(pairs: Vec<(String, String)>) -> (r: Result<ObservationMap, ObservationError>)
        ensures
            r is Ok <==> !exists|o: Seq<char>| duplicate_output(text_entries_view(entries_view(pairs@)), o),
            r matches Ok(m) ==> {
                &&& sorted_keys(m@)
                &&& forall|k: Seq<char>| #[trigger] lookup(m@, k) == last_lookup(text_entries_view(entries_view(pairs@)), k)
            },
            r matches Err(e) ==> e matches ObservationError::DuplicateOutputField(o) && duplicate_output(text_entries_view(entries_view(pairs@)), o@)
                && exists|a: int| first_repeat(collected(text_entries_view(entries_view(pairs@))), a)
                    && o@ == collected(text_entries_view(entries_view(pairs@)))[a].1,
    {
        let ghost pv = text_entries_view(entries_view(pairs@));
        let mut fields: StrMap<String> = StrMap::new();
        proof {
            assert forall|k: Seq<char>| #[trigger] lookup(text_entries_view(fields@), k) == last_lookup(pv.subrange(0, 0), k) by {
                assert(pv.subrange(0, 0) =~= Seq::<(Seq<char>, Seq<char>)>::empty());
                lemma_last_lookup_empty::<Seq<char>>(k);
                assert(text_entries_view(fields@) =~= Seq::<(Seq<char>, Seq<char>)>::empty());
                lemma_lookup_none(text_entries_view(fields@), k);
            }
        }
        let n = pairs.len();
        let mut i: usize = 0;
        while i < n
            invariant
                n == pairs@.len(),
                i <= n,
                pv == text_entries_view(entries_view(pairs@)),
                sorted_keys(fields@),
                forall|k: Seq<char>| #[trigger] lookup(text_entries_view(fields@), k) == last_lookup(pv.subrange(0, i as int), k),
            decreases n - i,
        {
            let key = pairs[i].0.clone();
            let value = pairs[i].1.clone();
            let ghost before = fields@;
            fields.insert(key, value);
            proof {
                assert(pv.subrange(0, i + 1) =~= pv.subrange(0, i as int).push(pv[i as int]));
                assert forall|k: Seq<char>| #[trigger] lookup(text_entries_view(fields@), k) == last_lookup(pv.subrange(0, i + 1), k) by {
                    lemma_last_lookup_push(pv.subrange(0, i as int), pv[i as int], k);
                    lemma_lookup_text_view(fields@, k);
                    lemma_lookup_text_view(before, k);
                }
            }
            i = i + 1;
        }
        proof {
            assert(pv.subrange(0, n as int) =~= pv);
            lemma_sorted_text_view(fields@);
        }
        // Outputs must be distinct.
        let entries = fields.entries();
        let m = entries.len();
        let mut a: usize = 0;
        while a < m
            invariant
                m == entries@.len(),
                entries_view(entries@) == fields@,
                a <= m,
                forall|x: int, y: int| 0 <= x < y < a ==> entries@[x].1@ != entries@[y].1@,
            decreases m - a,
        {
            let mut b: usize = 0;
            while b < a
                invariant
                    m == entries@.len(),
                    a < m,
                    b <= a,
                    forall|x: int, y: int| 0 <= x < y < a ==> entries@[x].1@ != entries@[y].1@,
                    forall|x: int| 0 <= x < b ==> entries@[x].1@ != entries@[a as int].1@,
                decreases a - b,
            {
                if str_eq(entries[b].1.as_str(), entries[a].1.as_str()) {
                    let out = entries[a].1.clone();
                    proof {
                        let t = text_entries_view(fields@);
                        lemma_sorted_text_view(fields@);
                        lemma_sorted_lookup(t, b as int);
                        lemma_sorted_lookup(t, a as int);
                        assert(t[b as int].0 != t[a as int].0) by {
                            crate::text::lemma_seq_lt_irreflexive(t[b as int].0);
                        }
                        assert(t[b as int].1 == entries@[b as int].1@);
                        assert(t[a as int].1 == entries@[a as int].1@);
                        assert(last_lookup(pv, t[b as int].0) == Some(out@));
                        assert(last_lookup(pv, t[a as int].0) == Some(out@));
                        assert(duplicate_output(pv, out@));
                        let c = collected(pv);
                        assert(sorted_keys(t) && forall|k: Seq<char>| #[trigger] lookup(t, k) == last_lookup(pv, k)) by {
                            assert forall|k: Seq<char>| #[trigger] lookup(t, k) == last_lookup(pv, k) by {
                                lemma_lookup_text_view(fields@, k);
                            }
                        }
                        lemma_sorted_ext(c, t);
                        assert(entries_view(entries@) == fields@);
                        assert forall|x: int, y: int| 0 <= x < y < a implies t[x].1 != t[y].1 by {
                            assert(t[x].1 == entries@[x].1@);
                            assert(t[y].1 == entries@[y].1@);
                        }
                        assert(first_repeat(c, a as int));
                    }
                    return Err(ObservationError::DuplicateOutputField(out));
                }
                b = b + 1;
            }
            a = a + 1;
        }
        proof {
            let t = text_entries_view(fields@);
            lemma_sorted_text_view(fields@);
            if exists|o: Seq<char>| duplicate_output(pv, o) {
                let o = choose|o: Seq<char>| duplicate_output(pv, o);
                let (k1, k2) = choose|k1: Seq<char>, k2: Seq<char>| k1 != k2 && #[trigger] last_lookup(pv, k1) == Some(o) && #[trigger] last_lookup(pv, k2) == Some(o);
                assert(lookup(t, k1) == Some(o));
                assert(lookup(t, k2) == Some(o));
                assert(has_key(t, k1)) by { if !has_key(t, k1) { lemma_lookup_none(t, k1); } }
                assert(has_key(t, k2)) by { if !has_key(t, k2) { lemma_lookup_none(t, k2); } }
                let x = choose|x: int| 0 <= x < t.len() && t[x].0 == k1;
                let y = choose|y: int| 0 <= y < t.len() && t[y].0 == k2;
                lemma_sorted_lookup(t, x);
                lemma_sorted_lookup(t, y);
                if x < y {
                    assert(entries@[x].1@ != entries@[y].1@);
                } else {
                    assert(entries@[y].1@ != entries@[x].1@);
                }
            }
        }
        Ok(ObservationMap { fields })
    }

    /// The map that observes each of `fields` under its own name.
    pub fn identity(fields: Vec<&str>) -> (r: ObservationMap)
        ensures
            sorted_keys(r@),
            forall|k: Seq<char>| #[trigger] lookup(r@, k) == if fields@.map_values(|f: &str| f@).contains(k) { Some(k) } else { None },
    {
        let mut pairs: Vec<(String, String)> = Vec::new();
        let mut i: usize = 0;
        while i < fields.len()
            invariant
                i <= fields@.len(),
                pairs@.len() == i,
                forall|j: int| 0 <= j < i ==> #[trigger] pairs@[j].0@ == fields@[j]@ && pairs@[j].1@ == fields@[j]@,
            decreases fields@.len() - i,
        {
            pairs.push((fields[i].to_owned(), fields[i].to_owned()));
            i = i + 1;
        }
        let ghost pv = text_entries_view(entries_view(pairs@));
        let ghost fk = fields@.map_values(|f: &str| f@);
        proof {
            assert forall|k: Seq<char>| #[trigger] last_lookup(pv, k) == if fk.contains(k) { Some(k) } else { None } by {
                lemma_identity_lookup(pv, k);
                if fk.contains(k) {
                    let w = choose|w: int| 0 <= w < fk.len() && #[trigger] fk[w] == k;
                    assert(pv[w].0 == k);
                }
                if exists|w: int| 0 <= w < pv.len() && #[trigger] pv[w].0 == k {
                    let w = choose|w: int| 0 <= w < pv.len() && #[trigger] pv[w].0 == k;
                    assert(fk[w] == k);
                }
            }
            assert forall|o: Seq<char>| !duplicate_output(pv, o) by {
                if duplicate_output(pv, o) {
                    let (k1, k2) = choose|k1: Seq<char>, k2: Seq<char>| k1 != k2 && #[trigger] last_lookup(pv, k1) == Some(o) && #[trigger] last_lookup(pv, k2) == Some(o);
                    lemma_identity_lookup(pv, k1);
                    lemma_identity_lookup(pv, k2);
                }
            }
        }
        match ObservationMap::new(pairs) {
            Ok(m) => m,
            Err(_) => {
                proof {
                    assert(false);
                }
                ObservationMap { fields: StrMap::new() }
            },
        }
    }

    /// The (source, output) pairs, in increasing source order.
    pub fn fields(&self) -> (r: &StrMap<String>)
        ensures
            text_entries_view(r@) == self@,
    {
        &self.fields
    }

    /// Whether both maps have the same pairs in the same order.
    pub fn same(&self, other: &ObservationMap) -> (r: bool)
        ensures
            r == (self@ == other@),
    {
        let a = self.fields.entries();
        let b = other.fields.entries();
        if a.len() != b.len() {
            proof {
                assert(self@.len() != other@.len());
            }
            return false;
        }
        let n = a.len();
        let mut i: usize = 0;
        while i < n
            invariant
                n == a@.len(),
                n == b@.len(),
                i <= n,
                entries_view(a@) == self.fields@,
                entries_view(b@) == other.fields@,
                forall|j: int| 0 <= j < i ==> self@[j] == other@[j],
            decreases n - i,
        {
            let ghost j = i as int;
            proof {
                assert(self@[j].0 == a@[j].0@ && self@[j].1 == a@[j].1@);
                assert(other@[j].0 == b@[j].0@ && other@[j].1 == b@[j].1@);
            }
            if !str_eq(a[i].0.as_str(), b[i].0.as_str()) || !str_eq(a[i].1.as_str(), b[i].1.as_str()) {
                return false;
            }
            i = i + 1;
        }
        proof {
            assert(self@ =~= other@);
        }
        true
    }

    /// A copy of this map.
    pub fn copy(&self) -> (r: ObservationMap)
        ensures
            r@ == self@,
    {
        let a = self.fields.entries();
        let mut fields: StrMap<String> = StrMap::new();
        let n = a.len();
        let mut i: usize = 0;
        while i < n
            invariant
                n == a@.len(),
                i <= n,
                entries_view(a@) == self.fields@,
                text_entries_view(fields@) == text_entries_view(self.fields@).subrange(0, i as int),
            decreases n - i,
        {
            fields.push_unchecked(a[i].0.clone(), a[i].1.clone());
            proof {
                assert(text_entries_view(fields@) =~= text_entries_view(self.fields@).subrange(0, i + 1));
            }
            i = i + 1;
        }
        proof {
            assert(text_entries_view(self.fields@).subrange(0, n as int) =~= text_entries_view(self.fields@));
        }
        ObservationMap { fields }
    }

    /// Observes `state`: fails on the first source field, in source order,
    /// that `state` lacks.
    pub fn observe(&self, state: &ModelState) -> (r: Result<ModelState, ObservationError>)
        ensures
            r is Ok <==> observable(self@, state@),
            r matches Ok(obs) ==> is_observation(self@, state@, obs@),
            r matches Err(e) ==> e matches ObservationError::MissingSourceField(f) && exists|i: int| 0 <= i < self@.len()
                && self@[i].0 == f@ && !has_key(state@, f@) && forall|j: int| 0 <= j < i ==> has_key(state@, #[trigger] self@[j].0),
    {
        let entries = self.fields.entries();
        let ghost fv = self@;
        let ghost pairs = observed_pairs(fv, state@);
        let mut result = ModelState::new();
        let n = entries.len();
        let mut i: usize = 0;
        while i < n
            invariant
                n == entries@.len(),
                i <= n,
                text_entries_view(entries_view(entries@)) == fv,
                fv.len() == n,
                pairs == observed_pairs(fv, state@),
                sorted_keys(result@),
                forall|j: int| 0 <= j < i ==> has_key(state@, #[trigger] fv[j].0),
                forall|k: Seq<char>| #[trigger] lookup(result@, k) == last_lookup(pairs.subrange(0, i as int), k),
            decreases n - i,
        {
            let ghost j = i as int;
            assert(fv[j].0 == entries@[j].0@ && fv[j].1 == entries@[j].1@);
            match state.get(entries[i].0.as_str()) {
                None => {
                    return Err(ObservationError::MissingSourceField(entries[i].0.clone()));
                },
                Some(value) => {
                    let ghost before = result@;
                    result.insert(entries[i].1.clone(), value.copy());
                    proof {
                        assert(pairs[j] == (fv[j].1, value@));
                        assert(pairs.subrange(0, j + 1) =~= pairs.subrange(0, j).push(pairs[j]));
                        assert forall|k: Seq<char>| #[trigger] lookup(result@, k) == last_lookup(pairs.subrange(0, j + 1), k) by {
                            lemma_last_lookup_push(pairs.subrange(0, j), pairs[j], k);
                        }
                    }
                },
            }
            i = i + 1;
        }
        proof {
            assert(pairs.subrange(0, n as int) =~= pairs);
        }
        Ok(result)
    }

    /// Observes the states of `trace`, failing on the first state out of
    /// range or not observable.
    pub fn project_trace(&self, states: &Vec<ModelState>, trace: &Vec<StateId>) -> (r: Result<Vec<ModelState>, ObservationError>)
        ensures
            r is Ok <==> forall|i: int| 0 <= i < trace@.len() ==> #[trigger] trace@[i] < states@.len() && observable(self@, states@[trace@[i] as int]@),
            r matches Ok(obs) ==> obs@.len() == trace@.len() && forall|i: int| 0 <= i < trace@.len() ==> is_observation(self@, states@[trace@[i] as int]@, #[trigger] obs@[i]@),
            r matches Err(ObservationError::StateOutOfRange(s)) ==> exists|i: int| 0 <= i < trace@.len() && trace@[i] == s && s >= states@.len(),
            r matches Err(e) ==> exists|i: int| 0 <= i < trace@.len()
                && (forall|j: int| 0 <= j < i ==> #[trigger] trace@[j] < states@.len() && observable(self@, states@[trace@[j] as int]@))
                && if trace@[i] >= states@.len() {
                    e == ObservationError::StateOutOfRange(trace@[i])
                } else {
                    !observable(self@, states@[trace@[i] as int]@) && (e matches ObservationError::MissingSourceField(f)
                        && f@ == first_unobserved(self@, states@[trace@[i] as int]@))
                },
    {
        let mut out: Vec<ModelState> = Vec::new();
        let mut i: usize = 0;
        while i < trace.len()
            invariant
                i <= trace@.len(),
                out@.len() == i,
                forall|j: int| 0 <= j < i ==> #[trigger] trace@[j] < states@.len() && observable(self@, states@[trace@[j] as int]@),
                forall|j: int| 0 <= j < i ==> is_observation(self@, states@[trace@[j] as int]@, #[trigger] out@[j]@),
            decreases trace@.len() - i,
        {
            let s = trace[i];
            if s >= states.len() {
                return Err(ObservationError::StateOutOfRange(s));
            }
            match self.observe(&states[s]) {
                Ok(obs) => {
                    out.push(obs);
                },
                Err(e) => {
                    proof {
                        let f = e->MissingSourceField_0;
                        let k = choose|k: int| 0 <= k < self@.len() && self@[k].0 == f@ && !has_key(states@[s as int]@, f@)
                            && forall|j: int| 0 <= j < k ==> has_key(states@[s as int]@, #[trigger] self@[j].0);
                        lemma_first_unobserved(self@, states@[s as int]@, k);
                    }
                    return Err(e);
                },
            }
            i = i + 1;
        }
        Ok(out)
    }
}

proof fn lemma_identity_lookup(pv: Seq<(Seq<char>, Seq<char>)>, k: Seq<char>)
    requires
        forall|j: int| 0 <= j < pv.len() ==> #[trigger] pv[j].0 == pv[j].1,
    ensures
        last_lookup(pv, k) == if exists|w: int| 0 <= w < pv.len() && pv[w].0 == k { Some(k) } else { None },
{
    let r = pv.reverse();
    if exists|w: int| 0 <= w < pv.len() && pv[w].0 == k {
        let w = choose|w: int| 0 <= w < pv.len() && pv[w].0 == k;
        assert(r[pv.len() - 1 - w].0 == k);
        crate::smap::lemma_has_key_first(r, k);
        let f = crate::smap::first_key_index(r, k);
        crate::smap::lemma_first_key_index(r, k, f);
        assert(r[f] == pv[pv.len() - 1 - f]);
    } else {
        assert(!has_key(r, k)) by {
            if has_key(r, k) {
                let w = choose|w: int| 0 <= w < r.len() && r[w].0 == k;
                assert(pv[pv.len() - 1 - w].0 == k);
            }
        }
        lemma_lookup_none(r, k);
    }
}


/// Maps concrete action names either to an abstract action (`Some`) or to a
/// hidden step (`None`). An action that is absent is unmapped, not hidden.
#[derive(Clone, Debug, PartialEq, Eq)]
pub struct ActionHiding {
    actions: StrMap<Option<String>>,
}

impl View for ActionHiding {
    type V = Seq<(Seq<char>, Option<Seq<char>>)>;

    closed spec fn view(&self) -> Seq<(Seq<char>, Option<Seq<char>>)> {
        hiding_view(self.actions@)
    }
}

impl Default for ActionHiding {
    fn default() -> (r: ActionHiding)
        ensures
            r@ == Seq::<(Seq<char>, Option<Seq<char>>)>::empty(),
    {
        let r = ActionHiding { actions: StrMap::new() };
        assert(r@ =~= Seq::<(Seq<char>, Option<Seq<char>>)>::empty());
        r
    }
}

/// The visible names of `acts` under `h`: hidden actions dropped, visible
/// ones renamed, in order. Unmapped actions contribute nothing.
pub open spec fn visible_actions(h: Seq<(Seq<char>, Option<Seq<char>>)>, acts: Seq<Seq<char>>) -> Seq<Seq<char>>
    decreases acts.len(),
{
    if acts.len() == 0 {
        Seq::empty()
    } else {
        let prev = visible_actions(h, acts.drop_last());
        match lookup(h, acts.last()) {
            Some(Some(v)) => prev.push(v),
            _ => prev,
        }
    }
}

/// Views a sequence of string slices.
pub open spec fn str_views(s: Seq<&str>) -> Seq<Seq<char>> {
    s.map_values(|a: &str| a@)
}

/// Views a sequence of strings.
pub open spec fn string_views(s: Seq<String>) -> Seq<Seq<char>> {
    s.map_values(|a: String| a@)
}

impl ActionHiding {
    /// Builds the hiding from (concrete, abstract) pairs; a later pair for a
    /// concrete action replaces an earlier one.
    pub fn new(pairs: Vec<(String, Option<String>)>) -> (r: ActionHiding)
        ensures
            sorted_keys(r@),
            forall|k: Seq<char>| #[trigger] lookup(r@, k) == last_lookup(hiding_view(entries_view(pairs@)), k),
    {
        let ghost pv = hiding_view(entries_view(pairs@));
        let mut actions: StrMap<Option<String>> = StrMap::new();
        proof {
            assert forall|k: Seq<char>| #[trigger] lookup(hiding_view(actions@), k) == last_lookup(pv.subrange(0, 0), k) by {
                assert(pv.subrange(0, 0) =~= Seq::<(Seq<char>, Option<Seq<char>>)>::empty());
                lemma_last_lookup_empty::<Option<Seq<char>>>(k);
                assert(hiding_view(actions@) =~= Seq::<(Seq<char>, Option<Seq<char>>)>::empty());
                lemma_lookup_none(hiding_view(actions@), k);
            }
        }
        let n = pairs.len();
        let mut i: usize = 0;
        while i < n
            invariant
                n == pairs@.len(),
                i <= n,
                pv == hiding_view(entries_view(pairs@)),
                sorted_keys(actions@),
                forall|k: Seq<char>| #[trigger] lookup(hiding_view(actions@), k) == last_lookup(pv.subrange(0, i as int), k),
            decreases n - i,
        {
            let key = pairs[i].0.clone();
            let value = pairs[i].1.clone();
            let ghost before = actions@;
            actions.insert(key, value);
            proof {
                assert(pv[i as int] == (key@, opt_text(value)));
                assert(pv.subrange(0, i + 1) =~= pv.subrange(0, i as int).push(pv[i as int]));
                assert forall|k: Seq<char>| #[trigger] lookup(hiding_view(actions@), k) == last_lookup(pv.subrange(0, i + 1), k) by {
                    lemma_last_lookup_push(pv.subrange(0, i as int), pv[i as int], k);
                    lemma_map_entry_values(actions@, opt_text_fn(), k);
                    lemma_map_entry_values(before, opt_text_fn(), k);
                    if k == key@ {
                        assert(lookup(actions@, k) == Some(value));
                        assert(lookup(hiding_view(actions@), k) == Some(opt_text(value)));
                        assert(last_lookup(pv.subrange(0, i + 1), k) == Some(opt_text(value)));
                    } else {
                        assert(lookup(actions@, k) == lookup(before, k));
                        assert(lookup(hiding_view(actions@), k) == lookup(hiding_view(before), k));
                        assert(lookup(hiding_view(before), k) == last_lookup(pv.subrange(0, i as int), k));
                        assert(last_lookup(pv.subrange(0, i + 1), k) == last_lookup(pv.subrange(0, i as int), k));
                    }
                }
            }
            i = i + 1;
        }
        proof {
            assert(pv.subrange(0, n as int) =~= pv);
            lemma_map_entry_values(actions@, opt_text_fn(), Seq::empty());
        }
        ActionHiding { actions }
    }

    /// The hiding with the bindings of `actions`.
    pub(crate) fn from_map(actions: StrMap<Option<String>>) -> (r: ActionHiding)
        ensures
            r@ == hiding_view(actions@),
    {
        ActionHiding { actions }
    }

    /// `None` when `concrete` is unmapped, `Some(None)` when it is hidden,
    /// `Some(Some(a))` when it is renamed to `a`.
    pub fn get(&self, concrete: &str) -> (r: Option<Option<&str>>)
        ensures
            r is Some <==> has_key(self@, concrete@),
            r is None ==> lookup(self@, concrete@) is None,
            r matches Some(x) ==> lookup(self@, concrete@) == Some(match x {
                Some(a) => Some(a@),
                None => None::<Seq<char>>,
            }),
    {
        proof {
            lemma_map_entry_values(self.actions@, opt_text_fn(), concrete@);
        }
        match self.actions.get(concrete) {
            Some(Some(a)) => Some(Some(a.as_str())),
            Some(None) => Some(None),
            None => None,
        }
    }

    /// The (concrete, abstract) pairs, in increasing concrete order.
    pub fn mappings(&self) -> (r: &StrMap<Option<String>>)
        ensures
            hiding_view(r@) == self@,
    {
        &self.actions
    }

    /// Drops hidden actions and renames visible ones. An unmapped action is an
    /// error, reported with its position, so that a misspelled action is never
    /// hidden silently.
    pub fn project_visible(&self, actions: &Vec<&str>) -> (r: Result<Vec<String>, ActionProjectionError>)
        ensures
            r is Ok <==> forall|i: int| 0 <= i < actions@.len() ==> has_key(self@, #[trigger] actions@[i]@),
            r matches Ok(v) ==> string_views(v@) == visible_actions(self@, str_views(actions@)),
            r matches Err(e) ==> e.action_index < actions@.len() && e.action@ == actions@[e.action_index as int]@
                && !has_key(self@, e.action@) && forall|j: int| 0 <= j < e.action_index ==> has_key(self@, #[trigger] actions@[j]@),
    {
        let ghost acts = str_views(actions@);
        let mut out: Vec<String> = Vec::new();
        let mut i: usize = 0;
        while i < actions.len()
            invariant
                i <= actions@.len(),
                acts == str_views(actions@),
                forall|j: int| 0 <= j < i ==> has_key(self@, #[trigger] actions@[j]@),
                string_views(out@) == visible_actions(self@, acts.subrange(0, i as int)),
            decreases actions@.len() - i,
        {
            let a = actions[i];
            let ghost pre = acts.subrange(0, i as int);
            proof {
                assert(acts.subrange(0, i + 1).drop_last() =~= pre);
                assert(acts.subrange(0, i + 1).last() == a@);
            }
            match self.get(a) {
                Some(Some(v)) => {
                    let ghost before = out@;
                    out.push(v.to_owned());
                    proof {
                        assert(string_views(out@) =~= string_views(before).push(v@));
                    }
                },
                Some(None) => {},
                None => {
                    return Err(ActionProjectionError { action_index: i, action: a.to_owned() });
                },
            }
            i = i + 1;
        }
        proof {
            assert(acts.subrange(0, actions@.len() as int) =~= acts);
        }
        Ok(out)
    }
}

/// Views a sequence of values.
pub open spec fn views<T: View>(s: Seq<T>) -> Seq<T::V> {
    s.map_values(|t: T| t@)
}

/// `s` with each run of adjacent equal items collapsed to one item.
pub open spec fn stutter_seq<A>(s: Seq<A>) -> Seq<A>
    decreases s.len(),
{
    if s.len() == 0 {
        s
    } else {
        let p = stutter_seq(s.drop_last());
        if p.len() > 0 && p.last() == s.last() {
            p
        } else {
            p.push(s.last())
        }
    }
}

/// No two adjacent items of `s` are equal.
pub open spec fn no_adjacent_repeats<A>(s: Seq<A>) -> bool {
    forall|i: int| 0 <= i < s.len() - 1 ==> #[trigger] s[i] != s[i + 1]
}

/// Removes adjacent duplicate items only.
pub fn stutter_project<T: Symbol>(word: &Vec<T>) -> (r: Vec<T>)
    ensures
        views(r@) == stutter_seq(views(word@)),
{
    let ghost w = views(word@);
    let mut out: Vec<T> = Vec::new();
    let mut i: usize = 0;
    while i < word.len()
        invariant
            i <= word@.len(),
            w == views(word@),
            views(out@) == stutter_seq(w.subrange(0, i as int)),
        decreases word@.len() - i,
    {
        proof {
            assert(w.subrange(0, i + 1).drop_last() =~= w.subrange(0, i as int));
            assert(w.subrange(0, i + 1).last() == word@[i as int]@);
        }
        let n = out.len();
        let fresh = n == 0 || !out[n - 1].same(&word[i]);
        if fresh {
            let ghost before = out@;
            out.push(word[i].duplicate());
            proof {
                assert(views(out@) =~= views(before).push(word@[i as int]@));
            }
        } else {
            proof {
                assert(views(out@).last() == out@[n - 1]@);
            }
        }
        i = i + 1;
    }
    proof {
        assert(w.subrange(0, word@.len() as int) =~= w);
    }
    out
}

/// Whether two words are equal after stutter projection.
pub fn stutter_equivalent<T: Symbol>(left: &Vec<T>, right: &Vec<T>) -> (r: bool)
    ensures
        r == (stutter_seq(views(left@)) == stutter_seq(views(right@))),
{
    let a = stutter_project(left);
    let b = stutter_project(right);
    if a.len() != b.len() {
        proof {
            assert(views(a@).len() != views(b@).len());
        }
        return false;
    }
    let mut i: usize = 0;
    while i < a.len()
        invariant
            a@.len() == b@.len(),
            i <= a@.len(),
            forall|j: int| 0 <= j < i ==> #[trigger] views(a@)[j] == views(b@)[j],
        decreases a@.len() - i,
    {
        if !a[i].same(&b[i]) {
            proof {
                assert(views(a@)[i as int] != views(b@)[i as int]);
            }
            return false;
        }
        i = i + 1;
    }
    proof {
        assert(views(a@) =~= views(b@));
    }
    true
}

/// The stutter projection of a nonempty word ends with the word's last item.
pub proof fn lemma_stutter_last<A>(s: Seq<A>)
    requires
        s.len() > 0,
    ensures
        stutter_seq(s).len() > 0,
        stutter_seq(s).last() == s.last(),
{
}

proof fn lemma_stutter_no_repeats<A>(s: Seq<A>)
    ensures
        no_adjacent_repeats(stutter_seq(s)),
    decreases s.len(),
{
    if s.len() > 0 {
        let p = stutter_seq(s.drop_last());
        lemma_stutter_no_repeats(s.drop_last());
        if !(p.len() > 0 && p.last() == s.last()) {
            let q = p.push(s.last());
            assert forall|i: int| 0 <= i < q.len() - 1 implies #[trigger] q[i] != q[i + 1] by {
                if i + 1 < p.len() {
                    assert(q[i] == p[i] && q[i + 1] == p[i + 1]);
                }
            }
        }
    }
}

proof fn lemma_stutter_fixed<A>(s: Seq<A>)
    requires
        no_adjacent_repeats(s),
    ensures
        stutter_seq(s) == s,
    decreases s.len(),
{
    if s.len() > 0 {
        let d = s.drop_last();
        assert forall|i: int| 0 <= i < d.len() - 1 implies #[trigger] d[i] != d[i + 1] by {
            assert(d[i] == s[i] && d[i + 1] == s[i + 1]);
        }
        lemma_stutter_fixed(d);
        if d.len() > 0 {
            assert(s[d.len() - 1] != s[d.len() as int]);
        }
        assert(d.push(s.last()) =~= s);
    }
}

/// Stutter projection is idempotent: a projected word has no adjacent
/// repeats left to collapse.
pub proof fn stutter_project_idempotent<A>(s: Seq<A>)
    ensures
        stutter_seq(stutter_seq(s)) == stutter_seq(s),
        no_adjacent_repeats(stutter_seq(s)),
{
    lemma_stutter_no_repeats(s);
    lemma_stutter_fixed(stutter_seq(s));
}

/// Repeating an item next to itself, anywhere in a word, leaves the stutter
/// projection unchanged: projection collapses exactly adjacent repeats.
pub proof fn stutter_absorbs_repeat<A>(s: Seq<A>, i: int)
    requires
        0 <= i < s.len(),
    ensures
        stutter_seq(s.insert(i + 1, s[i])) == stutter_seq(s),
    decreases s.len(),
{
    let u = s.insert(i + 1, s[i]);
    if i + 1 == s.len() {
        assert(u.drop_last() =~= s);
        lemma_stutter_last(s);
    } else {
        let d = s.drop_last();
        assert(u.drop_last() =~= d.insert(i + 1, d[i]));
        assert(u.last() == s.last());
        stutter_absorbs_repeat(d, i);
    }
}


/// The observation of `state` through `fields`, where there is one.
pub open spec fn observation_of(fields: Seq<(Seq<char>, Seq<char>)>, state: Seq<(Seq<char>, ValueV)>) -> Seq<(Seq<char>, ValueV)> {
    choose|o: Seq<(Seq<char>, ValueV)>| is_observation(fields, state, o)
}

pub proof fn lemma_observation_of(fields: Seq<(Seq<char>, Seq<char>)>, state: Seq<(Seq<char>, ValueV)>, o: Seq<(Seq<char>, ValueV)>)
    requires
        is_observation(fields, state, o),
    ensures
        observation_of(fields, state) == o,
{
    let c = observation_of(fields, state);
    assert(is_observation(fields, state, c));
    lemma_observation_unique(fields, state, c, o);
}

/// `c` repeats each item of `a`, in order, one or more times: the last item
/// of `c` stands for the last item of `a`, and each earlier item of `c`
/// stands either for the same item of `a` or for the one before it.
pub open spec fn expands<A>(a: Seq<A>, c: Seq<A>) -> bool
    decreases a.len() + c.len(),
{
    if a.len() == 0 || c.len() == 0 {
        a.len() == 0 && c.len() == 0
    } else if c.last() != a.last() {
        false
    } else if c.len() == 1 {
        a.len() == 1
    } else {
        expands(a, c.drop_last()) || (a.len() > 1 && expands(a.drop_last(), c.drop_last()))
    }
}

/// Whether the word `concrete` is a stutter expansion of the word `abstract_word`.
pub fn stutter_expands<T: Symbol>(abstract_word: &Vec<T>, concrete: &Vec<T>) -> (r: bool)
    ensures
        r == expands(views(abstract_word@), views(concrete@)),
{
    let ghost a = views(abstract_word@);
    let ghost c = views(concrete@);
    let m = abstract_word.len();
    let n = concrete.len();
    if m == 0 || n == 0 {
        return m == 0 && n == 0;
    }
    // row[j]: the first k + 1 items of `concrete` expand the first j + 1 of `abstract_word`.
    let mut row: Vec<bool> = Vec::new();
    let mut j: usize = 0;
    while j < m
        invariant
            0 < m == a.len(),
            0 < n == c.len(),
            a == views(abstract_word@),
            c == views(concrete@),
            j <= m,
            row@.len() == j,
            forall|x: int| 0 <= x < j ==> #[trigger] row@[x] == expands(a.subrange(0, x + 1), c.subrange(0, 1)),
        decreases m - j,
    {
        let v = j == 0 && concrete[0].same(&abstract_word[0]);
        proof {
            let aa = a.subrange(0, j + 1);
            let cc = c.subrange(0, 1);
            assert(aa.last() == a[j as int]);
            assert(cc.last() == c[0]);
            assert(cc.len() == 1);
        }
        row.push(v);
        j = j + 1;
    }
    let mut k: usize = 1;
    while k < n
        invariant
            0 < m == a.len(),
            0 < n == c.len(),
            a == views(abstract_word@),
            c == views(concrete@),
            1 <= k <= n,
            row@.len() == m,
            forall|x: int| 0 <= x < m ==> #[trigger] row@[x] == expands(a.subrange(0, x + 1), c.subrange(0, k as int)),
        decreases n - k,
    {
        let mut next: Vec<bool> = Vec::new();
        let mut j: usize = 0;
        while j < m
            invariant
                0 < m == a.len(),
                0 < n == c.len(),
                a == views(abstract_word@),
                c == views(concrete@),
                1 <= k < n,
                row@.len() == m,
                forall|x: int| 0 <= x < m ==> #[trigger] row@[x] == expands(a.subrange(0, x + 1), c.subrange(0, k as int)),
                j <= m,
                next@.len() == j,
                forall|x: int| 0 <= x < j ==> #[trigger] next@[x] == expands(a.subrange(0, x + 1), c.subrange(0, k + 1)),
            decreases m - j,
        {
            let matches = concrete[k].same(&abstract_word[j]);
            let v = matches && (row[j] || (j > 0 && row[j - 1]));
            proof {
                let aa = a.subrange(0, j + 1);
                let cc = c.subrange(0, k + 1);
                assert(aa.last() == a[j as int]);
                assert(cc.last() == c[k as int]);
                assert(cc.drop_last() =~= c.subrange(0, k as int));
                if j > 0 {
                    assert(aa.drop_last() =~= a.subrange(0, j as int));
                }
            }
            next.push(v);
            j = j + 1;
        }
        row = next;
        k = k + 1;
    }
    proof {
        assert(a.subrange(0, m as int) =~= a);
        assert(c.subrange(0, n as int) =~= c);
    }
    row[m - 1]
}

impl ActionHiding {
    /// The hiding that hides each action of `hidden` and renames each pair
    /// `(concrete, abstract)` of `renamed`; a later entry for an action
    /// replaces an earlier one, renamings after hidings.
    pub fn from_hide_actions(hidden: Vec<&str>, renamed: Vec<(&str, &str)>) -> (r: ActionHiding)
        ensures
            sorted_keys(r@),
            forall|k: Seq<char>| #[trigger] lookup(r@, k) == last_lookup(hide_then_rename(str_views(hidden@), rename_views(renamed@)), k),
    {
        let mut pairs: Vec<(String, Option<String>)> = Vec::new();
        let mut i: usize = 0;
        while i < hidden.len()
            invariant
                i <= hidden@.len(),
                hiding_view(entries_view(pairs@)) == hide_then_rename(str_views(hidden@).subrange(0, i as int), Seq::empty()),
            decreases hidden@.len() - i,
        {
            let ghost before = hiding_view(entries_view(pairs@));
            pairs.push((hidden[i].to_owned(), None));
            proof {
                let e = (hidden@[i as int]@, None::<Seq<char>>);
                assert(hiding_view(entries_view(pairs@)) =~= before.push(e));
                let hs = str_views(hidden@);
                assert(hs.subrange(0, i + 1) =~= hs.subrange(0, i as int).push(hs[i as int]));
                let empty = Seq::<(Seq<char>, Seq<char>)>::empty();
                assert(hide_then_rename(hs.subrange(0, i + 1), empty) =~= hide_then_rename(hs.subrange(0, i as int), empty).push(e));
            }
            i = i + 1;
        }
        proof {
            assert(str_views(hidden@).subrange(0, hidden@.len() as int) =~= str_views(hidden@));
        }
        let mut i: usize = 0;
        while i < renamed.len()
            invariant
                i <= renamed@.len(),
                hiding_view(entries_view(pairs@)) == hide_then_rename(str_views(hidden@), rename_views(renamed@).subrange(0, i as int)),
            decreases renamed@.len() - i,
        {
            let (c, a) = renamed[i];
            let ghost before = hiding_view(entries_view(pairs@));
            pairs.push((c.to_owned(), Some(a.to_owned())));
            proof {
                let e = (c@, Some(a@));
                assert(hiding_view(entries_view(pairs@)) =~= before.push(e));
                let rs = rename_views(renamed@);
                assert(rs.subrange(0, i + 1) =~= rs.subrange(0, i as int).push(rs[i as int]));
                let hs = str_views(hidden@);
                assert(hide_then_rename(hs, rs.subrange(0, i + 1)) =~= hide_then_rename(hs, rs.subrange(0, i as int)).push(e));
            }
            i = i + 1;
        }
        proof {
            assert(rename_views(renamed@).subrange(0, renamed@.len() as int) =~= rename_views(renamed@));
        }
        ActionHiding::new(pairs)
    }
}

/// Views pairs of string slices.
pub open spec fn rename_views(s: Seq<(&str, &str)>) -> Seq<(Seq<char>, Seq<char>)> {
    s.map_values(|p: (&str, &str)| (p.0@, p.1@))
}

/// The hiding entries of `hidden` followed by the renaming entries of `renamed`.
pub open spec fn hide_then_rename(hidden: Seq<Seq<char>>, renamed: Seq<(Seq<char>, Seq<char>)>) -> Seq<(Seq<char>, Option<Seq<char>>)> {
    hidden.map_values(|h: Seq<char>| (h, None::<Seq<char>>)) + renamed.map_values(|p: (Seq<char>, Seq<char>)| (p.0, Some(p.1)))
}

/// The first source field of `fields`, in source order, that `state` lacks.
pub open spec fn first_unobserved(fields: Seq<(Seq<char>, Seq<char>)>, state: Seq<(Seq<char>, ValueV)>) -> Seq<char> {
    fields[choose|i: int| 0 <= i < fields.len() && !has_key(state, fields[i].0)
        && forall|j: int| 0 <= j < i ==> has_key(state, #[trigger] fields[j].0)].0
}

pub proof fn lemma_first_unobserved(fields: Seq<(Seq<char>, Seq<char>)>, state: Seq<(Seq<char>, ValueV)>, i: int)
    requires
        0 <= i < fields.len(),
        !has_key(state, fields[i].0),
        forall|j: int| 0 <= j < i ==> has_key(state, #[trigger] fields[j].0),
    ensures
        first_unobserved(fields, state) == fields[i].0,
{
    let c = choose|c: int| 0 <= c < fields.len() && !has_key(state, fields[c].0)
        && forall|j: int| 0 <= j < c ==> has_key(state, #[trigger] fields[j].0);
    assert(0 <= c < fields.len() && !has_key(state, fields[c].0) && forall|j: int| 0 <= j < c ==> has_key(state, #[trigger] fields[j].0));
    if c < i {
        assert(has_key(state, fields[c].0));
    } else if c > i {
        assert(has_key(state, fields[i].0));
    }
}

/// The first source field of `fields` that `state` lacks exists unless
/// `state` is observable through `fields`.
pub proof fn lemma_unobservable_witness(fields: Seq<(Seq<char>, Seq<char>)>, state: Seq<(Seq<char>, ValueV)>)
    requires
        !observable(fields, state),
    ensures
        exists|i: int| 0 <= i < fields.len() && !has_key(state, fields[i].0)
            && forall|j: int| 0 <= j < i ==> has_key(state, #[trigger] fields[j].0),
    decreases fields.len(),
{
    let k = choose|k: int| 0 <= k < fields.len() && !has_key(state, #[trigger] fields[k].0);
    if forall|j: int| 0 <= j < k ==> has_key(state, #[trigger] fields[j].0) {
    } else {
        let j0 = choose|j: int| 0 <= j < k && !has_key(state, #[trigger] fields[j].0);
        assert(fields.subrange(0, k)[j0] == fields[j0]);
        lemma_unobservable_witness(fields.subrange(0, k), state);
        let i = choose|i: int| 0 <= i < fields.subrange(0, k).len() && !has_key(state, fields.subrange(0, k)[i].0)
            && forall|j: int| 0 <= j < i ==> has_key(state, #[trigger] fields.subrange(0, k)[j].0);
        assert forall|j: int| 0 <= j < i implies has_key(state, #[trigger] fields[j].0) by {
            assert(fields.subrange(0, k)[j] == fields[j]);
        }
        assert(fields.subrange(0, k)[i] == fields[i]);
    }
}

} // verus!
