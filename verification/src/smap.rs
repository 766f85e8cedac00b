//! Maps keyed by strings, kept in strictly increasing key order so that two
//! maps with the same bindings have the same representation.

use vstd::prelude::*;
use crate::text::{seq_lt, lemma_seq_lt_irreflexive, lemma_seq_lt_total, lemma_seq_lt_transitive, str_eq, str_lt};

verus! {

/// Whether some entry of `s` has key `k`.
pub open spec fn has_key<V>(s: Seq<(Seq<char>, V)>, k: Seq<char>) -> bool {
    exists|i: int| 0 <= i < s.len() && s[i].0 == k
}

/// Index of the first entry of `s` with key `k`.
#[verifier::opaque]
pub open spec fn first_key_index<V>(s: Seq<(Seq<char>, V)>, k: Seq<char>) -> int {
    choose|i: int| 0 <= i < s.len() && s[i].0 == k && forall|j: int| 0 <= j < i ==> s[j].0 != k
}

/// The value bound to `k`: that of the first entry with key `k`.
#[verifier::opaque]
pub open spec fn lookup<V>(s: Seq<(Seq<char>, V)>, k: Seq<char>) -> Option<V> {
    if has_key(s, k) {
        Some(s[first_key_index(s, k)].1)
    } else {
        None
    }
}

/// The value bound to `k` when entries are inserted in order and later
/// entries replace earlier ones.
pub open spec fn last_lookup<V>(s: Seq<(Seq<char>, V)>, k: Seq<char>) -> Option<V> {
    lookup(s.reverse(), k)
}

/// Keys of `s` strictly increase.
pub open spec fn sorted_keys<V>(s: Seq<(Seq<char>, V)>) -> bool {
    forall|i: int, j: int| 0 <= i < j < s.len() ==> seq_lt(s[i].0, s[j].0)
}

pub open spec fn key_seq<V>(s: Seq<(Seq<char>, V)>) -> Seq<Seq<char>> {
    s.map_values(|e: (Seq<char>, V)| e.0)
}

/// Views the keys of string-keyed entries.
pub open spec fn entries_view<V>(s: Seq<(String, V)>) -> Seq<(Seq<char>, V)> {
    s.map_values(|e: (String, V)| (e.0@, e.1))
}

pub proof fn lemma_first_key_index<V>(s: Seq<(Seq<char>, V)>, k: Seq<char>, i: int)
    requires
        0 <= i < s.len(),
        s[i].0 == k,
        forall|j: int| 0 <= j < i ==> s[j].0 != k,
    ensures
        has_key(s, k),
        first_key_index(s, k) == i,
        lookup(s, k) == Some(s[i].1),
{
    reveal(first_key_index);
    reveal(lookup);
    let f = first_key_index(s, k);
    assert(0 <= f < s.len() && s[f].0 == k && forall|j: int| 0 <= j < f ==> s[j].0 != k);
    if f < i {
        assert(s[f].0 != k);
    }
    if i < f {
        assert(s[i].0 != k);
    }
}

pub proof fn lemma_has_key_first<V>(s: Seq<(Seq<char>, V)>, k: Seq<char>)
    requires
        has_key(s, k),
    ensures
        0 <= first_key_index(s, k) < s.len(),
        s[first_key_index(s, k)].0 == k,
        forall|j: int| 0 <= j < first_key_index(s, k) ==> s[j].0 != k,
    decreases s.len(),
{
    reveal(first_key_index);
    if s[0].0 == k {
        lemma_first_key_index(s, k, 0);
    } else {
        let t = s.drop_first();
        let w = choose|i: int| 0 <= i < s.len() && s[i].0 == k;
        assert(t[w - 1].0 == k);
        lemma_has_key_first(t, k);
        let f = first_key_index(t, k);
        assert forall|j: int| 0 <= j < f + 1 implies s[j].0 != k by {
            if j > 0 {
                assert(s[j] == t[j - 1]);
            }
        }
        lemma_first_key_index(s, k, f + 1);
    }
}

pub proof fn lemma_lookup_none<V>(s: Seq<(Seq<char>, V)>, k: Seq<char>)
    requires
        !has_key(s, k),
    ensures
        lookup(s, k) is None,
{
    reveal(lookup);
}

/// A lookup finds a binding exactly where the key occurs.
pub proof fn lemma_lookup_is_some<V>(s: Seq<(Seq<char>, V)>, k: Seq<char>)
    ensures
        lookup(s, k) is Some <==> has_key(s, k),
{
    reveal(lookup);
}

/// Looking up after appending an entry with a new key.
pub proof fn lemma_lookup_push_new<V>(s: Seq<(Seq<char>, V)>, e: (Seq<char>, V), k: Seq<char>)
    requires
        !has_key(s, e.0),
    ensures
        lookup(s.push(e), k) == if e.0 == k { Some(e.1) } else { lookup(s, k) },
{
    let t = s.push(e);
    if e.0 == k {
        assert forall|j: int| 0 <= j < s.len() implies t[j].0 != k by {
            assert(t[j] == s[j]);
        }
        lemma_first_key_index(t, k, s.len() as int);
    } else if has_key(s, k) {
        lemma_has_key_first(s, k);
        let i = first_key_index(s, k);
        assert forall|j: int| 0 <= j < i implies t[j].0 != k by {
            assert(t[j] == s[j]);
        }
        assert(t[i] == s[i]);
        lemma_first_key_index(t, k, i);
        lemma_first_key_index(s, k, i);
    } else {
        assert(!has_key(t, k)) by {
            if has_key(t, k) {
                let w = choose|w: int| 0 <= w < t.len() && t[w].0 == k;
                assert(t[w] == s[w]);
            }
        }
        lemma_lookup_none(t, k);
        lemma_lookup_none(s, k);
    }
}

/// Looking up after appending an entry, when later entries win.
pub proof fn lemma_last_lookup_push<V>(s: Seq<(Seq<char>, V)>, e: (Seq<char>, V), k: Seq<char>)
    ensures
        last_lookup(s.push(e), k) == if e.0 == k { Some(e.1) } else { last_lookup(s, k) },
{
    let r = s.push(e).reverse();
    assert(r =~= seq![e] + s.reverse());
    if e.0 == k {
        lemma_first_key_index(r, k, 0);
    } else if has_key(s.reverse(), k) {
        lemma_has_key_first(s.reverse(), k);
        let i = first_key_index(s.reverse(), k);
        assert forall|j: int| 0 <= j < i + 1 implies r[j].0 != k by {
            if j > 0 {
                assert(r[j] == s.reverse()[j - 1]);
            }
        }
        lemma_first_key_index(r, k, i + 1);
        lemma_first_key_index(s.reverse(), k, i);
    } else {
        assert(!has_key(r, k)) by {
            if has_key(r, k) {
                let w = choose|w: int| 0 <= w < r.len() && r[w].0 == k;
                assert(s.reverse()[w - 1].0 == k);
            }
        }
        lemma_lookup_none(r, k);
        lemma_lookup_none(s.reverse(), k);
    }
}

pub proof fn lemma_last_lookup_empty<V>(k: Seq<char>)
    ensures
        last_lookup(Seq::<(Seq<char>, V)>::empty(), k) is None,
{
    assert(Seq::<(Seq<char>, V)>::empty().reverse() =~= Seq::<(Seq<char>, V)>::empty());
    lemma_lookup_none(Seq::<(Seq<char>, V)>::empty(), k);
}

/// Dropping the first entry of sorted entries removes exactly its key.
pub proof fn lemma_sorted_drop_first<V>(s: Seq<(Seq<char>, V)>, k: Seq<char>)
    requires
        sorted_keys(s),
        s.len() > 0,
    ensures
        sorted_keys(s.drop_first()),
        lookup(s.drop_first(), k) == if k == s[0].0 { None } else { lookup(s, k) },
{
    let t = s.drop_first();
    assert forall|a: int, b: int| 0 <= a < b < t.len() implies seq_lt(t[a].0, t[b].0) by {
        assert(t[a] == s[a + 1] && t[b] == s[b + 1]);
    }
    if k == s[0].0 {
        assert(!has_key(t, k)) by {
            if has_key(t, k) {
                let w = choose|w: int| 0 <= w < t.len() && t[w].0 == k;
                assert(seq_lt(s[0].0, s[w + 1].0));
                lemma_seq_lt_irreflexive(k);
            }
        }
        lemma_lookup_none(t, k);
    } else if has_key(s, k) {
        lemma_has_key_first(s, k);
        let f = first_key_index(s, k);
        assert(f > 0);
        assert forall|j: int| 0 <= j < f - 1 implies t[j].0 != k by {
            assert(t[j] == s[j + 1]);
        }
        lemma_first_key_index(t, k, f - 1);
        lemma_first_key_index(s, k, f);
    } else {
        assert(!has_key(t, k)) by {
            if has_key(t, k) {
                let w = choose|w: int| 0 <= w < t.len() && t[w].0 == k;
                assert(s[w + 1].0 == k);
            }
        }
        lemma_lookup_none(t, k);
        lemma_lookup_none(s, k);
    }
}

/// Sorted entries are determined by their bindings.
pub proof fn lemma_sorted_ext<V>(a: Seq<(Seq<char>, V)>, b: Seq<(Seq<char>, V)>)
    requires
        sorted_keys(a),
        sorted_keys(b),
        forall|k: Seq<char>| #[trigger] lookup(a, k) == lookup(b, k),
    ensures
        a == b,
    decreases a.len() + b.len(),
{
    if a.len() == 0 && b.len() == 0 {
        assert(a =~= b);
    } else if a.len() == 0 {
        lemma_sorted_lookup(b, 0);
        lemma_lookup_none(a, b[0].0);
    } else if b.len() == 0 {
        lemma_sorted_lookup(a, 0);
        lemma_lookup_none(b, a[0].0);
    } else {
        lemma_sorted_lookup(a, 0);
        lemma_sorted_lookup(b, 0);
        let ka = a[0].0;
        let kb = b[0].0;
        assert(has_key(b, ka)) by {
            if !has_key(b, ka) {
                lemma_lookup_none(b, ka);
            }
        }
        assert(has_key(a, kb)) by {
            if !has_key(a, kb) {
                lemma_lookup_none(a, kb);
            }
        }
        let j = choose|j: int| 0 <= j < b.len() && b[j].0 == ka;
        let i = choose|i: int| 0 <= i < a.len() && a[i].0 == kb;
        assert(ka == kb) by {
            if ka != kb {
                assert(i > 0 && j > 0);
                lemma_seq_lt_transitive(ka, kb, ka);
                lemma_seq_lt_irreflexive(ka);
            }
        }
        assert(a[0] == b[0]);
        let ta = a.drop_first();
        let tb = b.drop_first();
        assert forall|k: Seq<char>| #[trigger] lookup(ta, k) == lookup(tb, k) by {
            lemma_sorted_drop_first(a, k);
            lemma_sorted_drop_first(b, k);
        }
        lemma_sorted_drop_first(a, ka);
        lemma_sorted_drop_first(b, ka);
        lemma_sorted_ext(ta, tb);
        assert(a =~= seq![a[0]] + ta);
        assert(b =~= seq![b[0]] + tb);
    }
}

/// In sorted entries, the entry at `i` is the one bound to its key.
pub proof fn lemma_sorted_lookup<V>(s: Seq<(Seq<char>, V)>, i: int)
    requires
        sorted_keys(s),
        0 <= i < s.len(),
    ensures
        lookup(s, s[i].0) == Some(s[i].1),
        first_key_index(s, s[i].0) == i,
{
    assert forall|j: int| 0 <= j < i implies s[j].0 != s[i].0 by {
        lemma_seq_lt_irreflexive(s[i].0);
    }
    lemma_first_key_index(s, s[i].0, i);
}

/// Applies `f` to the value of every entry.
pub open spec fn map_entry_values<V, W>(s: Seq<(Seq<char>, V)>, f: spec_fn(V) -> W) -> Seq<(Seq<char>, W)> {
    s.map_values(|e: (Seq<char>, V)| (e.0, f(e.1)))
}

/// Mapping the values keeps the keys, their order and the lookups.
pub proof fn lemma_map_entry_values<V, W>(s: Seq<(Seq<char>, V)>, f: spec_fn(V) -> W, k: Seq<char>)
    ensures
        has_key(map_entry_values(s, f), k) == has_key(s, k),
        lookup(map_entry_values(s, f), k) == match lookup(s, k) {
            Some(v) => Some(f(v)),
            None => None::<W>,
        },
        sorted_keys(map_entry_values(s, f)) == sorted_keys(s),
{
    let t = map_entry_values(s, f);
    assert forall|j: int| 0 <= j < s.len() implies #[trigger] t[j].0 == s[j].0 by {}
    if has_key(s, k) {
        lemma_has_key_first(s, k);
        let i = first_key_index(s, k);
        assert forall|j: int| 0 <= j < i implies t[j].0 != k by {
            assert(t[j].0 == s[j].0);
        }
        lemma_first_key_index(t, k, i);
        lemma_first_key_index(s, k, i);
    } else {
        assert(!has_key(t, k)) by {
            if has_key(t, k) {
                let w = choose|w: int| 0 <= w < t.len() && t[w].0 == k;
                assert(s[w].0 == k);
            }
        }
        lemma_lookup_none(s, k);
        lemma_lookup_none(t, k);
    }
    if sorted_keys(s) {
        assert forall|a: int, b: int| 0 <= a < b < t.len() implies seq_lt(t[a].0, t[b].0) by {
            assert(t[a].0 == s[a].0);
            assert(t[b].0 == s[b].0);
        }
    }
    if sorted_keys(t) {
        assert forall|a: int, b: int| 0 <= a < b < s.len() implies seq_lt(s[a].0, s[b].0) by {
            assert(t[a].0 == s[a].0);
            assert(t[b].0 == s[b].0);
        }
    }
}

/// Mapping the values commutes with appending and reversing, so the
/// insertion-order lookups map too.
pub proof fn lemma_map_entry_values_last<V, W>(s: Seq<(Seq<char>, V)>, f: spec_fn(V) -> W, k: Seq<char>)
    ensures
        last_lookup(map_entry_values(s, f), k) == match last_lookup(s, k) {
            Some(v) => Some(f(v)),
            None => None::<W>,
        },
{
    assert(map_entry_values(s, f).reverse() =~= map_entry_values(s.reverse(), f));
    lemma_map_entry_values(s.reverse(), f, k);
}

/// A map from strings to values. Maps built with `new` and `insert` keep
/// their keys in strictly increasing order.
#[derive(Clone, Debug, PartialEq, Eq)]
pub struct StrMap<V> {
    entries: Vec<(String, V)>,
}

impl<V> View for StrMap<V> {
    type V = Seq<(Seq<char>, V)>;

    closed spec fn view(&self) -> Seq<(Seq<char>, V)> {
        entries_view(self.entries@)
    }
}

impl<V> StrMap<V> {
    /// The empty map.
    pub fn new() -> (m: Self)
        ensures
            m@ == Seq::<(Seq<char>, V)>::empty(),
            sorted_keys(m@),
    {
        let m = StrMap { entries: Vec::new() };
        assert(entries_view(m.entries@) =~= Seq::<(Seq<char>, V)>::empty());
        m
    }

    /// The entries, in storage order, taken out of the map.
    pub fn into_entries(self) -> (r: Vec<(String, V)>)
        ensures
            entries_view(r@) == self@,
    {
        self.entries
    }

    /// The entries, in storage order.
    pub fn entries(&self) -> (r: &Vec<(String, V)>)
        ensures
            entries_view(r@) == self@,
    {
        &self.entries
    }

    pub fn len(&self) -> (n: usize)
        ensures
            n == self@.len(),
    {
        self.entries.len()
    }

    /// Position of the first entry with key `key`, if any.
    pub fn position(&self, key: &str) -> (r: Option<usize>)
        ensures
            r is Some <==> has_key(self@, key@),
            r matches Some(i) ==> i < self@.len() && self@[i as int].0 == key@ && first_key_index(self@, key@) == i,
            r is Some ==> lookup(self@, key@) == Some(self@[r->0 as int].1),
            r is None ==> lookup(self@, key@) is None,
    {
        let n = self.entries.len();
        let mut i: usize = 0;
        while i < n
            invariant
                n == self.entries@.len(),
                i <= n,
                forall|j: int| 0 <= j < i ==> self@[j].0 != key@,
            decreases n - i,
        {
            if str_eq(self.entries[i].0.as_str(), key) {
                proof {
                    lemma_first_key_index(self@, key@, i as int);
                }
                return Some(i);
            }
            i = i + 1;
        }
        proof {
            lemma_lookup_none(self@, key@);
        }
        None
    }

    pub fn contains_key(&self, key: &str) -> (r: bool)
        ensures
            r == has_key(self@, key@),
    {
        self.position(key).is_some()
    }

    /// The value bound to `key`, if any.
    pub fn get(&self, key: &str) -> (r: Option<&V>)
        ensures
            r is Some <==> has_key(self@, key@),
            r matches Some(v) ==> lookup(self@, key@) == Some(*v),
            r is None ==> lookup(self@, key@) is None,
    {
        match self.position(key) {
            Some(i) => Some(&self.entries[i].1),
            None => None,
        }
    }

    /// Appends an entry without looking for an earlier binding of its key.
    pub fn push_unchecked(&mut self, key: String, value: V)
        ensures
            final(self)@ == old(self)@.push((key@, value)),
    {
        self.entries.push((key, value));
        proof {
            assert(self@ =~= old(self)@.push((key@, value)));
        }
    }

    /// Binds `key` to `value`, replacing an existing binding. Returns whether
    /// `key` was bound before. A new key goes to its place in increasing key
    /// order.
    pub fn insert(&mut self, key: String, value: V) -> (existed: bool)
        ensures
            existed == has_key(old(self)@, key@),
            forall|k: Seq<char>| #[trigger] lookup(final(self)@, k) == if k == key@ { Some(value) } else { lookup(old(self)@, k) },
            forall|k: Seq<char>| #[trigger] has_key(final(self)@, k) == (k == key@ || has_key(old(self)@, k)),
            sorted_keys(old(self)@) ==> sorted_keys(final(self)@),
            final(self)@.len() == old(self)@.len() + if existed { 0int } else { 1int },
    {
        let ghost old_view = self@;
        let ghost kv = key@;
        match self.position(key.as_str()) {
            Some(i) => {
                self.entries.remove(i);
                self.entries.insert(i, (key, value));
                proof {
                    lemma_has_key_first(old_view, kv);
                    assert(self@ =~= old_view.update(i as int, (kv, value)));
                    lemma_replace_first(old_view, i as int, kv, value);
                }
                true
            },
            None => {
                let n = self.entries.len();
                let mut i: usize = 0;
                if n > 0 {
                    assert(old_view[0].0 == self.entries@[0].0@);
                }
                let mut go = n > 0 && str_lt(self.entries[0].0.as_str(), key.as_str());
                while go
                    invariant
                        n == self.entries@.len(),
                        i <= n,
                        self@ == old_view,
                        kv == key@,
                        forall|j: int| 0 <= j < i ==> seq_lt(old_view[j].0, kv),
                        go ==> i < n && seq_lt(old_view[i as int].0, kv),
                        !go ==> i == n || !seq_lt(old_view[i as int].0, kv),
                    decreases n - i,
                {
                    i = i + 1;
                    if i < n {
                        assert(old_view[i as int].0 == self.entries@[i as int].0@);
                    }
                    go = i < n && str_lt(self.entries[i].0.as_str(), key.as_str());
                }
                self.entries.insert(i, (key, value));
                proof {
                    assert(self@ =~= old_view.insert(i as int, (kv, value)));
                    if i < n {
                        lemma_seq_lt_total(old_view[i as int].0, kv);
                    }
                    lemma_insert_fresh(old_view, i as int, kv, value);
                }
                false
            },
        }
    }
}

proof fn lemma_replace_first<V>(s: Seq<(Seq<char>, V)>, i: int, k: Seq<char>, v: V)
    requires
        0 <= i < s.len(),
        s[i].0 == k,
        forall|j: int| 0 <= j < i ==> s[j].0 != k,
    ensures
        sorted_keys(s) ==> sorted_keys(s.update(i, (k, v))),
        forall|x: Seq<char>| #[trigger] lookup(s.update(i, (k, v)), x) == if x == k { Some(v) } else { lookup(s, x) },
        forall|x: Seq<char>| #[trigger] has_key(s.update(i, (k, v)), x) == (x == k || has_key(s, x)),
{
    let nv = s.update(i, (k, v));
    assert forall|j: int| 0 <= j < nv.len() implies nv[j].0 == s[j].0 by {}
    if sorted_keys(s) {
        assert forall|a: int, b: int| 0 <= a < b < nv.len() implies seq_lt(nv[a].0, nv[b].0) by {
            assert(nv[a].0 == s[a].0);
            assert(nv[b].0 == s[b].0);
        }
    }
    assert forall|x: Seq<char>| #[trigger] has_key(nv, x) == (x == k || has_key(s, x)) by {
        if has_key(s, x) {
            let w = choose|w: int| 0 <= w < s.len() && s[w].0 == x;
            assert(nv[w].0 == x);
        }
        if has_key(nv, x) {
            let w = choose|w: int| 0 <= w < nv.len() && nv[w].0 == x;
            assert(s[w].0 == x);
        }
        if x == k {
            assert(s[i].0 == x);
        }
    }
    assert forall|x: Seq<char>| #[trigger] lookup(nv, x) == if x == k { Some(v) } else { lookup(s, x) } by {
        if x == k {
            lemma_first_key_index(nv, x, i);
        } else if has_key(s, x) {
            lemma_has_key_first(s, x);
            let f = first_key_index(s, x);
            lemma_first_key_index(s, x, f);
            lemma_first_key_index(nv, x, f);
        } else {
            lemma_lookup_none(s, x);
            lemma_lookup_none(nv, x);
        }
    }
}

proof fn lemma_insert_fresh<V>(s: Seq<(Seq<char>, V)>, i: int, k: Seq<char>, v: V)
    requires
        0 <= i <= s.len(),
        !has_key(s, k),
        forall|j: int| 0 <= j < i ==> seq_lt(s[j].0, k),
        i < s.len() ==> seq_lt(k, s[i].0) || s[i].0 == k,
    ensures
        sorted_keys(s) ==> sorted_keys(s.insert(i, (k, v))),
        forall|x: Seq<char>| #[trigger] lookup(s.insert(i, (k, v)), x) == if x == k { Some(v) } else { lookup(s, x) },
        forall|x: Seq<char>| #[trigger] has_key(s.insert(i, (k, v)), x) == (x == k || has_key(s, x)),
{
    let nv = s.insert(i, (k, v));
    if i < s.len() {
        assert(s[i].0 != k);
    }
    if sorted_keys(s) {
        assert forall|a: int, b: int| 0 <= a < b < nv.len() implies seq_lt(nv[a].0, nv[b].0) by {
            if b < i {
            } else if a > i {
                assert(nv[a] == s[a - 1]);
                assert(nv[b] == s[b - 1]);
            } else if a == i {
                assert(nv[b] == s[b - 1]);
                if b - 1 > i {
                    lemma_seq_lt_transitive(k, s[i].0, s[b - 1].0);
                }
            } else if b == i {
            } else {
                assert(nv[b] == s[b - 1]);
                lemma_seq_lt_transitive(nv[a].0, k, s[i].0);
                if b - 1 > i {
                    lemma_seq_lt_transitive(nv[a].0, s[i].0, s[b - 1].0);
                }
            }
        }
    }
    assert forall|x: Seq<char>| #[trigger] has_key(nv, x) == (x == k || has_key(s, x)) by {
        if has_key(s, x) {
            let w = choose|w: int| 0 <= w < s.len() && s[w].0 == x;
            if w < i {
                assert(nv[w].0 == x);
            } else {
                assert(nv[w + 1].0 == x);
            }
        }
        if x == k {
            assert(nv[i].0 == x);
        }
        if has_key(nv, x) {
            let w = choose|w: int| 0 <= w < nv.len() && nv[w].0 == x;
            if w < i {
                assert(s[w].0 == x);
            } else if w > i {
                assert(s[w - 1].0 == x);
            }
        }
    }
    assert forall|x: Seq<char>| #[trigger] lookup(nv, x) == if x == k { Some(v) } else { lookup(s, x) } by {
        if x == k {
            assert forall|j: int| 0 <= j < i implies nv[j].0 != x by {
                assert(nv[j] == s[j]);
            }
            lemma_first_key_index(nv, x, i);
        } else if has_key(s, x) {
            lemma_has_key_first(s, x);
            let f = first_key_index(s, x);
            lemma_first_key_index(s, x, f);
            if f < i {
                assert forall|j: int| 0 <= j < f implies nv[j].0 != x by {
                    assert(nv[j] == s[j]);
                }
                lemma_first_key_index(nv, x, f);
            } else {
                assert forall|j: int| 0 <= j < f + 1 implies nv[j].0 != x by {
                    if j < i {
                        assert(nv[j] == s[j]);
                    } else if j > i {
                        assert(nv[j] == s[j - 1]);
                    }
                }
                assert(nv[f + 1] == s[f]);
                lemma_first_key_index(nv, x, f + 1);
            }
        } else {
            assert(!has_key(nv, x));
            lemma_lookup_none(s, x);
            lemma_lookup_none(nv, x);
        }
    }
}

} // verus!
