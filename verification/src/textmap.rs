//! A map keyed by text whose entries are kept in increasing key order, so
//! that walking it visits keys as a `BTreeMap<String, _>` would.
use crate::text::{chars_of, text_eq, text_less, text_lt, lemma_text_lt_total,
    lemma_text_lt_transitive, lemma_text_lt_asymmetric, lemma_text_lt_irreflexive};
use vstd::prelude::*;

verus! {

/// The keys of an entry sequence are in strictly increasing text order.
pub open spec fn keys_increasing<V>(s: Seq<(Seq<char>, V)>) -> bool {
    forall|i: int, j: int| 0 <= i < j < s.len() ==> text_lt(#[trigger] s[i].0, #[trigger] s[j].0)
}

/// The value stored under `k` in an entry sequence.
pub open spec fn lookup<V>(s: Seq<(Seq<char>, V)>, k: Seq<char>) -> Option<V>
    decreases s.len(),
{
    if s.len() == 0 {
        None
    } else if s.last().0 == k {
        Some(s.last().1)
    } else {
        lookup(s.drop_last(), k)
    }
}

/// The entry sequence with `(k, v)` stored: replacing the value of `k` when it
/// is present, inserted at its place in key order otherwise.
pub open spec fn store<V>(s: Seq<(Seq<char>, V)>, k: Seq<char>, v: V) -> Seq<(Seq<char>, V)>
    decreases s.len(),
{
    if s.len() == 0 {
        seq![(k, v)]
    } else if s[0].0 == k {
        seq![(k, v)] + s.drop_first()
    } else if text_lt(k, s[0].0) {
        seq![(k, v)] + s
    } else {
        seq![s[0]] + store(s.drop_first(), k, v)
    }
}

/// Text-keyed map with entries in increasing key order.
#[derive(Debug)]
pub struct TextMap<V> {
    entries: Vec<(String, V)>,
}

impl<V> TextMap<V> {
    /// The entries as (key, value) pairs in increasing key order.
    pub closed spec fn view(&self) -> Seq<(Seq<char>, V)> {
        self.entries@.map_values(|e: (String, V)| (e.0@, e.1))
    }

    /// Keys are kept in strictly increasing text order.
    #[verifier::type_invariant]
    pub open spec fn inv(self) -> bool {
        keys_increasing(self@)
    }

    /// An empty map.
    pub fn new() -> (r: Self)
        ensures
            r@ == Seq::<(Seq<char>, V)>::empty(),
    {
        let r = TextMap { entries: Vec::new() };
        assert(r@ =~= Seq::<(Seq<char>, V)>::empty());
        r
    }

    /// A map made of entries that are already in strictly increasing key
    /// order.
    pub fn from_ordered(entries: Vec<(String, V)>) -> (r: Self)
        requires
            keys_increasing(entries@.map_values(|e: (String, V)| (e.0@, e.1))),
        ensures
            r@ == entries@.map_values(|e: (String, V)| (e.0@, e.1)),
    {
        TextMap { entries }
    }

    /// The number of entries.
    pub fn len(&self) -> (r: usize)
        ensures
            r == self@.len(),
    {
        self.entries.len()
    }

    /// The map has no entry.
    pub fn is_empty(&self) -> (r: bool)
        ensures
            r == (self@.len() == 0),
    {
        self.entries.len() == 0
    }

    /// The key of the `i`-th entry in key order.
    pub fn key_at(&self, i: usize) -> (r: &String)
        requires
            i < self@.len(),
        ensures
            r@ == self@[i as int].0,
    {
        &self.entries[i].0
    }

    /// The value of the `i`-th entry in key order.
    pub fn value_at(&self, i: usize) -> (r: &V)
        requires
            i < self@.len(),
        ensures
            *r == self@[i as int].1,
    {
        &self.entries[i].1
    }

    /// The value stored under `key`.
    pub fn get(&self, key: &str) -> (r: Option<&V>)
        ensures
            match r {
                Some(v) => lookup(self@, key@) == Some(*v),
                None => lookup(self@, key@) is None,
            },
    {
        let mut i: usize = self.entries.len();
        assert(self@.subrange(0, i as int) =~= self@);
        while i > 0
            invariant
                i <= self@.len(),
                self@.len() == self.entries@.len(),
                lookup(self@, key@) == lookup(self@.subrange(0, i as int), key@),
            decreases i,
        {
            let ghost prefix = self@.subrange(0, i as int);
            if text_eq(self.entries[i - 1].0.as_str(), key) {
                assert(prefix.last() == self@[i - 1]);
                return Some(&self.entries[i - 1].1);
            }
            assert(prefix.drop_last() =~= self@.subrange(0, i - 1));
            i = i - 1;
        }
        None
    }

    /// Stores `value` under `key`, giving back the value it replaces.
    pub fn insert(&mut self, key: String, value: V) -> (r: Option<V>)
        ensures
            final(self)@ == store(old(self)@, key@, value),
            r == lookup(old(self)@, key@),
    {
        proof {
            use_type_invariant(&*self);
        }
        let ghost old_view = self@;
        let n = self.entries.len();
        let mut i: usize = 0;
        while i < n && text_less(self.entries[i].0.as_str(), key.as_str())
            invariant
                n == self.entries@.len(),
                self@ == old_view,
                keys_increasing(old_view),
                i <= n,
                forall|j: int| 0 <= j < i ==> text_lt(#[trigger] old_view[j].0, key@),
            decreases n - i,
        {
            i = i + 1;
        }
        proof {
            lemma_store_at(old_view, key@, value, i as int);
            lemma_lookup_at(old_view, key@, i as int);
        }
        let mut entries: Vec<(String, V)> = Vec::new();
        std::mem::swap(&mut entries, &mut self.entries);
        let ghost old_entries = entries@;
        assert(old_view == old_entries.map_values(|e: (String, V)| (e.0@, e.1)));
        proof {
            lemma_store_keeps_order(old_view, key@, value);
        }
        if i < n && text_eq(entries[i].0.as_str(), key.as_str()) {
            let previous = entries.remove(i);
            entries.insert(i, (key, value));
            assert(entries@.map_values(|e: (String, V)| (e.0@, e.1)) =~= old_view.subrange(0, i as int).push((key@, value)) + old_view.subrange(i + 1, n as int));
            self.entries = entries;
            Some(previous.1)
        } else {
            entries.insert(i, (key, value));
            assert(entries@.map_values(|e: (String, V)| (e.0@, e.1)) =~= old_view.subrange(0, i as int).push((key@, value)) + old_view.subrange(i as int, n as int));
            self.entries = entries;
            None
        }
    }
}

/// Where `store` puts the new entry: at the first key not below it.
pub proof fn lemma_store_at<V>(s: Seq<(Seq<char>, V)>, k: Seq<char>, v: V, i: int)
    requires
        keys_increasing(s),
        0 <= i <= s.len(),
        forall|j: int| 0 <= j < i ==> text_lt(#[trigger] s[j].0, k),
        i < s.len() ==> !text_lt(s[i].0, k),
    ensures
        i < s.len() && s[i].0 == k ==> store(s, k, v) == s.subrange(0, i).push((k, v)) + s.subrange(i + 1, s.len() as int),
        !(i < s.len() && s[i].0 == k) ==> store(s, k, v) == s.subrange(0, i).push((k, v)) + s.subrange(i, s.len() as int),
    decreases s.len(),
{
    if s.len() == 0 {
        assert(s.subrange(0, i).push((k, v)) + s.subrange(i, s.len() as int) =~= seq![(k, v)]);
    } else if i == 0 {
        if s[0].0 == k {
            assert(s.subrange(0, 0).push((k, v)) + s.subrange(1, s.len() as int) =~= seq![(k, v)] + s.drop_first());
        } else {
            lemma_text_lt_total(k, s[0].0);
            assert(s.subrange(0, 0).push((k, v)) + s.subrange(0, s.len() as int) =~= seq![(k, v)] + s);
        }
    } else {
        let t = s.drop_first();
        assert forall|a: int, b: int| 0 <= a < b < t.len() implies text_lt(#[trigger] t[a].0, #[trigger] t[b].0) by {
            assert(t[a] == s[a + 1] && t[b] == s[b + 1]);
        }
        assert forall|j: int| 0 <= j < i - 1 implies text_lt(#[trigger] t[j].0, k) by {
            assert(t[j] == s[j + 1]);
        }
        assert(text_lt(s[0].0, k));
        lemma_text_lt_irreflexive(k);
        lemma_text_lt_asymmetric(s[0].0, k);
        lemma_store_at(t, k, v, i - 1);
        if i < s.len() && s[i].0 == k {
            assert(s.subrange(0, i).push((k, v)) + s.subrange(i + 1, s.len() as int) =~= seq![s[0]] + (t.subrange(0, i - 1).push((k, v)) + t.subrange(i, t.len() as int)));
        } else {
            assert(s.subrange(0, i).push((k, v)) + s.subrange(i, s.len() as int) =~= seq![s[0]] + (t.subrange(0, i - 1).push((k, v)) + t.subrange(i - 1, t.len() as int)));
        }
    }
}

/// Where `lookup` finds a key in an ordered entry sequence: at the first
/// key not below it, if that key is equal.
pub proof fn lemma_lookup_at<V>(s: Seq<(Seq<char>, V)>, k: Seq<char>, i: int)
    requires
        keys_increasing(s),
        0 <= i <= s.len(),
        forall|j: int| 0 <= j < i ==> text_lt(#[trigger] s[j].0, k),
        i < s.len() ==> !text_lt(s[i].0, k),
    ensures
        i < s.len() && s[i].0 == k ==> lookup(s, k) == Some(s[i].1),
        !(i < s.len() && s[i].0 == k) ==> lookup(s, k) is None,
{
    lemma_lookup_distinct(s, k);
    if i < s.len() && s[i].0 == k {
    } else {
        assert forall|j: int| 0 <= j < s.len() implies s[j].0 != k by {
            if j < i {
                lemma_text_lt_irreflexive(k);
            } else if j > i {
                assert(text_lt(s[i].0, s[j].0));
                if s[j].0 == k {
                    lemma_text_lt_total(s[i].0, k);
                }
            }
        }
    }
}

/// In a sequence with distinct keys, `lookup` finds exactly the entry
/// holding the key.
pub proof fn lemma_lookup_distinct<V>(s: Seq<(Seq<char>, V)>, k: Seq<char>)
    requires
        keys_increasing(s),
    ensures
        forall|j: int| 0 <= j < s.len() && s[j].0 == k ==> lookup(s, k) == Some(s[j].1),
        (forall|j: int| 0 <= j < s.len() ==> s[j].0 != k) ==> lookup(s, k) is None,
    decreases s.len(),
{
    if s.len() > 0 {
        let t = s.drop_last();
        assert forall|a: int, b: int| 0 <= a < b < t.len() implies text_lt(#[trigger] t[a].0, #[trigger] t[b].0) by {
            assert(t[a] == s[a] && t[b] == s[b]);
        }
        lemma_lookup_distinct(t, k);
        assert forall|j: int| 0 <= j < s.len() && s[j].0 == k implies lookup(s, k) == Some(s[j].1) by {
            if j < s.len() - 1 {
                assert(text_lt(s[j].0, s[s.len() - 1].0));
                lemma_text_lt_irreflexive(k);
                assert(t[j] == s[j]);
            }
        }
        if forall|j: int| 0 <= j < s.len() ==> s[j].0 != k {
            assert forall|j: int| 0 <= j < t.len() implies t[j].0 != k by {
                assert(t[j] == s[j]);
            }
        }
    }
}

/// Storing into an ordered entry sequence keeps it ordered.
pub proof fn lemma_store_keeps_order<V>(s: Seq<(Seq<char>, V)>, k: Seq<char>, v: V)
    requires
        keys_increasing(s),
    ensures
        keys_increasing(store(s, k, v)),
        forall|j: int| 0 <= j < store(s, k, v).len() ==> (#[trigger] store(s, k, v)[j].0 == k || exists|m: int| 0 <= m < s.len() && s[m].0 == store(s, k, v)[j].0),
    decreases s.len(),
{
    let r = store(s, k, v);
    if s.len() == 0 {
    } else if s[0].0 == k {
        assert forall|a: int, b: int| 0 <= a < b < r.len() implies text_lt(#[trigger] r[a].0, #[trigger] r[b].0) by {
            assert(r[a].0 == s[a].0 && r[b].0 == s[b].0);
        }
        assert forall|j: int| 0 <= j < r.len() implies (#[trigger] r[j].0 == k || exists|m: int| 0 <= m < s.len() && s[m].0 == r[j].0) by {
            assert(r[j].0 == s[j].0);
        }
    } else if text_lt(k, s[0].0) {
        assert forall|a: int, b: int| 0 <= a < b < r.len() implies text_lt(#[trigger] r[a].0, #[trigger] r[b].0) by {
            if a == 0 {
                assert(r[b] == s[b - 1]);
                if b - 1 > 0 {
                    lemma_text_lt_transitive(k, s[0].0, s[b - 1].0);
                }
            } else {
                assert(r[a] == s[a - 1] && r[b] == s[b - 1]);
            }
        }
        assert forall|j: int| 0 <= j < r.len() implies (#[trigger] r[j].0 == k || exists|m: int| 0 <= m < s.len() && s[m].0 == r[j].0) by {
            if j > 0 {
                assert(r[j] == s[j - 1]);
            }
        }
    } else {
        let t = s.drop_first();
        assert forall|a: int, b: int| 0 <= a < b < t.len() implies text_lt(#[trigger] t[a].0, #[trigger] t[b].0) by {
            assert(t[a] == s[a + 1] && t[b] == s[b + 1]);
        }
        lemma_store_keeps_order(t, k, v);
        let rt = store(t, k, v);
        lemma_text_lt_total(k, s[0].0);
        assert(text_lt(s[0].0, k));
        assert forall|a: int, b: int| 0 <= a < b < r.len() implies text_lt(#[trigger] r[a].0, #[trigger] r[b].0) by {
            if a == 0 {
                assert(r[b] == rt[b - 1]);
                let x = rt[b - 1].0;
                if x == k {
                } else {
                    let m = choose|m: int| 0 <= m < t.len() && t[m].0 == x;
                    assert(t[m] == s[m + 1]);
                    assert(text_lt(s[0].0, s[m + 1].0));
                }
            } else {
                assert(r[a] == rt[a - 1] && r[b] == rt[b - 1]);
            }
        }
        assert forall|j: int| 0 <= j < r.len() implies (#[trigger] r[j].0 == k || exists|m: int| 0 <= m < s.len() && s[m].0 == r[j].0) by {
            if j == 0 {
                assert(s[0].0 == r[0].0);
            } else {
                assert(r[j] == rt[j - 1]);
                if rt[j - 1].0 != k {
                    let m = choose|m: int| 0 <= m < t.len() && t[m].0 == rt[j - 1].0;
                    assert(s[m + 1] == t[m]);
                }
            }
        }
    }
}

/// The entry sequence has an entry with key `k`.
pub open spec fn has_key<V>(s: Seq<(Seq<char>, V)>, k: Seq<char>) -> bool {
    exists|j: int| 0 <= j < s.len() && #[trigger] s[j].0 == k
}

/// Storing puts the key in, and keeps every key that was there.
pub proof fn lemma_store_contains<V>(s: Seq<(Seq<char>, V)>, k: Seq<char>, v: V)
    ensures
        has_key(store(s, k, v), k),
        forall|m: int| 0 <= m < s.len() ==> has_key(store(s, k, v), #[trigger] s[m].0),
    decreases s.len(),
{
    let r = store(s, k, v);
    if s.len() == 0 {
        assert(r[0].0 == k);
    } else if s[0].0 == k {
        assert(r[0].0 == k);
        assert forall|m: int| 0 <= m < s.len() implies has_key(r, #[trigger] s[m].0) by {
            assert(r[m].0 == s[m].0);
        }
    } else if text_lt(k, s[0].0) {
        assert(r[0].0 == k);
        assert forall|m: int| 0 <= m < s.len() implies has_key(r, #[trigger] s[m].0) by {
            assert(r[m + 1].0 == s[m].0);
        }
    } else {
        let t = s.drop_first();
        lemma_store_contains(t, k, v);
        let rt = store(t, k, v);
        assert(r == seq![s[0]] + rt);
        let j0 = choose|j: int| 0 <= j < rt.len() && rt[j].0 == k;
        assert(r[j0 + 1].0 == k);
        assert forall|m: int| 0 <= m < s.len() implies has_key(r, #[trigger] s[m].0) by {
            if m == 0 {
                assert(r[0].0 == s[0].0);
            } else {
                assert(t[m - 1] == s[m]);
                assert(has_key(rt, t[m - 1].0));
                let j = choose|j: int| 0 <= j < rt.len() && rt[j].0 == t[m - 1].0;
                assert(r[j + 1].0 == s[m].0);
            }
        }
    }
}

/// The entry sequence with every value mapped by `f`.
pub open spec fn map_vals<V, W>(s: Seq<(Seq<char>, V)>, f: spec_fn(V) -> W) -> Seq<(Seq<char>, W)> {
    s.map_values(|e: (Seq<char>, V)| (e.0, f(e.1)))
}

/// Storing and looking up commute with mapping the values.
pub proof fn lemma_map_vals<V, W>(s: Seq<(Seq<char>, V)>, k: Seq<char>, v: V, f: spec_fn(V) -> W)
    ensures
        map_vals(store(s, k, v), f) == store(map_vals(s, f), k, f(v)),
        lookup(map_vals(s, f), k) == match lookup(s, k) {
            Some(x) => Some(f(x)),
            None => None::<W>,
        },
    decreases s.len(),
{
    let ms = map_vals(s, f);
    if s.len() == 0 {
        assert(map_vals(store(s, k, v), f) =~= seq![(k, f(v))]);
    } else {
        let t = s.drop_first();
        lemma_map_vals(t, k, v, f);
        assert(map_vals(t, f) =~= ms.drop_first());
        assert(ms[0] == (s[0].0, f(s[0].1)));
        if s[0].0 == k {
            assert(map_vals(store(s, k, v), f) =~= seq![(k, f(v))] + ms.drop_first());
        } else if text_lt(k, s[0].0) {
            assert(map_vals(store(s, k, v), f) =~= seq![(k, f(v))] + ms);
        } else {
            assert(map_vals(store(s, k, v), f) =~= seq![ms[0]] + map_vals(store(t, k, v), f));
        }
        let u = s.drop_last();
        lemma_map_vals(u, k, v, f);
        assert(map_vals(u, f) =~= ms.drop_last());
    }
}

/// The number of leading keys below `k`.
pub open spec fn rank<V>(s: Seq<(Seq<char>, V)>, k: Seq<char>) -> int
    decreases s.len(),
{
    if s.len() > 0 && text_lt(s[0].0, k) {
        1 + rank(s.drop_first(), k)
    } else {
        0
    }
}

proof fn lemma_rank<V>(s: Seq<(Seq<char>, V)>, k: Seq<char>)
    requires
        keys_increasing(s),
    ensures
        0 <= rank(s, k) <= s.len(),
        forall|j: int| 0 <= j < rank(s, k) ==> text_lt(#[trigger] s[j].0, k),
        rank(s, k) < s.len() ==> !text_lt(s[rank(s, k)].0, k),
    decreases s.len(),
{
    if s.len() > 0 && text_lt(s[0].0, k) {
        let t = s.drop_first();
        assert forall|a: int, b: int| 0 <= a < b < t.len() implies text_lt(#[trigger] t[a].0, #[trigger] t[b].0) by {
            assert(t[a] == s[a + 1] && t[b] == s[b + 1]);
        }
        lemma_rank(t, k);
        assert forall|j: int| 0 <= j < rank(s, k) implies text_lt(#[trigger] s[j].0, k) by {
            if j > 0 {
                assert(s[j] == t[j - 1]);
            }
        }
        if rank(s, k) < s.len() {
            assert(s[rank(s, k)] == t[rank(t, k)]);
        }
    }
}

/// After storing `v` under `k`, looking up `k` gives `v` and looking up any
/// other key gives what it gave before.
pub proof fn lemma_lookup_store<V>(s: Seq<(Seq<char>, V)>, k: Seq<char>, v: V)
    requires
        keys_increasing(s),
    ensures
        lookup(store(s, k, v), k) == Some(v),
        forall|j: Seq<char>| j != k ==> #[trigger] lookup(store(s, k, v), j) == lookup(s, j),
{
    lemma_rank(s, k);
    let i = rank(s, k);
    lemma_store_at(s, k, v, i);
    lemma_store_keeps_order(s, k, v);
    let r = store(s, k, v);
    lemma_lookup_distinct(r, k);
    let replaced = i < s.len() && s[i].0 == k;
    assert(r[i] == (k, v));
    assert forall|j: Seq<char>| j != k implies #[trigger] lookup(r, j) == lookup(s, j) by {
        lemma_lookup_distinct(r, j);
        lemma_lookup_distinct(s, j);
        if exists|m: int| 0 <= m < s.len() && s[m].0 == j {
            let m = choose|m: int| 0 <= m < s.len() && s[m].0 == j;
            if m < i {
                assert(r[m] == s[m]);
            } else if replaced {
                assert(m != i);
                assert(r[m] == s[m]);
            } else {
                assert(r[m + 1] == s[m]);
            }
        } else {
            assert forall|m: int| 0 <= m < r.len() implies r[m].0 != j by {
                if m < i {
                    assert(r[m] == s[m]);
                } else if m > i {
                    if replaced {
                        assert(r[m] == s[m]);
                    } else {
                        assert(r[m] == s[m - 1]);
                    }
                }
            }
        }
    }
}

} // verus!
