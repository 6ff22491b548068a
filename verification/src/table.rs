//! A small map from strings to values that keeps the order of insertion.

use crate::order::{
    compare, lemma_text_lt_asymmetric, lemma_text_lt_transitive, text_lt, Order,
};
use vstd::prelude::*;
use vstd::string::*;

verus! {

/// Entry `i` is the first entry under `key`.
pub open spec fn is_first<V>(entries: Seq<(String, V)>, key: Seq<char>, i: int) -> bool {
    &&& 0 <= i < entries.len()
    &&& entries[i].0@ == key
    &&& forall|j: int| 0 <= j < i ==> (#[trigger] entries[j]).0@ != key
}

/// No entry stands under `key`.
pub open spec fn is_absent<V>(entries: Seq<(String, V)>, key: Seq<char>) -> bool {
    forall|j: int| 0 <= j < entries.len() ==> (#[trigger] entries[j]).0@ != key
}

/// The value of the first entry under `key`.
pub open spec fn lookup<V>(entries: Seq<(String, V)>, key: Seq<char>) -> Option<V> {
    if exists|i: int| is_first(entries, key, i) {
        Some(entries[choose|i: int| is_first(entries, key, i)].1)
    } else {
        None
    }
}

/// The first entry under a key is the one that `lookup` finds.
pub proof fn lemma_lookup_first<V>(entries: Seq<(String, V)>, key: Seq<char>, i: int)
    requires
        is_first(entries, key, i),
    ensures
        lookup(entries, key) == Some(entries[i].1),
{
    let c = choose|c: int| is_first(entries, key, c);
    if c < i {
        assert(entries[c].0@ != key);
    } else if i < c {
        assert(entries[i].0@ != key);
    }
}

/// Where no entry stands under a key, `lookup` finds nothing.
pub proof fn lemma_lookup_absent<V>(entries: Seq<(String, V)>, key: Seq<char>)
    requires
        is_absent(entries, key),
    ensures
        lookup(entries, key) is None,
{
    if exists|i: int| is_first(entries, key, i) {
        let c = choose|c: int| is_first(entries, key, c);
        assert(entries[c].0@ != key);
    }
}

/// Where `lookup` finds a value, an entry holds it under the key.
pub proof fn lemma_lookup_some<V>(entries: Seq<(String, V)>, key: Seq<char>) -> (i: int)
    requires
        lookup(entries, key) is Some,
    ensures
        is_first(entries, key, i),
        lookup(entries, key) == Some(entries[i].1),
{
    choose|c: int| is_first(entries, key, c)
}

/// No key stands twice among the entries.
pub open spec fn no_key_twice<V>(entries: Seq<(String, V)>) -> bool {
    forall|i: int, j: int|
        0 <= i < j < entries.len() ==> (#[trigger] entries[i]).0@ != (#[trigger] entries[j]).0@
}

/// A map from strings to values that keeps the order of insertion.  No key
/// stands twice: inserting under a key that is present replaces its value
/// in place.
#[derive(Debug)]
pub struct Table<V> {
    entries: Vec<(String, V)>,
}

impl<V> Table<V> {
    #[verifier::type_invariant]
    spec fn distinct(&self) -> bool {
        no_key_twice(self.entries@)
    }

    /// The entries, in the order of insertion.
    pub closed spec fn pairs_spec(&self) -> Seq<(String, V)> {
        self.entries@
    }

    /// The value under `key`.
    pub open spec fn get_spec(&self, key: Seq<char>) -> Option<V> {
        lookup(self.pairs_spec(), key)
    }

    pub fn new() -> (t: Table<V>)
        ensures
            t.pairs_spec().len() == 0,
            forall|key: Seq<char>| t.get_spec(key) is None,
    {
        let t = Table { entries: Vec::new() };
        assert forall|key: Seq<char>| t.get_spec(key) is None by {
            lemma_lookup_absent(t.entries@, key);
        }
        t
    }

    pub fn len(&self) -> (n: usize)
        ensures
            n == self.pairs_spec().len(),
    {
        self.entries.len()
    }

    pub fn is_empty(&self) -> (b: bool)
        ensures
            b == (self.pairs_spec().len() == 0),
    {
        self.entries.len() == 0
    }

    /// The entries, in the order of insertion; no key stands twice.
    pub fn pairs(&self) -> (list: &Vec<(String, V)>)
        ensures
            list@ == self.pairs_spec(),
            no_key_twice(list@),
    {
        proof {
            use_type_invariant(self);
        }
        &self.entries
    }

    /// The place of the first entry under `key`.
    pub fn position(&self, key: &str) -> (r: Option<usize>)
        ensures
            match r {
                Some(i) => is_first(self.pairs_spec(), key@, i as int),
                None => is_absent(self.pairs_spec(), key@),
            },
    {
        let mut i: usize = 0;
        while i < self.entries.len()
            invariant
                i <= self.entries@.len(),
                forall|j: int| 0 <= j < i ==> (#[trigger] self.entries@[j]).0@ != key@,
            decreases self.entries.len() - i,
        {
            if compare(self.entries[i].0.as_str(), key) == Order::Equal {
                return Some(i);
            }
            i += 1;
        }
        None
    }

    /// The value under `key`, if there is one.
    pub fn get(&self, key: &str) -> (r: Option<&V>)
        ensures
            match r {
                Some(v) => self.get_spec(key@) == Some(*v),
                None => self.get_spec(key@) is None,
            },
    {
        match self.position(key) {
            Some(i) => {
                proof {
                    lemma_lookup_first(self.entries@, key@, i as int);
                }
                Some(&self.entries[i].1)
            },
            None => {
                proof {
                    lemma_lookup_absent(self.entries@, key@);
                }
                None
            },
        }
    }

    pub fn contains_key(&self, key: &str) -> (b: bool)
        ensures
            b == (self.get_spec(key@) is Some),
    {
        self.get(key).is_some()
    }

    /// The table with `value` under `key`.  Every other key keeps its
    /// value, and the entries keep their order; a new key goes to the end.
    pub fn with(self, key: String, value: V) -> (t: Table<V>)
        ensures
            t.get_spec(key@) == Some(value),
            forall|other: Seq<char>| other != key@ ==> t.get_spec(other) == self.get_spec(other),
            t.pairs_spec() == match self.get_spec(key@) {
                Some(_) => self.pairs_spec().update(
                    choose|i: int| is_first(self.pairs_spec(), key@, i),
                    (key, value),
                ),
                None => self.pairs_spec().push((key, value)),
            },
    {
        let ghost before = self.entries@;
        let ghost k = key@;
        proof {
            use_type_invariant(&self);
        }
        let found = self.position(key.as_str());
        let mut entries = self.entries;
        match found {
            Some(i) => {
                proof {
                    lemma_lookup_first(before, k, i as int);
                    let c = choose|c: int| is_first(before, k, c);
                    if c < i {
                        assert(before[c].0@ != k);
                    } else if i < c {
                        assert(before[i as int].0@ != k);
                    }
                }
                entries.set(i, (key, value));
                proof {
                    let after = entries@;
                    assert(is_first(after, k, i as int)) by {
                        assert forall|j: int| 0 <= j < i implies (#[trigger] after[j]).0@ != k by {
                            assert(after[j] == before[j]);
                        }
                    }
                    lemma_lookup_first(after, k, i as int);
                    assert forall|other: Seq<char>| other != k implies lookup(after, other)
                        == lookup(before, other) by {
                        lemma_same_keys(before, after, other);
                    }
                    assert forall|p: int, q: int| 0 <= p < q < after.len() implies (
                    #[trigger] after[p]).0@ != (#[trigger] after[q]).0@ by {
                        assert(before[p].0@ != before[q].0@);
                    }
                }
            },
            None => {
                proof {
                    lemma_lookup_absent(before, k);
                }
                entries.push((key, value));
                proof {
                    let after = entries@;
                    assert(is_first(after, k, before.len() as int)) by {
                        assert forall|j: int| 0 <= j < before.len() implies (#[trigger] after[j]).0@
                            != k by {
                            assert(after[j] == before[j]);
                        }
                    }
                    lemma_lookup_first(after, k, before.len() as int);
                    assert forall|other: Seq<char>| other != k implies lookup(after, other)
                        == lookup(before, other) by {
                        lemma_pushed_key(before, after, other);
                    }
                    assert forall|p: int, q: int| 0 <= p < q < after.len() implies (
                    #[trigger] after[p]).0@ != (#[trigger] after[q]).0@ by {
                        if q < before.len() {
                            assert(before[p].0@ != before[q].0@);
                        } else {
                            assert(after[p] == before[p]);
                        }
                    }
                }
            },
        }
        Table { entries }
    }

    /// Puts `value` under `key`.  Every other key keeps its value, and the
    /// entries keep their order; a new key goes to the end.
    pub fn insert(&mut self, key: String, value: V)
        ensures
            final(self).get_spec(key@) == Some(value),
            forall|other: Seq<char>|
                other != key@ ==> final(self).get_spec(other) == old(self).get_spec(other),
            final(self).pairs_spec() == match old(self).get_spec(key@) {
                Some(_) => old(self).pairs_spec().update(
                    choose|i: int| is_first(old(self).pairs_spec(), key@, i),
                    (key, value),
                ),
                None => old(self).pairs_spec().push((key, value)),
            },
    {
        let mut taken: Table<V> = Table::new();
        core::mem::swap(self, &mut taken);
        *self = taken.with(key, value);
    }
}

/// Two lists with the same keys, and the same values under `key`, agree
/// under `key`.
pub proof fn lemma_same_keys<V>(a: Seq<(String, V)>, b: Seq<(String, V)>, key: Seq<char>)
    requires
        a.len() == b.len(),
        forall|j: int| 0 <= j < a.len() ==> ((#[trigger] a[j]).0@ == key <==> b[j].0@ == key),
        forall|j: int| 0 <= j < a.len() && (#[trigger] a[j]).0@ == key ==> a[j].1 == b[j].1,
    ensures
        lookup(a, key) == lookup(b, key),
{
    if exists|i: int| is_first(a, key, i) {
        let i = choose|i: int| is_first(a, key, i);
        assert(is_first(b, key, i)) by {
            assert forall|j: int| 0 <= j < i implies (#[trigger] b[j]).0@ != key by {
                assert(a[j].0@ != key);
            }
        }
        lemma_lookup_first(a, key, i);
        lemma_lookup_first(b, key, i);
    } else {
        assert forall|j: int| 0 <= j < b.len() implies (#[trigger] b[j]).0@ != key by {
            if b[j].0@ == key {
                assert(a[j].0@ == key);
                lemma_has_first(a, key, j);
            }
        }
        lemma_lookup_absent(b, key);
    }
}

/// A list with an entry under `key` has a first one.
pub proof fn lemma_has_first<V>(a: Seq<(String, V)>, key: Seq<char>, j: int)
    requires
        0 <= j < a.len(),
        a[j].0@ == key,
    ensures
        exists|i: int| is_first(a, key, i),
    decreases j,
{
    if exists|m: int| 0 <= m < j && a[m].0@ == key {
        let m = choose|m: int| 0 <= m < j && a[m].0@ == key;
        lemma_has_first(a, key, m);
    } else {
        assert(is_first(a, key, j));
    }
}

/// An entry pushed under another key changes nothing under `key`.
pub proof fn lemma_pushed_key<V>(a: Seq<(String, V)>, b: Seq<(String, V)>, key: Seq<char>)
    requires
        b.len() == a.len() + 1,
        forall|j: int| 0 <= j < a.len() ==> (#[trigger] b[j]) == a[j],
        b[a.len() as int].0@ != key,
    ensures
        lookup(a, key) == lookup(b, key),
{
    if exists|i: int| is_first(a, key, i) {
        let i = choose|i: int| is_first(a, key, i);
        assert(is_first(b, key, i)) by {
            assert(b[i] == a[i]);
            assert forall|j: int| 0 <= j < i implies (#[trigger] b[j]).0@ != key by {
                assert(b[j] == a[j]);
            }
        }
        lemma_lookup_first(a, key, i);
        lemma_lookup_first(b, key, i);
    } else {
        assert forall|j: int| 0 <= j < b.len() implies (#[trigger] b[j]).0@ != key by {
            if j < a.len() && b[j].0@ == key {
                assert(b[j] == a[j]);
                lemma_has_first(a, key, j);
            }
        }
        lemma_lookup_absent(b, key);
    }
}

/// An entry put in between other entries changes nothing under another
/// key.
pub proof fn lemma_inserted_key<V>(a: Seq<(String, V)>, at: int, entry: (String, V), key: Seq<char>)
    requires
        0 <= at <= a.len(),
        entry.0@ != key,
    ensures
        lookup(a, key) == lookup(a.insert(at, entry), key),
{
    let b = a.insert(at, entry);
    if exists|i: int| is_first(a, key, i) {
        let i = choose|i: int| is_first(a, key, i);
        let m = if i < at {
            i
        } else {
            i + 1
        };
        assert(is_first(b, key, m)) by {
            assert(b[m] == a[i]);
            assert forall|j: int| 0 <= j < m implies (#[trigger] b[j]).0@ != key by {
                if j < at {
                    assert(b[j] == a[j]);
                } else if j > at {
                    assert(b[j] == a[j - 1]);
                }
            }
        }
        lemma_lookup_first(a, key, i);
        lemma_lookup_first(b, key, m);
    } else {
        assert forall|j: int| 0 <= j < b.len() implies (#[trigger] b[j]).0@ != key by {
            if j < at {
                assert(b[j] == a[j]);
                if a[j].0@ == key {
                    lemma_has_first(a, key, j);
                }
            } else if j > at {
                assert(b[j] == a[j - 1]);
                if a[j - 1].0@ == key {
                    lemma_has_first(a, key, j - 1);
                }
            }
        }
        lemma_lookup_absent(b, key);
    }
}

/// The keys of the entries go up in the order of their bytes.
pub open spec fn keys_sorted<V>(entries: Seq<(String, V)>) -> bool {
    forall|i: int, j: int|
        0 <= i < j < entries.len() ==> text_lt((#[trigger] entries[i]).0@, (#[trigger] entries[j]).0@)
}

/// A map from strings to values that keeps its entries in the order of
/// their keys, so that a key is found by halving.
#[derive(Debug)]
pub struct SortedTable<V> {
    entries: Vec<(String, V)>,
}

impl<V> SortedTable<V> {
    #[verifier::type_invariant]
    spec fn sorted(&self) -> bool {
        keys_sorted(self.entries@)
    }

    /// The entries, in the order of their keys.
    pub closed spec fn pairs_spec(&self) -> Seq<(String, V)> {
        self.entries@
    }

    /// The value under `key`.
    pub open spec fn get_spec(&self, key: Seq<char>) -> Option<V> {
        lookup(self.pairs_spec(), key)
    }

    pub fn new() -> (t: SortedTable<V>)
        ensures
            t.pairs_spec().len() == 0,
            forall|key: Seq<char>| t.get_spec(key) is None,
    {
        let t = SortedTable { entries: Vec::new() };
        assert forall|key: Seq<char>| t.get_spec(key) is None by {
            lemma_lookup_absent(t.entries@, key);
        }
        t
    }

    pub fn len(&self) -> (n: usize)
        ensures
            n == self.pairs_spec().len(),
    {
        self.entries.len()
    }

    /// The entries, in the order of their keys.
    pub fn pairs(&self) -> (list: &Vec<(String, V)>)
        ensures
            list@ == self.pairs_spec(),
            keys_sorted(list@),
    {
        proof {
            use_type_invariant(self);
        }
        &self.entries
    }

    /// Looks for `key` by halving: whether an entry stands under it, and
    /// the place of that entry, or else the place where it would stand.
    fn search(&self, key: &str) -> (r: (bool, usize))
        ensures
            r.1 <= self.entries@.len(),
            r.0 ==> r.1 < self.entries@.len() && self.entries@[r.1 as int].0@ == key@,
            forall|j: int| 0 <= j < r.1 ==> text_lt((#[trigger] self.entries@[j]).0@, key@),
            forall|j: int|
                (if r.0 {
                    r.1 + 1
                } else {
                    r.1 as int
                }) <= j < self.entries@.len() ==> text_lt(key@, (#[trigger] self.entries@[j]).0@),
    {
        proof {
            use_type_invariant(self);
        }
        let mut lo: usize = 0;
        let mut hi: usize = self.entries.len();
        while lo < hi
            invariant
                lo <= hi <= self.entries@.len(),
                keys_sorted(self.entries@),
                forall|j: int| 0 <= j < lo ==> text_lt((#[trigger] self.entries@[j]).0@, key@),
                forall|j: int|
                    hi <= j < self.entries@.len() ==> text_lt(
                        key@,
                        (#[trigger] self.entries@[j]).0@,
                    ),
            decreases hi - lo,
        {
            let mid = lo + (hi - lo) / 2;
            let ghost at = self.entries@[mid as int].0@;
            match compare(self.entries[mid].0.as_str(), key) {
                Order::Equal => {
                    assert forall|j: int| 0 <= j < mid implies text_lt(
                        (#[trigger] self.entries@[j]).0@,
                        key@,
                    ) by {
                        assert(text_lt(self.entries@[j].0@, self.entries@[mid as int].0@));
                    }
                    assert forall|j: int| mid + 1 <= j < self.entries@.len() implies text_lt(
                        key@,
                        (#[trigger] self.entries@[j]).0@,
                    ) by {
                        assert(text_lt(self.entries@[mid as int].0@, self.entries@[j].0@));
                    }
                    return (true, mid);
                },
                Order::Less => {
                    assert forall|j: int| 0 <= j < mid + 1 implies text_lt(
                        (#[trigger] self.entries@[j]).0@,
                        key@,
                    ) by {
                        if j < mid {
                            assert(text_lt(self.entries@[j].0@, self.entries@[mid as int].0@));
                            lemma_text_lt_transitive(self.entries@[j].0@, at, key@);
                        }
                    }
                    lo = mid + 1;
                },
                Order::Greater => {
                    assert forall|j: int| mid <= j < self.entries@.len() implies text_lt(
                        key@,
                        (#[trigger] self.entries@[j]).0@,
                    ) by {
                        if j > mid {
                            assert(text_lt(self.entries@[mid as int].0@, self.entries@[j].0@));
                            lemma_text_lt_transitive(key@, at, self.entries@[j].0@);
                        }
                    }
                    hi = mid;
                },
            }
        }
        (false, lo)
    }

    /// The value under `key`, if there is one.
    pub fn get(&self, key: &str) -> (r: Option<&V>)
        ensures
            match r {
                Some(v) => self.get_spec(key@) == Some(*v),
                None => self.get_spec(key@) is None,
            },
    {
        let found = self.search(key);
        let ghost entries = self.entries@;
        if found.0 {
            proof {
                assert forall|j: int| 0 <= j < found.1 implies (#[trigger] entries[j]).0@ != key@ by {
                    lemma_text_lt_asymmetric(entries[j].0@, key@);
                }
                lemma_lookup_first(entries, key@, found.1 as int);
            }
            Some(&self.entries[found.1].1)
        } else {
            proof {
                assert forall|j: int| 0 <= j < entries.len() implies (#[trigger] entries[j]).0@
                    != key@ by {
                    if j < found.1 {
                        lemma_text_lt_asymmetric(entries[j].0@, key@);
                    } else {
                        lemma_text_lt_asymmetric(key@, entries[j].0@);
                    }
                }
                lemma_lookup_absent(entries, key@);
            }
            None
        }
    }

    /// The table with `value` under `key`.  Every other key keeps its
    /// value.
    pub fn with(self, key: String, value: V) -> (t: SortedTable<V>)
        ensures
            t.get_spec(key@) == Some(value),
            forall|other: Seq<char>| other != key@ ==> t.get_spec(other) == self.get_spec(other),
            t.pairs_spec().len() == self.pairs_spec().len() + if self.get_spec(key@) is Some {
                0int
            } else {
                1int
            },
    {
        let found = self.search(key.as_str());
        let ghost before = self.entries@;
        let ghost k = key@;
        proof {
            use_type_invariant(&self);
        }
        let mut entries = self.entries;
        if found.0 {
            let at = found.1;
            proof {
                assert forall|j: int| 0 <= j < at implies (#[trigger] before[j]).0@ != k by {
                    lemma_text_lt_asymmetric(before[j].0@, k);
                }
                lemma_lookup_first(before, k, at as int);
            }
            entries.set(at, (key, value));
            proof {
                let after = entries@;
                assert(is_first(after, k, at as int)) by {
                    assert forall|j: int| 0 <= j < at implies (#[trigger] after[j]).0@ != k by {
                        assert(after[j] == before[j]);
                    }
                }
                lemma_lookup_first(after, k, at as int);
                assert forall|other: Seq<char>| other != k implies lookup(after, other) == lookup(
                    before,
                    other,
                ) by {
                    lemma_same_keys(before, after, other);
                }
                assert forall|i: int, j: int| 0 <= i < j < after.len() implies text_lt(
                    (#[trigger] after[i]).0@,
                    (#[trigger] after[j]).0@,
                ) by {
                    assert(text_lt(before[i].0@, before[j].0@));
                }
            }
        } else {
            let at = found.1;
            proof {
                assert forall|j: int| 0 <= j < before.len() implies (#[trigger] before[j]).0@
                    != k by {
                    if j < at {
                        lemma_text_lt_asymmetric(before[j].0@, k);
                    } else {
                        lemma_text_lt_asymmetric(k, before[j].0@);
                    }
                }
                lemma_lookup_absent(before, k);
            }
            let ghost entry = (key, value);
            entries.insert(at, (key, value));
            proof {
                let after = entries@;
                assert(after == before.insert(at as int, entry));
                assert(is_first(after, k, at as int)) by {
                    assert forall|j: int| 0 <= j < at implies (#[trigger] after[j]).0@ != k by {
                        assert(after[j] == before[j]);
                        lemma_text_lt_asymmetric(before[j].0@, k);
                    }
                }
                lemma_lookup_first(after, k, at as int);
                assert forall|other: Seq<char>| other != k implies lookup(after, other) == lookup(
                    before,
                    other,
                ) by {
                    lemma_inserted_key(before, at as int, entry, other);
                }
                assert forall|i: int, j: int| 0 <= i < j < after.len() implies text_lt(
                    (#[trigger] after[i]).0@,
                    (#[trigger] after[j]).0@,
                ) by {
                    if j < at {
                        assert(text_lt(before[i].0@, before[j].0@));
                    } else if j == at {
                        assert(after[i] == before[i]);
                    } else if i < at {
                        assert(after[j] == before[j - 1]);
                        assert(after[i] == before[i]);
                        if j - 1 > i {
                            assert(text_lt(before[i].0@, before[j - 1].0@));
                        } else {
                            lemma_text_lt_transitive(before[i].0@, k, before[j - 1].0@);
                        }
                    } else if i == at {
                        assert(after[j] == before[j - 1]);
                    } else {
                        assert(after[i] == before[i - 1]);
                        assert(after[j] == before[j - 1]);
                        assert(text_lt(before[i - 1].0@, before[j - 1].0@));
                    }
                }
            }
        }
        SortedTable { entries }
    }
}

/// The text of an optional string.
pub open spec fn opt_text(s: Option<String>) -> Option<Seq<char>> {
    match s {
        Some(t) => Some(t@),
        None => None,
    }
}

/// The names and texts of a list of pairs of strings.
pub open spec fn pair_texts(list: Seq<(String, String)>) -> Seq<(Seq<char>, Seq<char>)> {
    Seq::new(list.len(), |i: int| (list[i].0@, list[i].1@))
}

/// Pair `i` is the first pair under `key`.
pub open spec fn is_first_pair<T>(list: Seq<(Seq<char>, T)>, key: Seq<char>, i: int) -> bool {
    &&& 0 <= i < list.len()
    &&& list[i].0 == key
    &&& forall|j: int| 0 <= j < i ==> (#[trigger] list[j]).0 != key
}

/// What the first pair under `key` holds.
pub open spec fn pair_lookup<T>(list: Seq<(Seq<char>, T)>, key: Seq<char>) -> Option<T> {
    if exists|i: int| is_first_pair(list, key, i) {
        Some(list[choose|i: int| is_first_pair(list, key, i)].1)
    } else {
        None
    }
}

/// The first pair under a key is the one that `pair_lookup` finds.
pub proof fn lemma_pair_first<T>(list: Seq<(Seq<char>, T)>, key: Seq<char>, i: int)
    requires
        is_first_pair(list, key, i),
    ensures
        pair_lookup(list, key) == Some(list[i].1),
{
    let c = choose|c: int| is_first_pair(list, key, c);
    if c < i {
        assert(list[c].0 != key);
    } else if i < c {
        assert(list[i].0 != key);
    }
}

/// Where no pair stands under a key, `pair_lookup` finds nothing.
pub proof fn lemma_pair_absent<T>(list: Seq<(Seq<char>, T)>, key: Seq<char>)
    requires
        forall|j: int| 0 <= j < list.len() ==> (#[trigger] list[j]).0 != key,
    ensures
        pair_lookup(list, key) is None,
{
    if exists|i: int| is_first_pair(list, key, i) {
        let c = choose|c: int| is_first_pair(list, key, c);
        assert(list[c].0 != key);
    }
}

/// Looking a key up among pairs of strings finds the text that looking it
/// up among their texts finds.
pub proof fn lemma_pair_lookup(list: Seq<(String, String)>, key: Seq<char>)
    ensures
        pair_lookup(pair_texts(list), key) == match lookup(list, key) {
            Some(s) => Some(s@),
            None => None,
        },
{
    let texts = pair_texts(list);
    if exists|i: int| is_first(list, key, i) {
        let i = choose|i: int| is_first(list, key, i);
        assert(is_first_pair(texts, key, i)) by {
            assert forall|j: int| 0 <= j < i implies (#[trigger] texts[j]).0 != key by {
                assert(list[j].0@ != key);
            }
        }
        let c = choose|c: int| is_first_pair(texts, key, c);
        if c < i {
            assert(texts[c].0 != key);
        } else if i < c {
            assert(texts[i].0 != key);
        }
    } else {
        if exists|i: int| is_first_pair(texts, key, i) {
            let c = choose|c: int| is_first_pair(texts, key, c);
            assert(list[c].0@ == key);
            lemma_has_first(list, key, c);
        }
    }
}

} // verus!
