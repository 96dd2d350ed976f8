//! A map from strings to values that keeps its entries in insertion order.
//!
//! Its entries are a sequence of key and value pairs; a key occurs at most
//! once when the map is well formed, and walking the map visits the entries
//! in the order they were first inserted.
use vstd::prelude::*;

verus! {

/// A string-keyed map whose entries keep their insertion order.
#[derive(Debug, Clone)]
pub struct StrMap<V> {
    entries: Vec<(String, V)>,
}

/// Position of the first entry whose key is `k`, or -1.
pub open spec fn key_position<V>(items: Seq<(String, V)>, k: Seq<char>) -> int
    decreases items.len(),
{
    if items.len() == 0 {
        -1
    } else if items[0].0@ == k {
        0
    } else {
        let r = key_position(items.drop_first(), k);
        if r < 0 {
            -1
        } else {
            r + 1
        }
    }
}

pub proof fn lemma_key_position<V>(items: Seq<(String, V)>, k: Seq<char>)
    ensures
        -1 <= key_position(items, k) < items.len(),
        key_position(items, k) >= 0 ==> items[key_position(items, k)].0@ == k,
        key_position(items, k) >= 0 ==> forall|j: int|
            0 <= j < key_position(items, k) ==> items[j].0@ != k,
        key_position(items, k) < 0 ==> forall|j: int| 0 <= j < items.len() ==> items[j].0@ != k,
    decreases items.len(),
{
    if items.len() > 0 && items[0].0@ != k {
        lemma_key_position(items.drop_first(), k);
        assert forall|j: int| 1 <= j < items.len() implies items[j] == items.drop_first()[j
            - 1] by {}
    }
}

/// The entries after inserting `v` under `k`: the entry with key `k` takes
/// the new key and value in its place, or a new entry is appended.
pub open spec fn items_after_insert<V>(items: Seq<(String, V)>, k: String, v: V) -> Seq<(String, V)> {
    let p = key_position(items, k@);
    if p >= 0 {
        items.update(p, (k, v))
    } else {
        items.push((k, v))
    }
}

/// Reading a key after inserting a value under it gives that value, and
/// the other keys keep their values.
pub proof fn lemma_insert_then_get<V>(items: Seq<(String, V)>, k: String, v: V, other: Seq<char>)
    ensures
        key_position(items_after_insert(items, k, v), k@) >= 0,
        items_after_insert(items, k, v)[key_position(items_after_insert(items, k, v), k@)].1 == v,
        other != k@ ==> key_position(items_after_insert(items, k, v), other) == key_position(items, other),
        other != k@ && key_position(items, other) >= 0 ==> items_after_insert(items, k, v)[key_position(
            items,
            other,
        )] == items[key_position(items, other)],
{
    let after = items_after_insert(items, k, v);
    lemma_key_position(items, k@);
    lemma_key_position(after, k@);
    lemma_key_position(items, other);
    lemma_key_position(after, other);
    let p = key_position(items, k@);
    if p >= 0 {
        assert(after[p].0@ == k@);
        assert forall|j: int| 0 <= j < p implies after[j].0@ != k@ by {
            assert(after[j] == items[j]);
        }
        lemma_key_position_is(after, k@, p);
    } else {
        let n = items.len() as int;
        assert forall|j: int| 0 <= j < n implies after[j].0@ != k@ by {
            assert(after[j] == items[j]);
        }
        lemma_key_position_is(after, k@, n);
    }
    if other != k@ {
        let q = key_position(items, other);
        if q >= 0 {
            assert(after[q] == items[q]);
            assert forall|j: int| 0 <= j < q implies after[j].0@ != other by {
                if j == p {
                    assert(after[j].0@ == k@);
                } else {
                    assert(after[j] == items[j]);
                }
            }
            lemma_key_position_is(after, other, q);
        } else {
            assert forall|j: int| 0 <= j < after.len() implies after[j].0@ != other by {
                if j == p || j == items.len() {
                    assert(after[j].0@ == k@);
                } else {
                    assert(after[j] == items[j]);
                }
            }
            lemma_key_position_none(after, other);
        }
    }
}

proof fn lemma_key_position_is<V>(items: Seq<(String, V)>, k: Seq<char>, i: int)
    requires
        0 <= i < items.len(),
        items[i].0@ == k,
        forall|j: int| 0 <= j < i ==> items[j].0@ != k,
    ensures
        key_position(items, k) == i,
    decreases i,
{
    if i > 0 {
        assert forall|j: int| 0 <= j < i - 1 implies items.drop_first()[j].0@ != k by {
            assert(items.drop_first()[j] == items[j + 1]);
        }
        lemma_key_position_is(items.drop_first(), k, i - 1);
    }
}

proof fn lemma_key_position_none<V>(items: Seq<(String, V)>, k: Seq<char>)
    requires
        forall|j: int| 0 <= j < items.len() ==> items[j].0@ != k,
    ensures
        key_position(items, k) == -1,
    decreases items.len(),
{
    if items.len() > 0 {
        assert forall|j: int| 0 <= j < items.len() - 1 implies items.drop_first()[j].0@ != k by {
            assert(items.drop_first()[j] == items[j + 1]);
        }
        lemma_key_position_none(items.drop_first(), k);
    }
}

impl<V> StrMap<V> {
    /// The entries, in insertion order.
    pub closed spec fn items(&self) -> Seq<(String, V)> {
        self.entries@
    }

    /// The keys, in insertion order.
    pub open spec fn keys(&self) -> Seq<Seq<char>> {
        self.items().map_values(|e: (String, V)| e.0@)
    }

    /// No key occurs twice.
    pub open spec fn wf(&self) -> bool {
        forall|i: int, j: int|
            0 <= i < j < self.items().len() ==> #[trigger] self.items()[i].0@
                != #[trigger] self.items()[j].0@
    }

    /// An empty map.
    pub fn new() -> (m: Self)
        ensures
            m.items() == Seq::<(String, V)>::empty(),
            m.wf(),
    {
        StrMap { entries: Vec::new() }
    }

    /// The number of entries.
    pub fn len(&self) -> (n: usize)
        ensures
            n == self.items().len(),
    {
        self.entries.len()
    }

    /// Whether the map has no entry.
    pub fn is_empty(&self) -> (b: bool)
        ensures
            b == (self.items().len() == 0),
    {
        self.entries.len() == 0
    }

    fn position_of(&self, k: &String) -> (r: Option<usize>)
        ensures
            match r {
                Some(i) => i == key_position(self.items(), k@),
                None => key_position(self.items(), k@) == -1,
            },
    {
        proof {
            lemma_key_position(self.items(), k@);
        }
        let mut i: usize = 0;
        while i < self.entries.len()
            invariant
                i <= self.items().len(),
                forall|j: int| 0 <= j < i ==> self.items()[j].0@ != k@,
                -1 <= key_position(self.items(), k@) < self.items().len(),
                key_position(self.items(), k@) >= 0 ==> self.items()[key_position(
                    self.items(),
                    k@,
                )].0@ == k@,
                key_position(self.items(), k@) >= 0 ==> forall|j: int|
                    0 <= j < key_position(self.items(), k@) ==> self.items()[j].0@ != k@,
                key_position(self.items(), k@) < 0 ==> forall|j: int|
                    0 <= j < self.items().len() ==> self.items()[j].0@ != k@,
            decreases self.items().len() - i,
        {
            if self.entries[i].0 == *k {
                return Some(i);
            }
            i = i + 1;
        }
        None
    }

    /// Inserts `v` under `k`: the entry with key `k` keeps its place and
    /// takes the new key and value, or a new entry is appended.
    pub fn insert(&mut self, k: String, v: V)
        ensures
            final(self).items() == items_after_insert(old(self).items(), k, v),
            old(self).wf() ==> final(self).wf(),
    {
        proof {
            lemma_key_position(self.items(), k@);
        }
        match self.position_of(&k) {
            Some(i) => {
                self.entries.set(i, (k, v));
            },
            None => {
                self.entries.push((k, v));
            },
        }
    }

    /// The value under `k`, if any.
    pub fn get(&self, k: &str) -> (r: Option<&V>)
        ensures
            key_position(self.items(), k@) >= 0 ==> r == Some(
                &self.items()[key_position(self.items(), k@)].1,
            ),
            key_position(self.items(), k@) < 0 ==> r is None,
    {
        let key = k.to_owned();
        proof {
            lemma_key_position(self.items(), k@);
        }
        match self.position_of(&key) {
            Some(i) => Some(&self.entries[i].1),
            None => None,
        }
    }

    /// The key of the `i`-th entry.
    pub fn key_at(&self, i: usize) -> (r: &String)
        requires
            i < self.items().len(),
        ensures
            *r == self.items()[i as int].0,
    {
        &self.entries[i].0
    }

    /// The value of the `i`-th entry.
    pub fn value_at(&self, i: usize) -> (r: &V)
        requires
            i < self.items().len(),
        ensures
            *r == self.items()[i as int].1,
    {
        &self.entries[i].1
    }
}

impl StrMap<String> {
    /// A copy of the map, entry for entry.
    pub fn duplicate(&self) -> (r: Self)
        ensures
            r.items() == self.items(),
    {
        let mut entries: Vec<(String, String)> = Vec::new();
        let mut i: usize = 0;
        while i < self.entries.len()
            invariant
                i <= self.items().len(),
                entries@ == self.items().take(i as int),
            decreases self.items().len() - i,
        {
            let k = self.entries[i].0.clone();
            let v = self.entries[i].1.clone();
            entries.push((k, v));
            assert(self.items().take(i + 1) == self.items().take(i as int).push(
                self.items()[i as int],
            ));
            i = i + 1;
        }
        assert(self.items().take(self.items().len() as int) == self.items());
        StrMap { entries }
    }
}

} // verus!
