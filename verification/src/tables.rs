//! Ordered tables: by key and by name.

use vstd::prelude::*;

use crate::text::text_equal;

verus! {

/// A type whose values serve as keys: a strict total order that agrees with equality.
pub trait TableKey: Copy + Sized {
    spec fn lt(self, other: Self) -> bool;

    proof fn lt_irreflexive(a: Self)
        ensures
            !a.lt(a),
    ;

    proof fn lt_transitive(a: Self, b: Self, c: Self)
        requires
            a.lt(b),
            b.lt(c),
        ensures
            a.lt(c),
    ;

    proof fn lt_total(a: Self, b: Self)
        ensures
            a.lt(b) || b.lt(a) || a == b,
    ;

    fn less(&self, other: &Self) -> (result: bool)
        ensures
            result == self.lt(*other),
    ;
}

impl TableKey for u64 {
    open spec fn lt(self, other: Self) -> bool {
        self < other
    }

    proof fn lt_irreflexive(a: Self) {
    }

    proof fn lt_transitive(a: Self, b: Self, c: Self) {
    }

    proof fn lt_total(a: Self, b: Self) {
    }

    fn less(&self, other: &Self) -> (result: bool) {
        *self < *other
    }
}

/// A map from keys to values, kept in ascending order of the keys.
pub struct Table<K: TableKey, V> {
    entries: Vec<(K, V)>,
}

impl<K: TableKey, V> View for Table<K, V> {
    type V = Map<K, V>;

    closed spec fn view(&self) -> Map<K, V> {
        table_map(self.entries@)
    }
}

/// The map that a sequence of entries stands for.
pub open spec fn table_map<K, V>(entries: Seq<(K, V)>) -> Map<K, V> {
    Map::new(
        |k: K| exists|i: int| 0 <= i < entries.len() && #[trigger] entries[i].0 == k,
        |k: K| entries[choose|i: int| 0 <= i < entries.len() && #[trigger] entries[i].0 == k].1,
    )
}

/// Whether the keys of the entries ascend.
pub open spec fn keys_ascend<K: TableKey, V>(entries: Seq<(K, V)>) -> bool {
    forall|i: int, j: int|
        0 <= i < j < entries.len() ==> (#[trigger] entries[i]).0.lt((#[trigger] entries[j]).0)
}

proof fn lemma_table_entry<K: TableKey, V>(entries: Seq<(K, V)>, at: int)
    requires
        keys_ascend(entries),
        0 <= at < entries.len(),
    ensures
        table_map(entries).dom().contains(entries[at].0),
        table_map(entries)[entries[at].0] == entries[at].1,
{
    let k = entries[at].0;
    let i = choose|i: int| 0 <= i < entries.len() && #[trigger] entries[i].0 == k;
    assert(entries[at].0 == k);
    K::lt_irreflexive(k);
    assert(i == at);
}

impl<K: TableKey, V> Table<K, V> {
    /// Every table keeps its keys in ascending order.
    pub closed spec fn wf(&self) -> bool {
        keys_ascend(self.entries@)
    }

    /// The entries of the table in ascending order of their keys.
    pub closed spec fn listed(&self) -> Seq<(K, V)> {
        self.entries@
    }

    /// What the listing has to do with the map.
    pub proof fn lemma_listed(&self)
        requires
            self.wf(),
        ensures
            keys_ascend(self.listed()),
            self@ == table_map(self.listed()),
            self@.dom().finite(),
            self@.len() == self.listed().len(),
            forall|i: int|
                0 <= i < self.listed().len() ==> self@.dom().contains(
                    (#[trigger] self.listed()[i]).0,
                ) && self@[self.listed()[i].0] == self.listed()[i].1,
    {
        assert forall|i: int| 0 <= i < self.listed().len() implies self@.dom().contains(
            (#[trigger] self.listed()[i]).0,
        ) && self@[self.listed()[i].0] == self.listed()[i].1 by {
            lemma_table_entry(self.entries@, i);
        }
        let keys = self.entries@.map_values(|e: (K, V)| e.0);
        assert(keys.no_duplicates()) by {
            assert forall|i: int, j: int| 0 <= i < j < keys.len() implies keys[i] != keys[j] by {
                assert(self.entries@[i].0.lt(self.entries@[j].0));
                K::lt_irreflexive(keys[i]);
            }
        }
        keys.unique_seq_to_set();
        assert(self@.dom() =~= keys.to_set()) by {
            assert forall|k: K| self@.dom().contains(k) implies keys.to_set().contains(k) by {
                let i = choose|i: int|
                    0 <= i < self.entries@.len() && #[trigger] self.entries@[i].0 == k;
                assert(keys[i] == k);
            }
            assert forall|k: K| keys.to_set().contains(k) implies self@.dom().contains(k) by {
                let i = choose|i: int| 0 <= i < keys.len() && keys[i] == k;
                lemma_table_entry(self.entries@, i);
            }
        }
    }

    /// An empty table.
    pub fn new() -> (table: Self)
        ensures
            table.wf(),
            table@ == Map::<K, V>::empty(),
    {
        let table = Table { entries: Vec::new() };
        assert(table@ =~= Map::<K, V>::empty());
        table
    }

    /// How many keys the table holds.
    pub fn len(&self) -> (count: usize)
        requires
            self.wf(),
        ensures
            count == self@.len(),
            count == self.listed().len(),
    {
        proof {
            self.lemma_listed();
        }
        self.entries.len()
    }

    /// The entry at a position of the listing.
    pub fn entry_at(&self, at: usize) -> (entry: (K, &V))
        requires
            self.wf(),
            at < self.listed().len(),
        ensures
            entry.0 == self.listed()[at as int].0,
            *entry.1 == self.listed()[at as int].1,
    {
        (self.entries[at].0, &self.entries[at].1)
    }

    /// The first position whose key is not below `key`.
    fn lower_bound(&self, key: K) -> (at: usize)
        requires
            self.wf(),
        ensures
            at <= self.entries@.len(),
            forall|i: int| 0 <= i < at ==> (#[trigger] self.entries@[i]).0.lt(key),
            forall|i: int|
                at <= i < self.entries@.len() ==> !(#[trigger] self.entries@[i]).0.lt(key),
    {
        let mut lo: usize = 0;
        let mut hi: usize = self.entries.len();
        while lo < hi
            invariant
                self.wf(),
                lo <= hi <= self.entries@.len(),
                forall|i: int| 0 <= i < lo ==> (#[trigger] self.entries@[i]).0.lt(key),
                forall|i: int|
                    hi <= i < self.entries@.len() ==> !(#[trigger] self.entries@[i]).0.lt(key),
            decreases hi - lo,
        {
            let mid: usize = lo + (hi - lo) / 2;
            let probe = self.entries[mid].0;
            if probe.less(&key) {
                proof {
                    assert forall|i: int| 0 <= i < mid + 1 implies (
                    #[trigger] self.entries@[i]).0.lt(key) by {
                        if i < mid {
                            K::lt_transitive(self.entries@[i].0, probe, key);
                        }
                    }
                }
                lo = mid + 1;
            } else {
                proof {
                    assert forall|i: int| mid <= i < self.entries@.len() implies !(
                    #[trigger] self.entries@[i]).0.lt(key) by {
                        if i > mid && self.entries@[i].0.lt(key) {
                            K::lt_transitive(probe, self.entries@[i].0, key);
                        }
                    }
                }
                hi = mid;
            }
        }
        lo
    }

    /// Whether the key stands at the position where it belongs.
    fn is_key_at(&self, at: usize, key: K) -> (found: bool)
        requires
            self.wf(),
            at <= self.entries@.len(),
            forall|i: int| 0 <= i < at ==> (#[trigger] self.entries@[i]).0.lt(key),
            forall|i: int|
                at <= i < self.entries@.len() ==> !(#[trigger] self.entries@[i]).0.lt(key),
        ensures
            found == (at < self.entries@.len() && self.entries@[at as int].0 == key),
            found == self@.dom().contains(key),
            !found ==> forall|i: int|
                at <= i < self.entries@.len() ==> key.lt((#[trigger] self.entries@[i]).0),
    {
        proof {
            K::lt_irreflexive(key);
            if at < self.entries@.len() {
                K::lt_total(key, self.entries@[at as int].0);
            }
            assert forall|i: int| at < i < self.entries@.len() implies key.lt(
                (#[trigger] self.entries@[i]).0,
            ) by {
                K::lt_total(key, self.entries@[i].0);
                assert(self.entries@[at as int].0.lt(self.entries@[i].0));
            }
        }
        let found: bool = at < self.entries.len() && !key.less(&self.entries[at].0);
        proof {
            if found {
                lemma_table_entry(self.entries@, at as int);
            } else if self@.dom().contains(key) {
                let i = choose|i: int|
                    0 <= i < self.entries@.len() && #[trigger] self.entries@[i].0 == key;
                assert(false);
            }
        }
        found
    }

    /// The value of a key.
    pub fn get(&self, key: K) -> (value: Option<&V>)
        requires
            self.wf(),
        ensures
            match value {
                Some(v) => self@.dom().contains(key) && *v == self@[key],
                None => !self@.dom().contains(key),
            },
    {
        let at: usize = self.lower_bound(key);
        if self.is_key_at(at, key) {
            proof {
                lemma_table_entry(self.entries@, at as int);
            }
            Some(&self.entries[at].1)
        } else {
            None
        }
    }

    /// Whether the table holds a key.
    pub fn contains(&self, key: K) -> (found: bool)
        requires
            self.wf(),
        ensures
            found == self@.dom().contains(key),
    {
        self.get(key).is_some()
    }

    /// Binds a key to a value, whatever it was bound to.
    pub fn insert(&mut self, key: K, value: V)
        requires
            old(self).wf(),
        ensures
            final(self).wf(),
            final(self)@ == old(self)@.insert(key, value),
    {
        let at: usize = self.lower_bound(key);
        let ghost before = self.entries@;
        if self.is_key_at(at, key) {
            self.entries.set(at, (key, value));
            assert(self.entries@ == before.update(at as int, (key, value)));
        } else {
            self.entries.insert(at, (key, value));
            assert(self.entries@ == before.insert(at as int, (key, value)));
        }
        proof {
            let after = self.entries@;
            assert(keys_ascend(after));
            assert(after[at as int] == (key, value));
            assert forall|k: K| #[trigger]
                table_map(after).dom().contains(k) == table_map(before).insert(
                    key,
                    value,
                ).dom().contains(k) by {
                if k == key {
                    assert(after[at as int].0 == k);
                }
                if table_map(after).dom().contains(k) && k != key {
                    let i = choose|i: int| 0 <= i < after.len() && #[trigger] after[i].0 == k;
                    let j = if after.len() == before.len() || i < at {
                        i
                    } else {
                        i - 1
                    };
                    assert(before[j].0 == k);
                }
                if table_map(before).dom().contains(k) && k != key {
                    let i = choose|i: int| 0 <= i < before.len() && #[trigger] before[i].0 == k;
                    let j = if after.len() == before.len() || i < at {
                        i
                    } else {
                        i + 1
                    };
                    assert(after[j].0 == k);
                }
            }
            assert forall|k: K| #[trigger]
                table_map(after).dom().contains(k) implies table_map(after)[k] == table_map(
                before,
            ).insert(key, value)[k] by {
                let i = choose|i: int| 0 <= i < after.len() && #[trigger] after[i].0 == k;
                lemma_table_entry(after, i);
                if k != key {
                    let j = if after.len() == before.len() || i < at {
                        i
                    } else {
                        i - 1
                    };
                    lemma_table_entry(before, j);
                }
            }
            assert(table_map(after) =~= table_map(before).insert(key, value));
        }
    }

    /// Takes a key out of the table.
    pub fn remove(&mut self, key: K) -> (value: Option<V>)
        requires
            old(self).wf(),
        ensures
            final(self).wf(),
            final(self)@ == old(self)@.remove(key),
            match value {
                Some(v) => old(self)@.dom().contains(key) && v == old(self)@[key],
                None => !old(self)@.dom().contains(key),
            },
    {
        let at: usize = self.lower_bound(key);
        let ghost before = self.entries@;
        if self.is_key_at(at, key) {
            proof {
                lemma_table_entry(before, at as int);
            }
            let entry = self.entries.remove(at);
            proof {
                let after = self.entries@;
                assert(after == before.remove(at as int));
                assert(keys_ascend(after));
                assert forall|k: K| #[trigger]
                    table_map(after).dom().contains(k) == table_map(before).remove(
                        key,
                    ).dom().contains(k) by {
                    if table_map(after).dom().contains(k) {
                        let i = choose|i: int| 0 <= i < after.len() && #[trigger] after[i].0 == k;
                        let j = if i < at {
                            i
                        } else {
                            i + 1
                        };
                        assert(before[j].0 == k);
                        assert(before[at as int].0 == key);
                    }
                    if table_map(before).dom().contains(k) && k != key {
                        let i = choose|i: int| 0 <= i < before.len() && #[trigger] before[i].0 == k;
                        let j = if i < at {
                            i
                        } else {
                            i - 1
                        };
                        assert(after[j].0 == k);
                    }
                }
                assert forall|k: K| #[trigger]
                    table_map(after).dom().contains(k) implies table_map(after)[k] == table_map(
                    before,
                ).remove(key)[k] by {
                    let i = choose|i: int| 0 <= i < after.len() && #[trigger] after[i].0 == k;
                    let j = if i < at {
                        i
                    } else {
                        i + 1
                    };
                    lemma_table_entry(after, i);
                    lemma_table_entry(before, j);
                }
                assert(table_map(after) =~= table_map(before).remove(key));
            }
            Some(entry.1)
        } else {
            assert(table_map(before).remove(key) =~= table_map(before));
            None
        }
    }
}

/// A map from numbers to values.
pub type NumberTable<V> = Table<u64, V>;

/// A map from names to values. The order in which names came in is kept and means nothing.
pub struct NameTable<V> {
    entries: Vec<(String, V)>,
}

/// The map that a sequence of named entries stands for.
pub open spec fn name_map<V>(entries: Seq<(String, V)>) -> Map<Seq<char>, V> {
    Map::new(
        |k: Seq<char>| exists|i: int| 0 <= i < entries.len() && #[trigger] entries[i].0@ == k,
        |k: Seq<char>|
            entries[choose|i: int| 0 <= i < entries.len() && #[trigger] entries[i].0@ == k].1,
    )
}

/// Whether no name occurs twice.
pub open spec fn names_differ<V>(entries: Seq<(String, V)>) -> bool {
    forall|i: int, j: int|
        0 <= i < j < entries.len() ==> (#[trigger] entries[i]).0@ != (#[trigger] entries[j]).0@
}

proof fn lemma_name_entry<V>(entries: Seq<(String, V)>, at: int)
    requires
        names_differ(entries),
        0 <= at < entries.len(),
    ensures
        name_map(entries).dom().contains(entries[at].0@),
        name_map(entries)[entries[at].0@] == entries[at].1,
{
    let k = entries[at].0@;
    let i = choose|i: int| 0 <= i < entries.len() && #[trigger] entries[i].0@ == k;
    assert(entries[at].0@ == k);
    assert(i == at);
}

impl<V> View for NameTable<V> {
    type V = Map<Seq<char>, V>;

    closed spec fn view(&self) -> Map<Seq<char>, V> {
        name_map(self.entries@)
    }
}

impl<V> NameTable<V> {
    /// No table holds a name twice.
    pub closed spec fn wf(&self) -> bool {
        names_differ(self.entries@)
    }

    /// The entries of the table.
    pub closed spec fn listed(&self) -> Seq<(String, V)> {
        self.entries@
    }

    /// What the listing has to do with the map.
    pub proof fn lemma_listed(&self)
        requires
            self.wf(),
        ensures
            names_differ(self.listed()),
            self@ == name_map(self.listed()),
            forall|i: int|
                0 <= i < self.listed().len() ==> self@.dom().contains(
                    (#[trigger] self.listed()[i]).0@,
                ) && self@[self.listed()[i].0@] == self.listed()[i].1,
            forall|k: Seq<char>| #[trigger]
                self@.dom().contains(k) ==> exists|i: int|
                    0 <= i < self.listed().len() && #[trigger] self.listed()[i].0@ == k,
    {
        assert forall|i: int| 0 <= i < self.listed().len() implies self@.dom().contains(
            (#[trigger] self.listed()[i]).0@,
        ) && self@[self.listed()[i].0@] == self.listed()[i].1 by {
            lemma_name_entry(self.entries@, i);
        }
        assert forall|k: Seq<char>| #[trigger] self@.dom().contains(k) implies exists|i: int|
            0 <= i < self.listed().len() && #[trigger] self.listed()[i].0@ == k by {
            let i = choose|i: int|
                0 <= i < self.entries@.len() && #[trigger] self.entries@[i].0@ == k;
            assert(self.listed()[i].0@ == k);
        }
    }

    /// An empty table.
    pub fn new() -> (table: Self)
        ensures
            table.wf(),
            table@ == Map::<Seq<char>, V>::empty(),
    {
        let table = NameTable { entries: Vec::new() };
        assert(table@ =~= Map::<Seq<char>, V>::empty());
        table
    }

    /// How many entries the listing has.
    pub fn len(&self) -> (count: usize)
        ensures
            count == self.listed().len(),
    {
        self.entries.len()
    }

    /// The entry at a position of the listing.
    pub fn entry_at(&self, at: usize) -> (entry: (&String, &V))
        requires
            at < self.listed().len(),
        ensures
            *entry.0 == self.listed()[at as int].0,
            *entry.1 == self.listed()[at as int].1,
    {
        (&self.entries[at].0, &self.entries[at].1)
    }

    fn position(&self, name: &str) -> (at: Option<usize>)
        requires
            self.wf(),
        ensures
            match at {
                Some(i) => i < self.entries@.len() && self.entries@[i as int].0@ == name@,
                None => !self@.dom().contains(name@),
            },
    {
        let mut i: usize = 0;
        while i < self.entries.len()
            invariant
                i <= self.entries@.len(),
                forall|k: int| 0 <= k < i ==> (#[trigger] self.entries@[k]).0@ != name@,
            decreases self.entries@.len() - i,
        {
            if text_equal(self.entries[i].0.as_str(), name) {
                return Some(i);
            }
            i = i + 1;
        }
        None
    }

    /// The value of a name.
    pub fn get(&self, name: &str) -> (value: Option<&V>)
        requires
            self.wf(),
        ensures
            match value {
                Some(v) => self@.dom().contains(name@) && *v == self@[name@],
                None => !self@.dom().contains(name@),
            },
    {
        match self.position(name) {
            Some(i) => {
                proof {
                    lemma_name_entry(self.entries@, i as int);
                }
                Some(&self.entries[i].1)
            },
            None => None,
        }
    }

    /// Whether the table holds a name.
    pub fn contains(&self, name: &str) -> (found: bool)
        requires
            self.wf(),
        ensures
            found == self@.dom().contains(name@),
    {
        self.get(name).is_some()
    }

    /// Takes a name out of the table.
    pub fn remove(&mut self, name: &str) -> (value: Option<V>)
        requires
            old(self).wf(),
        ensures
            final(self).wf(),
            final(self)@ == old(self)@.remove(name@),
            match value {
                Some(v) => old(self)@.dom().contains(name@) && v == old(self)@[name@],
                None => !old(self)@.dom().contains(name@),
            },
    {
        let ghost before = self.entries@;
        match self.position(name) {
            Some(at) => {
                proof {
                    lemma_name_entry(before, at as int);
                }
                let entry = self.entries.swap_remove(at);
                proof {
                    let after = self.entries@;
                    let last = before.len() - 1;
                    assert(after == before.update(at as int, before.last()).drop_last());
                    assert forall|i: int, j: int| 0 <= i < j < after.len() implies (
                    #[trigger] after[i]).0@ != (#[trigger] after[j]).0@ by {
                        let p = if i == at {
                            last
                        } else {
                            i
                        };
                        let q = if j == at {
                            last
                        } else {
                            j
                        };
                        assert(after[i] == before[p]);
                        assert(after[j] == before[q]);
                        if p < q {
                            assert(before[p].0@ != before[q].0@);
                        } else {
                            assert(before[q].0@ != before[p].0@);
                        }
                    }
                    assert forall|k: Seq<char>| #[trigger]
                        name_map(after).dom().contains(k) == name_map(before).remove(
                            name@,
                        ).dom().contains(k) by {
                        if name_map(after).dom().contains(k) {
                            let i = choose|i: int|
                                0 <= i < after.len() && #[trigger] after[i].0@ == k;
                            let p = if i == at {
                                last
                            } else {
                                i
                            };
                            assert(before[p].0@ == k);
                            assert(before[at as int].0@ == name@);
                            assert(p != at);
                        }
                        if name_map(before).dom().contains(k) && k != name@ {
                            let i = choose|i: int|
                                0 <= i < before.len() && #[trigger] before[i].0@ == k;
                            let p = if i == last {
                                at as int
                            } else {
                                i
                            };
                            assert(after[p].0@ == k);
                        }
                    }
                    assert forall|k: Seq<char>| #[trigger]
                        name_map(after).dom().contains(k) implies name_map(after)[k] == name_map(
                        before,
                    ).remove(name@)[k] by {
                        let i = choose|i: int| 0 <= i < after.len() && #[trigger] after[i].0@ == k;
                        let p = if i == at {
                            last
                        } else {
                            i
                        };
                        lemma_name_entry(after, i);
                        lemma_name_entry(before, p);
                    }
                    assert(name_map(after) =~= name_map(before).remove(name@));
                }
                Some(entry.1)
            },
            None => {
                assert(self@.remove(name@) =~= self@);
                None
            },
        }
    }

    /// Binds a name to a value, whatever it was bound to.
    pub fn insert(&mut self, name: &str, value: V)
        requires
            old(self).wf(),
        ensures
            final(self).wf(),
            final(self)@ == old(self)@.insert(name@, value),
    {
        let ghost start = self@;
        let _ = self.remove(name);
        let ghost before = self.entries@;
        self.entries.push((name.to_owned(), value));
        proof {
            let after = self.entries@;
            let last = before.len() as int;
            assert(after[last].0@ == name@);
            assert(!name_map(before).dom().contains(name@));
            assert forall|i: int, j: int| 0 <= i < j < after.len() implies (
            #[trigger] after[i]).0@ != (#[trigger] after[j]).0@ by {
                if j == last {
                    if before[i].0@ == name@ {
                        assert(name_map(before).dom().contains(name@));
                    }
                } else {
                    assert(before[i].0@ != before[j].0@);
                }
            }
            assert forall|k: Seq<char>| #[trigger]
                name_map(after).dom().contains(k) == start.insert(name@, value).dom().contains(
                    k,
                ) by {
                if name_map(after).dom().contains(k) && k != name@ {
                    let i = choose|i: int| 0 <= i < after.len() && #[trigger] after[i].0@ == k;
                    assert(before[i].0@ == k);
                    assert(name_map(before).dom().contains(k));
                }
                if start.dom().contains(k) && k != name@ {
                    assert(name_map(before).dom().contains(k));
                    let i = choose|i: int| 0 <= i < before.len() && #[trigger] before[i].0@ == k;
                    assert(after[i].0@ == k);
                }
            }
            assert forall|k: Seq<char>| #[trigger]
                name_map(after).dom().contains(k) implies name_map(after)[k] == start.insert(
                name@,
                value,
            )[k] by {
                let i = choose|i: int| 0 <= i < after.len() && #[trigger] after[i].0@ == k;
                lemma_name_entry(after, i);
                if k != name@ {
                    lemma_name_entry(before, i);
                }
            }
            assert(name_map(after) =~= start.insert(name@, value));
        }
    }
}

} // verus!
