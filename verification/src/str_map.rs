//! A map from strings to values, kept as a list in which no key stands twice.

use crate::text::same_text;
use std::sync::Arc;
use vstd::prelude::*;

verus! {

/// A map with string keys. Its view is the mathematical map from the characters of
/// each key to its value.
#[derive(Debug)]
pub struct StrMap<V> {
    entries: Vec<(Arc<str>, V)>,
}

/// The key of the entry at position `i`.
spec fn key_at<V>(entries: Seq<(Arc<str>, V)>, i: int) -> Seq<char> {
    (*entries[i].0)@
}

/// The entry at position `i` has the key `key`.
spec fn is_at<V>(entries: Seq<(Arc<str>, V)>, key: Seq<char>, i: int) -> bool {
    0 <= i < entries.len() && key_at(entries, i) == key
}

spec fn distinct<V>(entries: Seq<(Arc<str>, V)>) -> bool {
    forall|i: int, j: int|
        0 <= i < j < entries.len() ==> #[trigger] key_at(entries, i) != #[trigger] key_at(
            entries,
            j,
        )
}

/// The map that a list of entries stands for.
spec fn map_of<V>(entries: Seq<(Arc<str>, V)>) -> Map<Seq<char>, V> {
    Map::new(
        |key: Seq<char>| exists|i: int| is_at(entries, key, i),
        |key: Seq<char>| entries[choose|i: int| is_at(entries, key, i)].1,
    )
}

proof fn lemma_entry<V>(entries: Seq<(Arc<str>, V)>, i: int)
    requires
        distinct(entries),
        0 <= i < entries.len(),
    ensures
        map_of(entries).contains_key(key_at(entries, i)),
        map_of(entries)[key_at(entries, i)] == entries[i].1,
{
    let key = key_at(entries, i);
    assert(is_at(entries, key, i));
    let j = choose|j: int| is_at(entries, key, j);
    assert(is_at(entries, key, j));
    assert(key_at(entries, i) == key_at(entries, j));
}

proof fn lemma_push<V>(entries: Seq<(Arc<str>, V)>, key: Arc<str>, value: V)
    requires
        distinct(entries),
        !map_of(entries).contains_key((*key)@),
    ensures
        distinct(entries.push((key, value))),
        map_of(entries.push((key, value))) == map_of(entries).insert((*key)@, value),
{
    let pushed = entries.push((key, value));
    assert forall|i: int| 0 <= i < entries.len() implies #[trigger] key_at(pushed, i) == key_at(
        entries,
        i,
    ) && key_at(entries, i) != (*key)@ by {
        lemma_entry(entries, i);
    }
    assert(key_at(pushed, entries.len() as int) == (*key)@);
    assert forall|k: Seq<char>| #[trigger]
        map_of(pushed).contains_key(k) <==> map_of(entries).insert((*key)@, value).contains_key(
            k,
        ) by {
        if map_of(pushed).contains_key(k) {
            let i = choose|i: int| is_at(pushed, k, i);
            if i < entries.len() {
                assert(is_at(entries, k, i));
            }
        }
        if map_of(entries).contains_key(k) {
            let i = choose|i: int| is_at(entries, k, i);
            assert(is_at(pushed, k, i));
        }
        if k == (*key)@ {
            assert(is_at(pushed, k, entries.len() as int));
        }
    }
    assert forall|k: Seq<char>| #[trigger] map_of(pushed).contains_key(k) implies map_of(pushed)[k]
        == map_of(entries).insert((*key)@, value)[k] by {
        let i = choose|i: int| is_at(pushed, k, i);
        lemma_entry(pushed, i);
        if i < entries.len() {
            lemma_entry(entries, i);
        }
    }
    assert(map_of(pushed) =~= map_of(entries).insert((*key)@, value));
}

proof fn lemma_update<V>(entries: Seq<(Arc<str>, V)>, i: int, value: V)
    requires
        distinct(entries),
        0 <= i < entries.len(),
    ensures
        distinct(entries.update(i, (entries[i].0, value))),
        map_of(entries.update(i, (entries[i].0, value))) == map_of(entries).insert(
            key_at(entries, i),
            value,
        ),
{
    let updated = entries.update(i, (entries[i].0, value));
    let key = key_at(entries, i);
    assert forall|j: int| 0 <= j < entries.len() implies #[trigger] key_at(updated, j) == key_at(
        entries,
        j,
    ) by {}
    assert forall|k: Seq<char>| #[trigger]
        map_of(updated).contains_key(k) <==> map_of(entries).insert(key, value).contains_key(k) by {
        lemma_entry(entries, i);
        if map_of(updated).contains_key(k) {
            let j = choose|j: int| is_at(updated, k, j);
            assert(is_at(entries, k, j));
        }
        if map_of(entries).contains_key(k) {
            let j = choose|j: int| is_at(entries, k, j);
            assert(is_at(updated, k, j));
        }
    }
    assert forall|k: Seq<char>| #[trigger]
        map_of(updated).contains_key(k) implies map_of(updated)[k] == map_of(entries).insert(
        key,
        value,
    )[k] by {
        let j = choose|j: int| is_at(updated, k, j);
        lemma_entry(updated, j);
        lemma_entry(entries, j);
    }
    assert(map_of(updated) =~= map_of(entries).insert(key, value));
}

proof fn lemma_remove<V>(entries: Seq<(Arc<str>, V)>, i: int)
    requires
        distinct(entries),
        0 <= i < entries.len(),
    ensures
        distinct(entries.remove(i)),
        map_of(entries.remove(i)) == map_of(entries).remove(key_at(entries, i)),
{
    let removed = entries.remove(i);
    let key = key_at(entries, i);
    assert forall|j: int| 0 <= j < removed.len() implies #[trigger] key_at(removed, j) == key_at(
        entries,
        if j < i {
            j
        } else {
            j + 1
        },
    ) by {}
    assert forall|k: Seq<char>| #[trigger]
        map_of(removed).contains_key(k) <==> map_of(entries).remove(key).contains_key(k) by {
        if map_of(removed).contains_key(k) {
            let j = choose|j: int| is_at(removed, k, j);
            let j2 = if j < i {
                j
            } else {
                j + 1
            };
            assert(is_at(entries, k, j2));
            assert(key_at(entries, j2) != key_at(entries, i));
        }
        if map_of(entries).remove(key).contains_key(k) {
            let j = choose|j: int| is_at(entries, k, j);
            assert(j != i);
            assert(is_at(
                removed,
                k,
                if j < i {
                    j
                } else {
                    j - 1
                },
            ));
        }
    }
    assert forall|k: Seq<char>| #[trigger]
        map_of(removed).contains_key(k) implies map_of(removed)[k] == map_of(entries).remove(
        key,
    )[k] by {
        let j = choose|j: int| is_at(removed, k, j);
        lemma_entry(removed, j);
        lemma_entry(
            entries,
            if j < i {
                j
            } else {
                j + 1
            },
        );
    }
    assert(map_of(removed) =~= map_of(entries).remove(key));
}

impl<V> View for StrMap<V> {
    type V = Map<Seq<char>, V>;

    closed spec fn view(&self) -> Map<Seq<char>, V> {
        map_of(self.entries@)
    }
}

impl<V> StrMap<V> {
    #[verifier::type_invariant]
    spec fn no_key_twice(self) -> bool {
        distinct(self.entries@)
    }

    /// The keys in the order in which [`StrMap::entry_at`] hands the entries out.
    pub closed spec fn key_order(self) -> Seq<Seq<char>> {
        Seq::new(self.entries@.len(), |i: int| key_at(self.entries@, i))
    }

    /// The empty map.
    pub fn new() -> (map: Self)
        ensures
            map@ == Map::<Seq<char>, V>::empty(),
            map.key_order() == Seq::<Seq<char>>::empty(),
    {
        let map = StrMap { entries: Vec::new() };
        assert(map@ =~= Map::<Seq<char>, V>::empty());
        map
    }

    /// The number of entries.
    pub fn len(&self) -> (n: usize)
        ensures
            n == self.key_order().len(),
            self.key_order().no_duplicates(),
            self.key_order().to_set() == self@.dom(),
    {
        proof {
            use_type_invariant(self);
            let entries = self.entries@;
            let order = self.key_order();
            assert forall|i: int, j: int|
                0 <= i < order.len() && 0 <= j < order.len() && i != j implies order[i]
                != order[j] by {
                assert(key_at(entries, i) != key_at(entries, j));
            }
            assert forall|k: Seq<char>| #[trigger] order.to_set().contains(k)
                <==> self@.dom().contains(k) by {
                if order.contains(k) {
                    let i = choose|i: int| 0 <= i < order.len() && order[i] == k;
                    lemma_entry(entries, i);
                }
                if self@.contains_key(k) {
                    let i = choose|i: int| is_at(entries, k, i);
                    assert(order[i] == k);
                }
            }
            assert(order.to_set() =~= self@.dom());
        }
        self.entries.len()
    }

    /// The entry at position `i`.
    pub fn entry_at(&self, i: usize) -> (entry: (&Arc<str>, &V))
        requires
            i < self.key_order().len(),
        ensures
            (**entry.0)@ == self.key_order()[i as int],
            self@.contains_key((**entry.0)@),
            *entry.1 == self@[(**entry.0)@],
    {
        proof {
            use_type_invariant(self);
            lemma_entry(self.entries@, i as int);
        }
        (&self.entries[i].0, &self.entries[i].1)
    }

    /// The position of `key`, if the map holds it.
    fn position(&self, key: &str) -> (position: Option<usize>)
        ensures
            position is Some <==> self@.contains_key(key@),
            position matches Some(i) ==> is_at(self.entries@, key@, i as int),
    {
        let mut i: usize = 0;
        while i < self.entries.len()
            invariant
                i <= self.entries@.len(),
                forall|j: int| 0 <= j < i ==> #[trigger] key_at(self.entries@, j) != key@,
            decreases self.entries@.len() - i,
        {
            if same_text(&self.entries[i].0, key) {
                proof {
                    assert(is_at(self.entries@, key@, i as int));
                }
                return Some(i);
            }
            assert(key_at(self.entries@, i as int) != key@);
            i += 1;
        }
        None
    }

    /// The value under `key`.
    pub fn get(&self, key: &str) -> (value: Option<&V>)
        ensures
            value == (if self@.contains_key(key@) {
                Some(&self@[key@])
            } else {
                None
            }),
    {
        match self.position(key) {
            Some(i) => {
                proof {
                    use_type_invariant(self);
                    lemma_entry(self.entries@, i as int);
                }
                Some(&self.entries[i].1)
            },
            None => None,
        }
    }

    /// Whether there is a value under `key`.
    pub fn contains_key(&self, key: &str) -> (found: bool)
        ensures
            found == self@.contains_key(key@),
    {
        self.position(key).is_some()
    }

    /// Puts `value` under `key` and hands back the value that stood there.
    pub fn insert(&mut self, key: Arc<str>, value: V) -> (previous: Option<V>)
        ensures
            final(self)@ == old(self)@.insert((*key)@, value),
            previous == (if old(self)@.contains_key((*key)@) {
                Some(old(self)@[(*key)@])
            } else {
                None
            }),
    {
        proof {
            use_type_invariant(&*self);
        }
        let position = self.position(&key);
        let mut entries: Vec<(Arc<str>, V)> = Vec::new();
        std::mem::swap(&mut entries, &mut self.entries);
        let ghost before = entries@;
        let previous = match position {
            Some(i) => {
                proof {
                    lemma_entry(before, i as int);
                    lemma_update(before, i as int, value);
                }
                let (kept, previous) = entries.remove(i);
                entries.insert(i, (kept, value));
                assert(entries@ =~= before.update(i as int, (before[i as int].0, value)));
                Some(previous)
            },
            None => {
                proof {
                    lemma_push(before, key, value);
                }
                entries.push((key, value));
                None
            },
        };
        self.entries = entries;
        previous
    }

    /// Takes the entry under `key` out and hands its value back.
    pub fn remove(&mut self, key: &str) -> (previous: Option<V>)
        ensures
            final(self)@ == old(self)@.remove(key@),
            previous == (if old(self)@.contains_key(key@) {
                Some(old(self)@[key@])
            } else {
                None
            }),
    {
        proof {
            use_type_invariant(&*self);
        }
        match self.position(key) {
            Some(i) => {
                let mut entries: Vec<(Arc<str>, V)> = Vec::new();
                std::mem::swap(&mut entries, &mut self.entries);
                proof {
                    lemma_entry(entries@, i as int);
                    lemma_remove(entries@, i as int);
                }
                let (_, previous) = entries.remove(i);
                self.entries = entries;
                Some(previous)
            },
            None => {
                assert(self@.remove(key@) =~= self@);
                None
            },
        }
    }
}

/// What is put under a key is found under it, what stood there is handed back, and every
/// other key has what it had.
pub proof fn law_what_is_put_is_found<V>(
    map: &mut StrMap<V>,
    key: Arc<str>,
    value: V,
    previous: Option<V>,
    before: StrMap<V>,
    after: StrMap<V>,
    asked: &str,
    had: Option<&V>,
    has: Option<&V>,
    found: bool,
)
    requires
        call_ensures(StrMap::<V>::insert, (map, key, value), previous),
        before@ == old(map)@,
        after@ == final(map)@,
        call_ensures(StrMap::<V>::get, (&before, asked), had),
        call_ensures(StrMap::<V>::get, (&after, asked), has),
        call_ensures(StrMap::<V>::contains_key, (&after, asked), found),
    ensures
        if asked@ == (*key)@ {
            &&& has == Some(&value)
            &&& match (previous, had) {
                (None, None) => true,
                (Some(previous), Some(had)) => previous == *had,
                _ => false,
            }
        } else {
            has == had
        },
        found <==> has is Some,
{
}

/// What is taken out is handed back and not found any more, and every other key has what it
/// had.
pub proof fn law_what_is_taken_out_is_gone<V>(
    map: &mut StrMap<V>,
    key: &str,
    previous: Option<V>,
    before: StrMap<V>,
    after: StrMap<V>,
    asked: &str,
    had: Option<&V>,
    has: Option<&V>,
)
    requires
        call_ensures(StrMap::<V>::remove, (map, key), previous),
        before@ == old(map)@,
        after@ == final(map)@,
        call_ensures(StrMap::<V>::get, (&before, asked), had),
        call_ensures(StrMap::<V>::get, (&after, asked), has),
    ensures
        if asked@ == key@ {
            &&& has is None
            &&& match (previous, had) {
                (None, None) => true,
                (Some(previous), Some(had)) => previous == *had,
                _ => false,
            }
        } else {
            has == had
        },
{
}

/// The entries are handed out with the values that are found under their keys, no key twice,
/// and all of them: the number of entries is the number of keys. A new map has none.
pub proof fn law_entries<V>(
    map: StrMap<V>,
    n: usize,
    i: usize,
    j: usize,
    one: (&Arc<str>, &V),
    other: (&Arc<str>, &V),
    key: &str,
    found: Option<&V>,
    fresh: StrMap<V>,
)
    requires
        call_ensures(StrMap::<V>::len, (&map,), n),
        i < n,
        j < n,
        call_ensures(StrMap::<V>::entry_at, (&map, i), one),
        call_ensures(StrMap::<V>::entry_at, (&map, j), other),
        call_ensures(StrMap::<V>::get, (&map, key), found),
        call_ensures(StrMap::<V>::new, (), fresh),
    ensures
        key@ == (**one.0)@ ==> found == Some(one.1),
        i != j ==> (**one.0)@ != (**other.0)@,
        n == map@.dom().len(),
        forall|key: Seq<char>| !#[trigger] fresh@.contains_key(key),
{
    map.key_order().unique_seq_to_set();
}

} // verus!
