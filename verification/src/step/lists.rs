//! Lists that are found by a number.
use std::collections::HashMap;
use vstd::prelude::*;

use crate::sequences::lemma_push_contains;

verus! {

/// The values that entries give to a key, in order.
pub open spec fn listed<T>(entries: Seq<(u64, T)>, key: u64) -> Seq<T>
    decreases entries.len(),
{
    if entries.len() == 0 {
        Seq::empty()
    } else if entries.last().0 == key {
        listed(entries.drop_last(), key).push(entries.last().1)
    } else {
        listed(entries.drop_last(), key)
    }
}

/// What one more entry adds.
pub proof fn lemma_listed_push<T>(entries: Seq<(u64, T)>, key: u64, value: T)
    ensures
        listed(entries.push((key, value)), key) == listed(entries, key).push(value),
        forall|other: u64| #![trigger listed(entries.push((key, value)), other)]
            other != key ==> listed(entries.push((key, value)), other) == listed(entries, other),
{
    assert(entries.push((key, value)).drop_last() =~= entries);
}

/// Whether some entry has a key.
pub open spec fn has_key<T>(entries: Seq<(u64, T)>, key: u64) -> bool {
    exists|i: int| 0 <= i < entries.len() && (#[trigger] entries[i]).0 == key
}

/// The key that one more entry adds.
pub proof fn lemma_has_key_push<T>(entries: Seq<(u64, T)>, entry: (u64, T), key: u64)
    ensures
        has_key(entries.push(entry), key) <==> has_key(entries, key) || entry.0 == key,
{
    let after = entries.push(entry);
    assert(after[entries.len() as int] == entry);
    if has_key(entries, key) {
        let i = choose|i: int| 0 <= i < entries.len() && (#[trigger] entries[i]).0 == key;
        assert(after[i].0 == key);
    }
    if has_key(after, key) {
        let i = choose|i: int| 0 <= i < after.len() && (#[trigger] after[i]).0 == key;
        if i < entries.len() {
            assert(entries[i].0 == key);
        }
    }
}

/// A key's list has a value when an entry gives it.
pub proof fn lemma_listed_contains<T>(entries: Seq<(u64, T)>, key: u64, value: T)
    ensures
        listed(entries, key).contains(value) <==> entries.contains((key, value)),
    decreases entries.len(),
{
    if entries.len() > 0 {
        let rest = entries.drop_last();
        lemma_listed_contains(rest, key, value);
        assert(entries =~= rest.push(entries.last()));
        lemma_push_contains(rest, entries.last(), (key, value));
        if entries.last().0 == key {
            lemma_push_contains(listed(rest, key), entries.last().1, value);
        }
    }
}

/// A list for every number. All but finitely many of them are empty.
pub struct Lists<T> {
    lists: HashMap<u64, Vec<T>>,
}

impl<T> Lists<T> {
    /// The list of a number.
    pub closed spec fn at(&self, key: u64) -> Seq<T> {
        if self.lists@.contains_key(key) {
            self.lists@[key]@
        } else {
            Seq::empty()
        }
    }

    /// Whether the lists are those that some entries give.
    pub open spec fn holds(&self, entries: Seq<(u64, T)>) -> bool {
        forall|key: u64| #[trigger] self.at(key) == listed(entries, key)
    }

    /// Nothing but empty lists.
    pub fn new() -> (r: Self)
        ensures
            forall|key: u64| #[trigger] r.at(key) == Seq::<T>::empty(),
    {
        Lists { lists: HashMap::new() }
    }

    /// Puts a value at the end of a number's list.
    pub fn push(&mut self, key: u64, value: T)
        ensures
            final(self).at(key) == old(self).at(key).push(value),
            forall|other: u64| other != key ==> #[trigger] final(self).at(other) == old(self).at(
                other,
            ),
    {
        let mut list = match self.lists.remove(&key) {
            Some(list) => list,
            None => Vec::new(),
        };
        assert(list@ == old(self).at(key));
        list.push(value);
        self.lists.insert(key, list);
    }

    /// How many values a number's list has.
    pub fn count(&self, key: u64) -> (r: usize)
        ensures
            r == self.at(key).len(),
    {
        match self.lists.get(&key) {
            Some(list) => list.len(),
            None => 0,
        }
    }

    /// A value of a number's list.
    pub fn value(&self, key: u64, index: usize) -> (r: &T)
        requires
            index < self.at(key).len(),
        ensures
            *r == self.at(key)[index as int],
    {
        &self.lists.get(&key).unwrap()[index]
    }
}

} // verus!
