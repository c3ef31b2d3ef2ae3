//! Maps keyed by structural hashes, kept in ascending order.

use vstd::prelude::*;
use crate::bytes::{
    bytes_at_most, bytes_le, bytes_le_antisymmetric, bytes_le_total, bytes_le_transitive,
};
use super::hash::StructuralHash;

verus! {

/// A map from structural hashes to values.
#[derive(Debug, Clone, PartialEq, Eq)]
pub struct HashTable<V> {
    pub entries: Vec<(StructuralHash, V)>,
}

/// The strict order on hashes.
pub open spec fn hash_less(a: Seq<u8>, b: Seq<u8>) -> bool {
    bytes_le(a, b) && a != b
}

/// Hashes in strictly ascending order.
pub open spec fn hashes_ascend<V>(entries: Seq<(StructuralHash, V)>) -> bool {
    forall|i: int, j: int|
        0 <= i < j < entries.len() ==> hash_less(
            (#[trigger] entries[i]).0@,
            (#[trigger] entries[j]).0@,
        )
}

/// Some entry has the hash.
pub open spec fn has_hash<V>(entries: Seq<(StructuralHash, V)>, hash: Seq<u8>) -> bool {
    exists|i: int| 0 <= i < entries.len() && (#[trigger] entries[i]).0@ == hash
}

/// The position of a hash's entry.
pub open spec fn hash_position<V>(entries: Seq<(StructuralHash, V)>, hash: Seq<u8>) -> int {
    choose|i: int| 0 <= i < entries.len() && (#[trigger] entries[i]).0@ == hash
}

proof fn hash_less_chains(a: Seq<u8>, b: Seq<u8>, c: Seq<u8>)
    requires
        bytes_le(a, b),
        bytes_le(b, c),
        a != b || b != c,
    ensures
        hash_less(a, c),
{
    bytes_le_transitive(a, b, c);
    if a == c {
        bytes_le_antisymmetric(a, b);
    }
}

/// The hashes of the entries, each with its value, as a map.
pub open spec fn table_view<V>(entries: Seq<(StructuralHash, V)>) -> Map<Seq<u8>, V> {
    Map::new(
        |hash: Seq<u8>| has_hash(entries, hash),
        |hash: Seq<u8>| entries[hash_position(entries, hash)].1,
    )
}

proof fn entry_found<V>(entries: Seq<(StructuralHash, V)>, i: int)
    requires
        hashes_ascend(entries),
        0 <= i < entries.len(),
    ensures
        has_hash(entries, entries[i].0@),
        hash_position(entries, entries[i].0@) == i,
{
    let p = hash_position(entries, entries[i].0@);
    assert(entries[i].0@ == entries[i].0@);
    if p < i {
        assert(hash_less(entries[p].0@, entries[i].0@));
    } else if i < p {
        assert(hash_less(entries[i].0@, entries[p].0@));
    }
}

proof fn view_after_insert<V>(
    before: Seq<(StructuralHash, V)>,
    position: int,
    entry: (StructuralHash, V),
)
    requires
        hashes_ascend(before),
        0 <= position <= before.len(),
        forall|i: int| 0 <= i < position ==> hash_less((#[trigger] before[i]).0@, entry.0@),
        forall|i: int|
            position <= i < before.len() ==> hash_less(entry.0@, (#[trigger] before[i]).0@),
    ensures
        hashes_ascend(before.insert(position, entry)),
        table_view(before.insert(position, entry)) == table_view(before).insert(entry.0@, entry.1),
{
    let after = before.insert(position, entry);
    assert forall|i: int, j: int| 0 <= i < j < after.len() implies hash_less(
        (#[trigger] after[i]).0@,
        (#[trigger] after[j]).0@,
    ) by {
        if j < position {
            assert(after[i] == before[i] && after[j] == before[j]);
        } else if i > position {
            assert(after[i] == before[i - 1] && after[j] == before[j - 1]);
        } else if i < position && j > position {
            assert(after[i] == before[i] && after[j] == before[j - 1]);
        } else if i == position {
            assert(after[j] == before[j - 1]);
        } else {
            assert(after[i] == before[i]);
        }
    }
    assert forall|hash: Seq<u8>| has_hash(after, hash) <==> has_hash(before, hash) || hash
        == entry.0@ by {
        if has_hash(before, hash) {
            let i = hash_position(before, hash);
            if i < position {
                assert(after[i].0@ == hash);
            } else {
                assert(after[i + 1].0@ == hash);
            }
        }
        if has_hash(after, hash) {
            let i = hash_position(after, hash);
            if i < position {
                assert(before[i].0@ == hash);
            } else if i > position {
                assert(before[i - 1].0@ == hash);
            }
        }
        assert(after[position].0@ == entry.0@);
    }
    assert forall|hash: Seq<u8>| has_hash(after, hash) implies #[trigger] table_view(after)[hash]
        == table_view(before).insert(entry.0@, entry.1)[hash] by {
        let i = hash_position(after, hash);
        if i == position {
        } else {
            let k = if i < position {
                i
            } else {
                i - 1
            };
            assert(after[i] == before[k]);
            entry_found(before, k);
            if hash == entry.0@ {
                entry_found(after, position);
            }
        }
        if hash == entry.0@ {
            entry_found(after, position);
        }
    }
    assert(table_view(after) =~= table_view(before).insert(entry.0@, entry.1));
}

proof fn view_after_update<V>(before: Seq<(StructuralHash, V)>, position: int, value: V)
    requires
        hashes_ascend(before),
        0 <= position < before.len(),
    ensures
        hashes_ascend(before.update(position, (before[position].0, value))),
        table_view(before.update(position, (before[position].0, value))) == table_view(
            before,
        ).insert(before[position].0@, value),
{
    let entry = (before[position].0, value);
    let after = before.update(position, entry);
    assert forall|i: int, j: int| 0 <= i < j < after.len() implies hash_less(
        (#[trigger] after[i]).0@,
        (#[trigger] after[j]).0@,
    ) by {
        assert(after[i].0 == before[i].0 && after[j].0 == before[j].0);
    }
    assert forall|hash: Seq<u8>| has_hash(after, hash) <==> has_hash(before, hash) by {
        if has_hash(before, hash) {
            let i = hash_position(before, hash);
            assert(after[i].0@ == hash);
        }
        if has_hash(after, hash) {
            let i = hash_position(after, hash);
            assert(before[i].0@ == hash);
        }
    }
    entry_found(before, position);
    entry_found(after, position);
    assert forall|hash: Seq<u8>| has_hash(after, hash) implies #[trigger] table_view(after)[hash]
        == table_view(before).insert(before[position].0@, value)[hash] by {
        let i = hash_position(after, hash);
        entry_found(before, i);
        if i != position {
            assert(after[i] == before[i]);
            if hash == before[position].0@ {
                entry_found(after, position);
            }
        }
    }
    assert(table_view(after) =~= table_view(before).insert(before[position].0@, value));
}

proof fn view_after_remove<V>(before: Seq<(StructuralHash, V)>, position: int)
    requires
        hashes_ascend(before),
        0 <= position < before.len(),
    ensures
        hashes_ascend(before.remove(position)),
        table_view(before.remove(position)) == table_view(before).remove(before[position].0@),
{
    let after = before.remove(position);
    let gone = before[position].0@;
    assert forall|i: int, j: int| 0 <= i < j < after.len() implies hash_less(
        (#[trigger] after[i]).0@,
        (#[trigger] after[j]).0@,
    ) by {
        let x = if i < position {
            i
        } else {
            i + 1
        };
        let y = if j < position {
            j
        } else {
            j + 1
        };
        assert(after[i] == before[x] && after[j] == before[y]);
    }
    assert forall|hash: Seq<u8>| has_hash(after, hash) <==> has_hash(before, hash) && hash
        != gone by {
        if has_hash(before, hash) && hash != gone {
            let i = hash_position(before, hash);
            if i < position {
                assert(after[i].0@ == hash);
            } else {
                assert(after[i - 1].0@ == hash);
            }
        }
        if has_hash(after, hash) {
            let i = hash_position(after, hash);
            let k = if i < position {
                i
            } else {
                i + 1
            };
            assert(before[k].0@ == hash);
            if k < position {
                assert(hash_less(before[k].0@, before[position].0@));
            } else {
                assert(hash_less(before[position].0@, before[k].0@));
            }
        }
    }
    assert forall|hash: Seq<u8>| has_hash(after, hash) implies #[trigger] table_view(after)[hash]
        == table_view(before).remove(gone)[hash] by {
        let i = hash_position(after, hash);
        let k = if i < position {
            i
        } else {
            i + 1
        };
        assert(after[i] == before[k]);
        entry_found(before, k);
    }
    assert(table_view(after) =~= table_view(before).remove(gone));
}

/// A map with as many entries as keys has a domain of that size.
proof fn domain_size<V>(entries: Seq<(StructuralHash, V)>)
    requires
        hashes_ascend(entries),
    ensures
        table_view(entries).dom().finite(),
        table_view(entries).dom().len() == entries.len(),
    decreases entries.len(),
{
    if entries.len() == 0 {
        assert(table_view(entries).dom() =~= Set::<Seq<u8>>::empty());
    } else {
        let last = entries.len() - 1;
        view_after_remove(entries, last);
        domain_size(entries.remove(last));
        entry_found(entries, last);
        let dom = table_view(entries).dom();
        assert(table_view(entries.remove(last)).dom() =~= dom.remove(entries[last].0@));
        assert(dom =~= dom.remove(entries[last].0@).insert(entries[last].0@));
    }
}

impl<V> HashTable<V> {
    /// The hashes are in strictly ascending order.
    pub open spec fn wf(&self) -> bool {
        hashes_ascend(self.entries@)
    }

    /// The map that the entries stand for.
    pub open spec fn view(&self) -> Map<Seq<u8>, V> {
        table_view(self.entries@)
    }

    /// An empty map.
    pub fn new() -> (table: Self)
        ensures
            table.wf(),
            table.view() == Map::<Seq<u8>, V>::empty(),
    {
        let table: HashTable<V> = HashTable { entries: Vec::new() };
        proof {
            assert(table.view() =~= Map::<Seq<u8>, V>::empty());
        }
        table
    }

    /// How many hashes the map has.
    pub fn len(&self) -> (count: usize)
        requires
            self.wf(),
        ensures
            count == self.view().dom().len(),
    {
        proof {
            domain_size(self.entries@);
        }
        self.entries.len()
    }

    /// The entry at a position holds what the map holds under its hash.
    pub proof fn entry_facts(&self, i: int)
        requires
            self.wf(),
            0 <= i < self.entries@.len(),
        ensures
            self.view().contains_key(self.entries@[i].0@),
            self.view()[self.entries@[i].0@] == self.entries@[i].1,
    {
        entry_found(self.entries@, i);
    }

    /// The number of entries with smaller hashes.
    fn position(&self, hash: &StructuralHash) -> (position: usize)
        requires
            self.wf(),
        ensures
            position <= self.entries@.len(),
            forall|i: int|
                0 <= i < position ==> hash_less((#[trigger] self.entries@[i]).0@, hash@),
            forall|i: int|
                position <= i < self.entries@.len() ==> bytes_le(
                    hash@,
                    (#[trigger] self.entries@[i]).0@,
                ),
    {
        let mut low: usize = 0;
        let mut high: usize = self.entries.len();
        while low < high
            invariant
                self.wf(),
                low <= high <= self.entries@.len(),
                forall|i: int|
                    0 <= i < low ==> hash_less((#[trigger] self.entries@[i]).0@, hash@),
                forall|i: int|
                    high <= i < self.entries@.len() ==> bytes_le(
                        hash@,
                        (#[trigger] self.entries@[i]).0@,
                    ),
            decreases high - low,
        {
            let middle: usize = low + (high - low) / 2;
            let ghost m = middle as int;
            if bytes_at_most(hash.as_slice(), self.entries[middle].0.as_slice()) {
                proof {
                    assert forall|i: int| middle <= i < self.entries@.len() implies bytes_le(
                        hash@,
                        (#[trigger] self.entries@[i]).0@,
                    ) by {
                        if i > m {
                            assert(hash_less(self.entries@[m].0@, self.entries@[i].0@));
                            bytes_le_transitive(
                                hash@,
                                self.entries@[m].0@,
                                self.entries@[i].0@,
                            );
                        }
                    }
                }
                high = middle;
            } else {
                proof {
                    bytes_le_total(hash@, self.entries@[m].0@);
                    bytes_le_total(hash@, hash@);
                    assert forall|i: int| 0 <= i < middle + 1 implies hash_less(
                        (#[trigger] self.entries@[i]).0@,
                        hash@,
                    ) by {
                        if i < m {
                            assert(hash_less(self.entries@[i].0@, self.entries@[m].0@));
                            hash_less_chains(
                                self.entries@[i].0@,
                                self.entries@[m].0@,
                                hash@,
                            );
                        }
                    }
                }
                low = middle + 1;
            }
        }
        low
    }

    /// The place of a hash's entry.
    pub fn find(&self, hash: &StructuralHash) -> (found: Option<usize>)
        requires
            self.wf(),
        ensures
            match found {
                Some(i) => {
                    &&& i < self.entries@.len()
                    &&& self.entries@[i as int].0@ == hash@
                    &&& self.view().contains_key(hash@)
                    &&& self.view()[hash@] == self.entries@[i as int].1
                },
                None => !self.view().contains_key(hash@),
            },
    {
        let position: usize = self.position(hash);
        if position < self.entries.len() && super::hash::same_hash(
            &self.entries[position].0,
            hash,
        ) {
            proof {
                entry_found(self.entries@, position as int);
            }
            return Some(position);
        }
        proof {
            if has_hash(self.entries@, hash@) {
                let i = hash_position(self.entries@, hash@);
                if i >= position && i != position {
                    assert(hash_less(self.entries@[position as int].0@, self.entries@[i].0@));
                    bytes_le_antisymmetric(hash@, self.entries@[position as int].0@);
                }
            }
        }
        None
    }

    /// The value under a hash.
    pub fn get(&self, hash: &StructuralHash) -> (found: Option<&V>)
        requires
            self.wf(),
        ensures
            match found {
                Some(value) => self.view().contains_key(hash@) && self.view()[hash@] == *value,
                None => !self.view().contains_key(hash@),
            },
    {
        match self.find(hash) {
            Some(i) => Some(&self.entries[i].1),
            None => None,
        }
    }

    /// Stores a value under a hash, in place of any earlier one.
    pub fn insert(&mut self, hash: StructuralHash, value: V)
        requires
            old(self).wf(),
        ensures
            final(self).wf(),
            final(self).view() == old(self).view().insert(hash@, value),
    {
        let ghost before = self.entries@;
        match self.find(&hash) {
            Some(i) => {
                let entry: (StructuralHash, V) = (hash, value);
                proof {
                    assert(before[i as int].0@ == hash@);
                    assert(before[i as int].0 =~= hash);
                    view_after_update(before, i as int, value);
                }
                self.entries.set(i, entry);
            },
            None => {
                let position: usize = self.position(&hash);
                proof {
                    assert forall|i: int| position <= i < before.len() implies hash_less(
                        hash@,
                        (#[trigger] before[i]).0@,
                    ) by {
                        if before[i].0@ == hash@ {
                            assert(has_hash(before, hash@));
                        }
                    }
                    view_after_insert(before, position as int, (hash, value));
                }
                self.entries.insert(position, (hash, value));
            },
        }
    }

    /// Takes a hash out of the map.
    pub fn remove(&mut self, hash: &StructuralHash)
        requires
            old(self).wf(),
        ensures
            final(self).wf(),
            final(self).view() == old(self).view().remove(hash@),
    {
        let ghost before = self.entries@;
        match self.find(hash) {
            Some(i) => {
                proof {
                    view_after_remove(before, i as int);
                }
                let _gone: (StructuralHash, V) = self.entries.remove(i);
            },
            None => {
                proof {
                    assert(self.view().remove(hash@) =~= self.view());
                }
            },
        }
    }
}

} // verus!
