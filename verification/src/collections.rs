//! Maps and sets keyed by text, kept in ascending byte order.

use vstd::prelude::*;
use vstd::utf8::encode_utf8;
use crate::bytes::{
    bytes_le_total, bytes_le_transitive, text_at_most, text_equal, text_le, text_le_antisymmetric,
};

verus! {

/// A map from texts to values, as entries in ascending order of their keys.
#[derive(Debug, Clone, PartialEq, Eq)]
pub struct TextMap<V> {
    pub entries: Vec<(String, V)>,
}

/// Strict byte order on texts.
pub open spec fn text_less(a: Seq<char>, b: Seq<char>) -> bool {
    text_le(a, b) && a != b
}

/// Keys in strictly ascending order.
pub open spec fn keys_ascend<V>(entries: Seq<(String, V)>) -> bool {
    forall|i: int, j: int|
        0 <= i < j < entries.len() ==> text_less(
            (#[trigger] entries[i]).0@,
            (#[trigger] entries[j]).0@,
        )
}

/// Some entry has the key.
pub open spec fn has_key<V>(entries: Seq<(String, V)>, key: Seq<char>) -> bool {
    exists|i: int| 0 <= i < entries.len() && (#[trigger] entries[i]).0@ == key
}

/// The position of a key's entry.
pub open spec fn key_position<V>(entries: Seq<(String, V)>, key: Seq<char>) -> int {
    choose|i: int| 0 <= i < entries.len() && (#[trigger] entries[i]).0@ == key
}

/// Strict text order is transitive.
pub proof fn text_less_transitive(a: Seq<char>, b: Seq<char>, c: Seq<char>)
    requires
        text_le(a, b),
        text_less(b, c),
    ensures
        text_less(a, c),
{
    bytes_le_transitive(encode_utf8(a), encode_utf8(b), encode_utf8(c));
    if a == c {
        text_le_antisymmetric(b, c);
    }
}

/// Any two texts are in order one way or the other.
pub proof fn text_le_total(a: Seq<char>, b: Seq<char>)
    ensures
        text_le(a, b) || text_less(b, a),
        text_le(a, a),
{
    bytes_le_total(encode_utf8(a), encode_utf8(b));
    bytes_le_total(encode_utf8(a), encode_utf8(a));
}

impl<V> TextMap<V> {
    /// The keys are in strictly ascending order.
    pub open spec fn wf(&self) -> bool {
        keys_ascend(self.entries@)
    }

    /// The map that the entries stand for.
    pub open spec fn view(&self) -> Map<Seq<char>, V> {
        Map::new(
            |key: Seq<char>| has_key(self.entries@, key),
            |key: Seq<char>| self.entries@[key_position(self.entries@, key)].1,
        )
    }

    /// The entry at a position holds what the map holds under its key.
    pub proof fn entry_facts(&self, i: int)
        requires
            self.wf(),
            0 <= i < self.entries@.len(),
        ensures
            self.view().contains_key(self.entries@[i].0@),
            self.view()[self.entries@[i].0@] == self.entries@[i].1,
    {
        let key = self.entries@[i].0@;
        assert(has_key(self.entries@, key));
        let p = key_position(self.entries@, key);
        if p < i {
            assert(text_less(self.entries@[p].0@, self.entries@[i].0@));
        } else if i < p {
            assert(text_less(self.entries@[i].0@, self.entries@[p].0@));
        }
    }

    /// An empty map.
    pub fn new() -> (map: Self)
        ensures
            map.wf(),
            map.view() == Map::<Seq<char>, V>::empty(),
    {
        let map: TextMap<V> = TextMap { entries: Vec::new() };
        proof {
            assert(map.view() =~= Map::<Seq<char>, V>::empty());
        }
        map
    }

    /// The number of keys before the given one.
    fn position(&self, key: &str) -> (position: usize)
        requires
            self.wf(),
        ensures
            position <= self.entries.len(),
            forall|i: int|
                0 <= i < position ==> text_less((#[trigger] self.entries@[i]).0@, key@),
            forall|i: int|
                position <= i < self.entries.len() ==> text_le(
                    key@,
                    (#[trigger] self.entries@[i]).0@,
                ),
    {
        let mut low: usize = 0;
        let mut high: usize = self.entries.len();
        while low < high
            invariant
                self.wf(),
                low <= high <= self.entries.len(),
                forall|i: int|
                    0 <= i < low ==> text_less((#[trigger] self.entries@[i]).0@, key@),
                forall|i: int|
                    high <= i < self.entries.len() ==> text_le(
                        key@,
                        (#[trigger] self.entries@[i]).0@,
                    ),
            decreases high - low,
        {
            let middle: usize = low + (high - low) / 2;
            if text_at_most(key, self.entries[middle].0.as_str()) {
                proof {
                    assert forall|i: int| middle <= i < self.entries.len() implies text_le(
                        key@,
                        (#[trigger] self.entries@[i]).0@,
                    ) by {
                        if middle < i {
                            bytes_le_transitive(
                                encode_utf8(key@),
                                encode_utf8(self.entries@[middle as int].0@),
                                encode_utf8(self.entries@[i].0@),
                            );
                        }
                    }
                }
                high = middle;
            } else {
                proof {
                    text_le_total(key@, self.entries@[middle as int].0@);
                    assert forall|i: int| 0 <= i < middle + 1 implies text_less(
                        (#[trigger] self.entries@[i]).0@,
                        key@,
                    ) by {
                        if i < middle {
                            text_less_transitive(
                                self.entries@[i].0@,
                                self.entries@[middle as int].0@,
                                key@,
                            );
                        }
                    }
                }
                low = middle + 1;
            }
        }
        low
    }

    /// The position of a key, where it is present.
    pub fn find(&self, key: &str) -> (found: Option<usize>)
        requires
            self.wf(),
        ensures
            match found {
                Some(i) => {
                    &&& i < self.entries.len()
                    &&& self.entries@[i as int].0@ == key@
                    &&& self.view().contains_key(key@)
                    &&& self.view()[key@] == self.entries@[i as int].1
                },
                None => !self.view().contains_key(key@),
            },
    {
        let position: usize = self.position(key);
        if position < self.entries.len() && text_equal(self.entries[position].0.as_str(), key) {
            proof {
                self.entry_facts(position as int);
            }
            return Some(position);
        }
        proof {
            if has_key(self.entries@, key@) {
                let i = key_position(self.entries@, key@);
                if i > position {
                    assert(text_less(self.entries@[position as int].0@, self.entries@[i].0@));
                    text_le_antisymmetric(key@, self.entries@[position as int].0@);
                }
            }
        }
        None
    }

    /// Whether a key is present.
    pub fn contains(&self, key: &str) -> (found: bool)
        requires
            self.wf(),
        ensures
            found == self.view().contains_key(key@),
    {
        self.find(key).is_some()
    }

    /// The value under a key.
    pub fn get(&self, key: &str) -> (found: Option<&V>)
        requires
            self.wf(),
        ensures
            match found {
                Some(value) => self.view().contains_key(key@) && self.view()[key@] == *value,
                None => !self.view().contains_key(key@),
            },
    {
        match self.find(key) {
            Some(i) => Some(&self.entries[i].1),
            None => None,
        }
    }

    /// Stores a value under a key, in place of any earlier one.
    pub fn insert(&mut self, key: String, value: V)
        requires
            old(self).wf(),
        ensures
            final(self).wf(),
            final(self).view() == old(self).view().insert(key@, value),
    {
        let ghost before = *self;
        let ghost text = key@;
        match self.find(key.as_str()) {
            Some(i) => {
                let entry: (String, V) = (key, value);
                self.entries.set(i, entry);
                proof {
                    let now = self.entries@;
                    assert(now =~= before.entries@.update(i as int, entry));
                    assert forall|a: int, b: int| 0 <= a < b < now.len() implies text_less(
                        (#[trigger] now[a]).0@,
                        (#[trigger] now[b]).0@,
                    ) by {
                        assert(text_less(before.entries@[a].0@, before.entries@[b].0@));
                    }
                    map_after_write(before, *self, i as int, text, entry);
                }
            },
            None => {
                let position: usize = self.position(key.as_str());
                let entry: (String, V) = (key, value);
                self.entries.insert(position, entry);
                proof {
                    let p = position as int;
                    let old_entries = before.entries@;
                    let now = self.entries@;
                    assert(now =~= old_entries.insert(p, entry));
                    assert forall|a: int, b: int| 0 <= a < b < now.len() implies text_less(
                        (#[trigger] now[a]).0@,
                        (#[trigger] now[b]).0@,
                    ) by {
                        let x = if a < p {
                            a
                        } else {
                            a - 1
                        };
                        let y = if b < p {
                            b
                        } else {
                            b - 1
                        };
                        if a == p {
                            assert(now[b] == old_entries[y]);
                            assert(text_le(text, old_entries[y].0@));
                            if text == old_entries[y].0@ {
                                assert(has_key(old_entries, text));
                            }
                        } else if b == p {
                            assert(now[a] == old_entries[x]);
                        } else {
                            assert(now[a] == old_entries[x] && now[b] == old_entries[y]);
                            assert(text_less(old_entries[x].0@, old_entries[y].0@));
                        }
                    }
                    map_after_insert(before, *self, p, text, entry);
                }
            },
        }
    }
}

proof fn map_after_write<V>(
    before: TextMap<V>,
    after: TextMap<V>,
    i: int,
    text: Seq<char>,
    entry: (String, V),
)
    requires
        before.wf(),
        after.wf(),
        0 <= i < before.entries@.len(),
        before.entries@[i].0@ == text,
        entry.0@ == text,
        after.entries@ == before.entries@.update(i, entry),
    ensures
        after.view() == before.view().insert(text, entry.1),
{
    let a = after.view();
    let b = before.view().insert(text, entry.1);
    assert forall|key: Seq<char>| #[trigger] a.contains_key(key) == b.contains_key(key) by {
        if has_key(after.entries@, key) {
            let k = key_position(after.entries@, key);
            assert(before.entries@[k].0@ == key);
        }
        if has_key(before.entries@, key) {
            let k = key_position(before.entries@, key);
            assert(after.entries@[k].0@ == key);
        }
        if key == text {
            assert(after.entries@[i].0@ == key);
        }
    }
    assert forall|key: Seq<char>| #[trigger] a.contains_key(key) implies a[key] == b[key] by {
        let k = key_position(after.entries@, key);
        after.entry_facts(k);
        if k == i {
        } else {
            before.entry_facts(k);
            if key == text {
                after.entry_facts(i);
                if k < i {
                    assert(text_less(after.entries@[k].0@, after.entries@[i].0@));
                } else {
                    assert(text_less(after.entries@[i].0@, after.entries@[k].0@));
                }
            }
        }
    }
    assert(a =~= b);
}

proof fn map_after_insert<V>(
    before: TextMap<V>,
    after: TextMap<V>,
    p: int,
    text: Seq<char>,
    entry: (String, V),
)
    requires
        before.wf(),
        after.wf(),
        0 <= p <= before.entries@.len(),
        entry.0@ == text,
        !before.view().contains_key(text),
        after.entries@ == before.entries@.insert(p, entry),
    ensures
        after.view() == before.view().insert(text, entry.1),
{
    let a = after.view();
    let b = before.view().insert(text, entry.1);
    assert forall|key: Seq<char>| #[trigger] a.contains_key(key) == b.contains_key(key) by {
        if has_key(after.entries@, key) {
            let k = key_position(after.entries@, key);
            if k < p {
                assert(before.entries@[k].0@ == key);
            } else if k > p {
                assert(before.entries@[k - 1].0@ == key);
            }
        }
        if has_key(before.entries@, key) {
            let k = key_position(before.entries@, key);
            if k < p {
                assert(after.entries@[k].0@ == key);
            } else {
                assert(after.entries@[k + 1].0@ == key);
            }
        }
        if key == text {
            assert(after.entries@[p].0@ == key);
        }
    }
    assert forall|key: Seq<char>| #[trigger] a.contains_key(key) implies a[key] == b[key] by {
        let k = key_position(after.entries@, key);
        after.entry_facts(k);
        if k < p {
            before.entry_facts(k);
            assert(before.entries@[k].0@ == key);
        } else if k > p {
            before.entry_facts(k - 1);
            assert(before.entries@[k - 1].0@ == key);
        }
    }
    assert(a =~= b);
}

/// A set of texts.
#[derive(Debug, Clone, PartialEq, Eq)]
pub struct TextSet {
    pub map: TextMap<()>,
}

impl TextSet {
    /// The texts are in strictly ascending order.
    pub open spec fn wf(&self) -> bool {
        self.map.wf()
    }

    /// The set that the entries stand for.
    pub open spec fn view(&self) -> Set<Seq<char>> {
        self.map.view().dom()
    }

    /// An empty set.
    pub fn new() -> (set: Self)
        ensures
            set.wf(),
            set.view() == Set::<Seq<char>>::empty(),
    {
        let set: TextSet = TextSet { map: TextMap::new() };
        proof {
            assert(set.view() =~= Set::<Seq<char>>::empty());
        }
        set
    }

    /// Whether a text is present.
    pub fn contains(&self, text: &str) -> (found: bool)
        requires
            self.wf(),
        ensures
            found == self.view().contains(text@),
    {
        self.map.contains(text)
    }

    /// Adds a text, and tells whether it is new.
    pub fn insert(&mut self, text: String) -> (new: bool)
        requires
            old(self).wf(),
        ensures
            final(self).wf(),
            final(self).view() == old(self).view().insert(text@),
            new == !old(self).view().contains(text@),
            final(self).map.entries.len() == old(self).map.entries.len() + (if new {
                1int
            } else {
                0
            }),
    {
        let ghost before = *self;
        let ghost key = text@;
        if self.map.contains(text.as_str()) {
            proof {
                assert(self.view().insert(key) =~= self.view());
            }
            return false;
        }
        let position: usize = self.map.position(text.as_str());
        self.insert_at(position, text);
        true
    }

    fn insert_at(&mut self, position: usize, text: String)
        requires
            old(self).wf(),
            !old(self).view().contains(text@),
            position <= old(self).map.entries.len(),
            forall|i: int|
                0 <= i < position ==> text_less(
                    (#[trigger] old(self).map.entries@[i]).0@,
                    text@,
                ),
            forall|i: int|
                position <= i < old(self).map.entries.len() ==> text_le(
                    text@,
                    (#[trigger] old(self).map.entries@[i]).0@,
                ),
        ensures
            final(self).wf(),
            final(self).view() == old(self).view().insert(text@),
            final(self).map.entries.len() == old(self).map.entries.len() + 1,
    {
        let ghost before = self.map;
        let ghost key = text@;
        let entry: (String, ()) = (text, ());
        self.map.entries.insert(position, entry);
        proof {
            let p = position as int;
            let old_entries = before.entries@;
            let now = self.map.entries@;
            assert(now =~= old_entries.insert(p, entry));
            assert forall|a: int, b: int| 0 <= a < b < now.len() implies text_less(
                (#[trigger] now[a]).0@,
                (#[trigger] now[b]).0@,
            ) by {
                let x = if a < p {
                    a
                } else {
                    a - 1
                };
                let y = if b < p {
                    b
                } else {
                    b - 1
                };
                if a == p {
                    assert(now[b] == old_entries[y]);
                    if key == old_entries[y].0@ {
                        assert(has_key(old_entries, key));
                    }
                } else if b == p {
                    assert(now[a] == old_entries[x]);
                } else {
                    assert(now[a] == old_entries[x] && now[b] == old_entries[y]);
                    assert(text_less(old_entries[x].0@, old_entries[y].0@));
                }
            }
            map_after_insert(before, self.map, p, key, entry);
            assert(self.view() =~= before.view().dom().insert(key));
        }
    }
}

/// The items of a list in reverse order.
pub(crate) fn reversed<T>(items: Vec<T>) -> (result: Vec<T>)
    ensures
        result@ == items@.reverse(),
{
    let ghost all = items@;
    let mut items: Vec<T> = items;
    let mut result: Vec<T> = Vec::new();
    while items.len() > 0
        invariant
            items@.len() + result@.len() == all.len(),
            items@ =~= all.take(items@.len() as int),
            forall|i: int| 0 <= i < result@.len() ==> result@[i] == all[all.len() - 1 - i],
        decreases items.len(),
    {
        match items.pop() {
            Some(item) => {
                result.push(item);
            },
            None => {},
        }
    }
    proof {
        assert(result@ =~= all.reverse());
    }
    result
}

} // verus!
