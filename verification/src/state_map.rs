//! Maps keyed by event type and state key, kept in ascending order.

use vstd::prelude::*;
use vstd::utf8::encode_utf8;
use crate::bytes::{bytes_le_transitive, text_at_most, text_equal, text_le, text_le_antisymmetric};
use crate::collections::text_le_total;

verus! {

/// An event type and a state key, which may be missing.
#[derive(Debug, Clone, PartialEq, Eq)]
pub struct StateKey {
    pub event_type: String,
    pub state_key: Option<String>,
}

/// The texts of an event type and a state key.
pub type KeyText = (Seq<char>, Option<Seq<char>>);

/// The text of an optional string.
pub open spec fn optional_view(text: Option<String>) -> Option<Seq<char>> {
    match text {
        Some(text) => Some(text@),
        None => None,
    }
}

impl View for StateKey {
    type V = KeyText;

    open spec fn view(&self) -> KeyText {
        (self.event_type@, optional_view(self.state_key))
    }
}

/// The order on optional texts: a missing one comes first.
pub open spec fn optional_le(a: Option<Seq<char>>, b: Option<Seq<char>>) -> bool {
    match (a, b) {
        (None, _) => true,
        (Some(_), None) => false,
        (Some(x), Some(y)) => text_le(x, y),
    }
}

/// The order on keys: by type, then by state key.
pub open spec fn key_le(a: KeyText, b: KeyText) -> bool {
    if a.0 == b.0 {
        optional_le(a.1, b.1)
    } else {
        text_le(a.0, b.0)
    }
}

/// The strict order on keys.
pub open spec fn key_less(a: KeyText, b: KeyText) -> bool {
    key_le(a, b) && a != b
}

/// Keys in order both ways are the same.
pub proof fn key_le_antisymmetric(a: KeyText, b: KeyText)
    requires
        key_le(a, b),
        key_le(b, a),
    ensures
        a == b,
{
    if a.0 != b.0 {
        text_le_antisymmetric(a.0, b.0);
    } else if a.1 is Some && b.1 is Some {
        text_le_antisymmetric(a.1->Some_0, b.1->Some_0);
    }
}

/// Key order is transitive.
pub proof fn key_le_transitive(a: KeyText, b: KeyText, c: KeyText)
    requires
        key_le(a, b),
        key_le(b, c),
    ensures
        key_le(a, c),
{
    if a.0 == b.0 && b.0 == c.0 {
        if a.1 is Some && b.1 is Some && c.1 is Some {
            bytes_le_transitive(
                encode_utf8(a.1->Some_0),
                encode_utf8(b.1->Some_0),
                encode_utf8(c.1->Some_0),
            );
        }
    } else if a.0 == c.0 {
        text_le_antisymmetric(a.0, b.0);
    } else if a.0 != b.0 && b.0 != c.0 {
        bytes_le_transitive(encode_utf8(a.0), encode_utf8(b.0), encode_utf8(c.0));
    }
}

/// Strict key order is transitive.
pub proof fn key_less_transitive(a: KeyText, b: KeyText, c: KeyText)
    requires
        key_le(a, b),
        key_less(b, c),
    ensures
        key_less(a, c),
{
    key_le_transitive(a, b, c);
    if a == c {
        key_le_antisymmetric(b, c);
    }
}

/// Any two keys are in order one way or the other.
pub proof fn key_le_total(a: KeyText, b: KeyText)
    ensures
        key_le(a, b) || key_less(b, a),
        key_le(a, a),
{
    text_le_total(a.0, b.0);
    if a.1 is Some {
        text_le_total(a.1->Some_0, a.1->Some_0);
        if b.1 is Some {
            text_le_total(a.1->Some_0, b.1->Some_0);
        }
    }
}

/// Whether two optional texts are equal.
pub fn optional_equal(a: &Option<String>, b: &Option<String>) -> (result: bool)
    ensures
        result == (optional_view(*a) == optional_view(*b)),
{
    match (a, b) {
        (Some(x), Some(y)) => text_equal(x.as_str(), y.as_str()),
        (None, None) => true,
        _ => false,
    }
}

/// Whether two keys are equal.
pub fn key_equal(a: &StateKey, b: &StateKey) -> (result: bool)
    ensures
        result == (a@ == b@),
{
    text_equal(a.event_type.as_str(), b.event_type.as_str()) && optional_equal(
        &a.state_key,
        &b.state_key,
    )
}

/// Whether one key comes before or equals another.
pub fn key_at_most(a: &StateKey, b: &StateKey) -> (result: bool)
    ensures
        result == key_le(a@, b@),
{
    if text_equal(a.event_type.as_str(), b.event_type.as_str()) {
        match (&a.state_key, &b.state_key) {
            (None, _) => true,
            (Some(_), None) => false,
            (Some(x), Some(y)) => text_at_most(x.as_str(), y.as_str()),
        }
    } else {
        text_at_most(a.event_type.as_str(), b.event_type.as_str())
    }
}

/// A map from state keys to values, as entries in ascending order of their keys.
#[derive(Debug, Clone, PartialEq, Eq)]
pub struct StateMap<V> {
    pub entries: Vec<(StateKey, V)>,
}

/// Keys in strictly ascending order.
pub open spec fn keys_ascend<V>(entries: Seq<(StateKey, V)>) -> bool {
    forall|i: int, j: int|
        0 <= i < j < entries.len() ==> key_less(
            (#[trigger] entries[i]).0@,
            (#[trigger] entries[j]).0@,
        )
}

/// Some entry has the key.
pub open spec fn has_key<V>(entries: Seq<(StateKey, V)>, key: KeyText) -> bool {
    exists|i: int| 0 <= i < entries.len() && (#[trigger] entries[i]).0@ == key
}

/// The position of a key's entry.
pub open spec fn key_position<V>(entries: Seq<(StateKey, V)>, key: KeyText) -> int {
    choose|i: int| 0 <= i < entries.len() && (#[trigger] entries[i]).0@ == key
}

impl<V> StateMap<V> {
    /// The keys are in strictly ascending order.
    pub open spec fn wf(&self) -> bool {
        keys_ascend(self.entries@)
    }

    /// The map that the entries stand for.
    pub open spec fn view(&self) -> Map<KeyText, V> {
        Map::new(
            |key: KeyText| has_key(self.entries@, key),
            |key: KeyText| self.entries@[key_position(self.entries@, key)].1,
        )
    }

    /// The entry at a position holds what the map holds under its key.
    pub proof fn entry_facts(&self, i: int)
        requires
            self.wf(),
            0 <= i < self.entries@.len(),
        ensures
            self.view().contains_key(self.entries@[i].0@),
            self.view()[self.entries@[i].0@] == self.entries@[i].1,
    {
        let key = self.entries@[i].0@;
        assert(has_key(self.entries@, key));
        let p = key_position(self.entries@, key);
        if p < i {
            assert(key_less(self.entries@[p].0@, self.entries@[i].0@));
        } else if i < p {
            assert(key_less(self.entries@[i].0@, self.entries@[p].0@));
        }
    }

    /// An empty map.
    pub fn new() -> (map: Self)
        ensures
            map.wf(),
            map.view() == Map::<KeyText, V>::empty(),
    {
        let map: StateMap<V> = StateMap { entries: Vec::new() };
        proof {
            assert(map.view() =~= Map::<KeyText, V>::empty());
        }
        map
    }

    /// The number of keys before the given one.
    fn position(&self, key: &StateKey) -> (position: usize)
        requires
            self.wf(),
        ensures
            position <= self.entries.len(),
            forall|i: int|
                0 <= i < position ==> key_less((#[trigger] self.entries@[i]).0@, key@),
            forall|i: int|
                position <= i < self.entries.len() ==> key_le(
                    key@,
                    (#[trigger] self.entries@[i]).0@,
                ),
    {
        let mut low: usize = 0;
        let mut high: usize = self.entries.len();
        while low < high
            invariant
                self.wf(),
                low <= high <= self.entries.len(),
                forall|i: int|
                    0 <= i < low ==> key_less((#[trigger] self.entries@[i]).0@, key@),
                forall|i: int|
                    high <= i < self.entries.len() ==> key_le(
                        key@,
                        (#[trigger] self.entries@[i]).0@,
                    ),
            decreases high - low,
        {
            let middle: usize = low + (high - low) / 2;
            if key_at_most(key, &self.entries[middle].0) {
                proof {
                    assert forall|i: int| middle <= i < self.entries.len() implies key_le(
                        key@,
                        (#[trigger] self.entries@[i]).0@,
                    ) by {
                        if middle < i {
                            key_le_transitive(
                                key@,
                                self.entries@[middle as int].0@,
                                self.entries@[i].0@,
                            );
                        }
                    }
                }
                high = middle;
            } else {
                proof {
                    key_le_total(key@, self.entries@[middle as int].0@);
                    assert forall|i: int| 0 <= i < middle + 1 implies key_less(
                        (#[trigger] self.entries@[i]).0@,
                        key@,
                    ) by {
                        if i < middle {
                            key_less_transitive(
                                self.entries@[i].0@,
                                self.entries@[middle as int].0@,
                                key@,
                            );
                        }
                    }
                }
                low = middle + 1;
            }
        }
        low
    }

    /// The position of a key, where it is present.
    pub fn find(&self, key: &StateKey) -> (found: Option<usize>)
        requires
            self.wf(),
        ensures
            match found {
                Some(i) => {
                    &&& i < self.entries.len()
                    &&& self.entries@[i as int].0@ == key@
                    &&& self.view().contains_key(key@)
                    &&& self.view()[key@] == self.entries@[i as int].1
                },
                None => !self.view().contains_key(key@),
            },
    {
        let position: usize = self.position(key);
        if position < self.entries.len() && key_equal(&self.entries[position].0, key) {
            proof {
                self.entry_facts(position as int);
            }
            return Some(position);
        }
        proof {
            if has_key(self.entries@, key@) {
                let i = key_position(self.entries@, key@);
                if i > position {
                    assert(key_less(self.entries@[position as int].0@, self.entries@[i].0@));
                    key_le_antisymmetric(key@, self.entries@[position as int].0@);
                }
            }
        }
        None
    }

    /// Whether a key is present.
    pub fn contains(&self, key: &StateKey) -> (found: bool)
        requires
            self.wf(),
        ensures
            found == self.view().contains_key(key@),
    {
        self.find(key).is_some()
    }

    /// The value under a key.
    pub fn get(&self, key: &StateKey) -> (found: Option<&V>)
        requires
            self.wf(),
        ensures
            match found {
                Some(value) => self.view().contains_key(key@) && self.view()[key@] == *value,
                None => !self.view().contains_key(key@),
            },
    {
        match self.find(key) {
            Some(i) => Some(&self.entries[i].1),
            None => None,
        }
    }

    /// Stores a value under a key, in place of any earlier one.
    pub fn insert(&mut self, key: StateKey, value: V)
        requires
            old(self).wf(),
        ensures
            final(self).wf(),
            final(self).view() == old(self).view().insert(key@, value),
    {
        let ghost before = *self;
        let ghost text = key@;
        match self.find(&key) {
            Some(i) => {
                let entry: (StateKey, V) = (key, value);
                self.entries.set(i, entry);
                proof {
                    let now = self.entries@;
                    assert(now =~= before.entries@.update(i as int, entry));
                    assert forall|a: int, b: int| 0 <= a < b < now.len() implies key_less(
                        (#[trigger] now[a]).0@,
                        (#[trigger] now[b]).0@,
                    ) by {
                        assert(key_less(before.entries@[a].0@, before.entries@[b].0@));
                    }
                    map_after_write(before, *self, i as int, text, entry);
                }
            },
            None => {
                let position: usize = self.position(&key);
                let entry: (StateKey, V) = (key, value);
                self.entries.insert(position, entry);
                proof {
                    let p = position as int;
                    let old_entries = before.entries@;
                    let now = self.entries@;
                    assert(now =~= old_entries.insert(p, entry));
                    assert forall|a: int, b: int| 0 <= a < b < now.len() implies key_less(
                        (#[trigger] now[a]).0@,
                        (#[trigger] now[b]).0@,
                    ) by {
                        let x = if a < p {
                            a
                        } else {
                            a - 1
                        };
                        let y = if b < p {
                            b
                        } else {
                            b - 1
                        };
                        if a == p {
                            assert(now[b] == old_entries[y]);
                            assert(key_le(text, old_entries[y].0@));
                            if text == old_entries[y].0@ {
                                assert(has_key(old_entries, text));
                            }
                        } else if b == p {
                            assert(now[a] == old_entries[x]);
                        } else {
                            assert(now[a] == old_entries[x] && now[b] == old_entries[y]);
                            assert(key_less(old_entries[x].0@, old_entries[y].0@));
                        }
                    }
                    map_after_insert(before, *self, p, text, entry);
                }
            },
        }
    }
}

proof fn map_after_write<V>(
    before: StateMap<V>,
    after: StateMap<V>,
    i: int,
    text: KeyText,
    entry: (StateKey, V),
)
    requires
        before.wf(),
        after.wf(),
        0 <= i < before.entries@.len(),
        before.entries@[i].0@ == text,
        entry.0@ == text,
        after.entries@ == before.entries@.update(i, entry),
    ensures
        after.view() == before.view().insert(text, entry.1),
{
    let a = after.view();
    let b = before.view().insert(text, entry.1);
    assert forall|key: KeyText| #[trigger] a.contains_key(key) == b.contains_key(key) by {
        if has_key(after.entries@, key) {
            let k = key_position(after.entries@, key);
            assert(before.entries@[k].0@ == key);
        }
        if has_key(before.entries@, key) {
            let k = key_position(before.entries@, key);
            assert(after.entries@[k].0@ == key);
        }
        if key == text {
            assert(after.entries@[i].0@ == key);
        }
    }
    assert forall|key: KeyText| #[trigger] a.contains_key(key) implies a[key] == b[key] by {
        let k = key_position(after.entries@, key);
        after.entry_facts(k);
        if k == i {
        } else {
            before.entry_facts(k);
            if key == text {
                after.entry_facts(i);
                if k < i {
                    assert(key_less(after.entries@[k].0@, after.entries@[i].0@));
                } else {
                    assert(key_less(after.entries@[i].0@, after.entries@[k].0@));
                }
            }
        }
    }
    assert(a =~= b);
}

proof fn map_after_insert<V>(
    before: StateMap<V>,
    after: StateMap<V>,
    p: int,
    text: KeyText,
    entry: (StateKey, V),
)
    requires
        before.wf(),
        after.wf(),
        0 <= p <= before.entries@.len(),
        entry.0@ == text,
        !before.view().contains_key(text),
        after.entries@ == before.entries@.insert(p, entry),
    ensures
        after.view() == before.view().insert(text, entry.1),
{
    let a = after.view();
    let b = before.view().insert(text, entry.1);
    assert forall|key: KeyText| #[trigger] a.contains_key(key) == b.contains_key(key) by {
        if has_key(after.entries@, key) {
            let k = key_position(after.entries@, key);
            if k < p {
                assert(before.entries@[k].0@ == key);
            } else if k > p {
                assert(before.entries@[k - 1].0@ == key);
            }
        }
        if has_key(before.entries@, key) {
            let k = key_position(before.entries@, key);
            if k < p {
                assert(after.entries@[k].0@ == key);
            } else {
                assert(after.entries@[k + 1].0@ == key);
            }
        }
        if key == text {
            assert(after.entries@[p].0@ == key);
        }
    }
    assert forall|key: KeyText| #[trigger] a.contains_key(key) implies a[key] == b[key] by {
        let k = key_position(after.entries@, key);
        after.entry_facts(k);
        if k < p {
            before.entry_facts(k);
            assert(before.entries@[k].0@ == key);
        } else if k > p {
            before.entry_facts(k - 1);
            assert(before.entries@[k - 1].0@ == key);
        }
    }
    assert(a =~= b);
}

/// Keys are ordered by type. Those of one type are ordered by state key, and the one without
/// a state key comes before all others.
pub proof fn key_order_by_fields(kind: Seq<char>, other: Seq<char>, a: Seq<char>, b: Seq<char>)
    ensures
        key_less((kind, None), (kind, Some(a))),
        key_less((kind, Some(a)), (kind, Some(b))) <==> text_le(a, b) && a != b,
        kind != other ==> (key_less((kind, Some(a)), (other, Some(b))) <==> text_le(kind, other)),
        kind != other ==> (key_less((kind, Some(a)), (other, None)) <==> text_le(kind, other)),
{
}

} // verus!
