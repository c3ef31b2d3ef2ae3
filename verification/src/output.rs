//! The shapes in which resolved room data is presented.

use vstd::prelude::*;
use vstd::seq_lib::{to_multiset_build, to_multiset_insert};
use vstd::string::StringExecFns;
use crate::bytes::{text_at_most, text_equal, text_le};
use crate::state_map::{key_le, key_le_total, key_le_transitive, KeyText};

verus! {

/// Selects the presentation shape for resolved room data.
#[derive(Debug, Clone, Copy, PartialEq, Eq, Structural)]
pub enum OutputFormat {
    Events,
    Default,
    Deltas,
    Federation,
    Summary,
    Timeline,
    ResolveState,
}

impl Default for OutputFormat {
    fn default() -> (format: Self)
        ensures
            format == OutputFormat::Events,
    {
        OutputFormat::Events
    }
}

/// One resolved-state entry: a type, a state key and an event id.
#[derive(Debug, Clone, PartialEq, Eq)]
pub struct ResolvedStateEntry {
    pub event_type: String,
    pub state_key: String,
    pub event_id: String,
}

/// The texts of a resolved-state entry.
pub struct EntryText {
    pub event_type: Seq<char>,
    pub state_key: Seq<char>,
    pub event_id: Seq<char>,
}

impl View for ResolvedStateEntry {
    type V = EntryText;

    open spec fn view(&self) -> EntryText {
        EntryText {
            event_type: self.event_type@,
            state_key: self.state_key@,
            event_id: self.event_id@,
        }
    }
}

/// The key of an entry.
pub open spec fn entry_key(entry: EntryText) -> KeyText {
    (entry.event_type, Some(entry.state_key))
}

/// The entries of a state map, which gives an event id to each type and state
/// key.
pub open spec fn map_entries(state: Seq<((String, String), String)>) -> Seq<EntryText> {
    state.map_values(
        |item: ((String, String), String)|
            EntryText { event_type: item.0.0@, state_key: item.0.1@, event_id: item.1@ },
    )
}

/// The texts of a list of entries.
pub open spec fn entry_texts(entries: Seq<ResolvedStateEntry>) -> Seq<EntryText> {
    entries.map_values(|entry: ResolvedStateEntry| entry@)
}

/// The entries are ordered by type, then by state key.
pub open spec fn entries_ordered(entries: Seq<EntryText>) -> bool {
    forall|i: int, j: int|
        0 <= i < j < entries.len() ==> key_le(
            entry_key(#[trigger] entries[i]),
            entry_key(#[trigger] entries[j]),
        )
}

/// Whether an entry comes strictly after a key.
fn comes_after(entry: &ResolvedStateEntry, event_type: &str, state_key: &str) -> (result: bool)
    ensures
        result == !key_le(entry_key(entry@), (event_type@, Some(state_key@))),
{
    if text_equal(entry.event_type.as_str(), event_type) {
        !text_at_most(entry.state_key.as_str(), state_key)
    } else {
        !text_at_most(entry.event_type.as_str(), event_type)
    }
}

/// Converts a resolved state map into a stable, sorted list of entries.
pub fn resolved_state_entries(final_state_map: &Vec<((String, String), String)>) -> (entries: Vec<
    ResolvedStateEntry,
>)
    ensures
        entries_ordered(entry_texts(entries@)),
        entry_texts(entries@).to_multiset() == map_entries(final_state_map@).to_multiset(),
{
    let mut entries: Vec<ResolvedStateEntry> = Vec::new();
    let mut index: usize = 0;
    let ghost source = map_entries(final_state_map@);
    proof {
        assert(entry_texts(entries@) =~= source.take(0));
    }
    while index < final_state_map.len()
        invariant
            source == map_entries(final_state_map@),
            index <= final_state_map.len(),
            entries_ordered(entry_texts(entries@)),
            entry_texts(entries@).to_multiset() == source.take(index as int).to_multiset(),
        decreases final_state_map.len() - index,
    {
        let item: &((String, String), String) = &final_state_map[index];
        let ghost key: KeyText = (item.0.0@, Some(item.0.1@));
        let ghost before = entry_texts(entries@);
        let mut slot: usize = entries.len();
        while slot > 0 && comes_after(&entries[slot - 1], item.0.0.as_str(), item.0.1.as_str())
            invariant
                slot <= entries.len(),
                before == entry_texts(entries@),
                key == (item.0.0@, Some(item.0.1@)),
                forall|i: int|
                    slot <= i < before.len() ==> !key_le(entry_key(#[trigger] before[i]), key),
            decreases slot,
        {
            slot = slot - 1;
            proof {
                assert(before[slot as int] == entries@[slot as int]@);
            }
        }
        proof {
            if slot > 0 {
                assert(before[slot - 1] == entries@[slot - 1]@);
                assert(key_le(entry_key(before[slot - 1]), key));
            }
        }
        let entry: ResolvedStateEntry = ResolvedStateEntry {
            event_type: String::from_str(item.0.0.as_str()),
            state_key: String::from_str(item.0.1.as_str()),
            event_id: String::from_str(item.1.as_str()),
        };
        let ghost text = entry@;
        entries.insert(slot, entry);
        proof {
            let s = slot as int;
            let now = entry_texts(entries@);
            assert(text == source[index as int]);
            assert(now =~= before.insert(s, text));
            to_multiset_insert(before, s, text);
            assert(source.take(index + 1) =~= source.take(index as int).push(text));
            to_multiset_build(source.take(index as int), text);
            assert(entry_key(text) == key);
            assert forall|i: int, j: int| 0 <= i < j < now.len() implies key_le(
                entry_key(#[trigger] now[i]),
                entry_key(#[trigger] now[j]),
            ) by {
                if j < s {
                    assert(now[i] == before[i] && now[j] == before[j]);
                } else if i > s {
                    assert(now[i] == before[i - 1] && now[j] == before[j - 1]);
                } else if i == s {
                    assert(now[j] == before[j - 1]);
                    key_le_total(key, entry_key(before[j - 1]));
                } else if j == s {
                    assert(now[i] == before[i]);
                    if i < s - 1 {
                        key_le_transitive(
                            entry_key(before[i]),
                            entry_key(before[s - 1]),
                            key,
                        );
                    }
                } else {
                    assert(now[i] == before[i] && now[j] == before[j - 1]);
                }
            }
        }
        index = index + 1;
    }
    proof {
        assert(source.take(index as int) =~= source);
    }
    entries
}

/// A state map has one entry for each key, so its sorted list is the only one:
/// two ordered lists with the same entries and distinct keys are equal.
pub proof fn ordered_entries_unique(a: Seq<EntryText>, b: Seq<EntryText>)
    requires
        entries_ordered(a),
        entries_ordered(b),
        a.to_multiset() == b.to_multiset(),
        forall|i: int, j: int|
            0 <= i < j < a.len() ==> entry_key(#[trigger] a[i]) != entry_key(#[trigger] a[j]),
    ensures
        a == b,
    decreases a.len(),
{
    broadcast use vstd::seq_lib::group_to_multiset_ensures;

    assert(a.to_multiset().len() == a.len() && b.to_multiset().len() == b.len());
    if a.len() > 0 {
        let x = a.last();
        let y = b.last();
        assert(a.contains(x) && b.contains(y));
        assert(a.to_multiset().count(x) > 0 && b.to_multiset().count(y) > 0);
        assert(b.contains(x) && a.contains(y));
        let i = choose|i: int| 0 <= i < b.len() && b[i] == x;
        let j = choose|j: int| 0 <= j < a.len() && a[j] == y;
        if x != y {
            assert(i < b.len() - 1 && j < a.len() - 1);
            assert(key_le(entry_key(b[i]), entry_key(b[b.len() - 1])));
            assert(key_le(entry_key(a[j]), entry_key(a[a.len() - 1])));
            crate::state_map::key_le_antisymmetric(entry_key(x), entry_key(y));
        }
        let c = a.drop_last();
        let d = b.drop_last();
        assert(a =~= c.push(x) && b =~= d.push(x));
        to_multiset_build(c, x);
        to_multiset_build(d, x);
        assert(c.to_multiset() =~= a.to_multiset().remove(x));
        assert(d.to_multiset() =~= b.to_multiset().remove(x));
        ordered_entries_unique(c, d);
    } else {
        assert(a =~= b);
    }
}

/// Entries are ordered by type, and those of one type by state key.
pub proof fn order_by_fields(entries: Seq<EntryText>, i: int, j: int)
    requires
        entries_ordered(entries),
        0 <= i < j < entries.len(),
    ensures
        entries[i].event_type != entries[j].event_type ==> text_le(
            entries[i].event_type,
            entries[j].event_type,
        ),
        entries[i].event_type == entries[j].event_type ==> text_le(
            entries[i].state_key,
            entries[j].state_key,
        ),
{
    assert(key_le(entry_key(entries[i]), entry_key(entries[j])));
}

/// Each item of a state map is an entry with its type, its state key and its event.
pub proof fn entries_by_fields(
    state: Seq<((String, String), String)>,
    entries: Seq<ResolvedStateEntry>,
    i: int,
)
    ensures
        map_entries(state).len() == state.len(),
        0 <= i < state.len() ==> map_entries(state)[i].event_type == state[i].0.0@
            && map_entries(state)[i].state_key == state[i].0.1@ && map_entries(state)[i].event_id
            == state[i].1@,
        entry_texts(entries).len() == entries.len(),
        0 <= i < entries.len() ==> entry_texts(entries)[i].event_type == entries[i].event_type@
            && entry_texts(entries)[i].state_key == entries[i].state_key@ && entry_texts(
            entries,
        )[i].event_id == entries[i].event_id@,
{
}

} // verus!
