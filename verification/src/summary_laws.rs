//! Where each entry of a state stands in its summary.

use vstd::prelude::*;
use crate::collections::{key_position, TextMap};
use crate::event_laws::{nothing_is_said, says, says_nothing, text_is_said};
use crate::events::{events_wf, LeanEvent, StateResVersion};
use crate::state_map::{optional_view, StateKey};
use crate::summary::{
    conflict_marks, content_text, is_member, known, member_of, member_texts, members_with,
    membership_of, state_entries, state_of, state_texts, summarizes, MemberEntry, StateEntry,
    Summary,
};

verus! {

/// The event with the id stands at the place.
pub open spec fn stands(events: TextMap<LeanEvent>, id: Seq<char>, p: int) -> bool {
    0 <= p < events.entries@.len() && events.entries@[p].0@ == id
}

/// The event with the id says the text under the name; where it says nothing, or
/// where there is no such event, the text is the other.
pub open spec fn tells(
    events: TextMap<LeanEvent>,
    id: Seq<char>,
    name: Seq<char>,
    otherwise: Seq<char>,
    text: Seq<char>,
) -> bool {
    ||| exists|p: int| #[trigger]
        stands(events, id, p) && says(events.entries@[p].1.content, name, text)
    ||| text == otherwise && forall|p: int| #[trigger]
        stands(events, id, p) ==> says_nothing(events.entries@[p].1.content, name)
}

/// The event with the id has the depth, or there is none and the depth is zero.
pub open spec fn lies(events: TextMap<LeanEvent>, id: Seq<char>, depth: u64) -> bool {
    &&& forall|p: int| #[trigger] stands(events, id, p) ==> events.entries@[p].1.depth == depth
    &&& (forall|p: int| !#[trigger] stands(events, id, p)) ==> depth == 0
}

/// The event with the id is the sender's, or there is none and the sender is unknown.
pub open spec fn sent(events: TextMap<LeanEvent>, id: Seq<char>, sender: Seq<char>) -> bool {
    &&& forall|p: int| #[trigger] stands(events, id, p) ==> events.entries@[p].1.sender@ == sender
    &&& (forall|p: int| !#[trigger] stands(events, id, p)) ==> sender == "?"@
}

/// What is listed of a member.
pub open spec fn shows_member(
    events: TextMap<LeanEvent>,
    entry: (StateKey, String),
    listed: MemberEntry,
) -> bool {
    &&& optional_view(listed.user_id) == optional_view(entry.0.state_key)
    &&& listed.event_id@ == entry.1@
    &&& tells(events, entry.1@, "displayname"@, Seq::empty(), listed.displayname@)
    &&& lies(events, entry.1@, listed.depth)
}

/// What is listed of another entry of the state.
pub open spec fn shows_state(
    events: TextMap<LeanEvent>,
    entry: (StateKey, String),
    listed: StateEntry,
) -> bool {
    &&& listed.event_type@ == entry.0.event_type@
    &&& optional_view(listed.state_key) == optional_view(entry.0.state_key)
    &&& listed.event_id@ == entry.1@
    &&& sent(events, entry.1@, listed.sender@)
    &&& lies(events, entry.1@, listed.depth)
}

/// Places below a bound, in order.
pub open spec fn ascending(places: Seq<int>, n: int) -> bool {
    &&& forall|j: int| 0 <= j < places.len() ==> 0 <= #[trigger] places[j] < n
    &&& forall|j: int, k: int|
        0 <= j < k < places.len() ==> #[trigger] places[j] < #[trigger] places[k]
}

spec fn member_places(
    events: TextMap<LeanEvent>,
    entries: Seq<(StateKey, String)>,
    membership: Seq<char>,
    n: nat,
) -> Seq<int>
    decreases n,
{
    if n == 0 {
        Seq::empty()
    } else {
        let before = member_places(events, entries, membership, (n - 1) as nat);
        if is_member(entries[n - 1]) && membership_of(events, entries[n - 1]) == membership {
            before.push(n - 1)
        } else {
            before
        }
    }
}

spec fn state_places(entries: Seq<(StateKey, String)>, n: nat) -> Seq<int>
    decreases n,
{
    if n == 0 {
        Seq::empty()
    } else {
        let before = state_places(entries, (n - 1) as nat);
        if is_member(entries[n - 1]) {
            before
        } else {
            before.push(n - 1)
        }
    }
}

proof fn member_places_facts(
    events: TextMap<LeanEvent>,
    entries: Seq<(StateKey, String)>,
    membership: Seq<char>,
    n: nat,
)
    requires
        n <= entries.len(),
    ensures
        ({
            let places = member_places(events, entries, membership, n);
            let members = members_with(events, entries, membership, n);
            &&& ascending(places, n as int)
            &&& members.len() == places.len()
            &&& forall|j: int|
                0 <= j < places.len() ==> members[j] == member_of(events, entries[#[trigger] places[j]])
            &&& forall|i: int|
                0 <= i < n ==> (#[trigger] places.contains(i) <==> is_member(entries[i])
                    && membership_of(events, entries[i]) == membership)
        }),
    decreases n,
{
    if n > 0 {
        member_places_facts(events, entries, membership, (n - 1) as nat);
        let before = member_places(events, entries, membership, (n - 1) as nat);
        let places = member_places(events, entries, membership, n);
        assert forall|i: int| 0 <= i < n implies (#[trigger] places.contains(i) <==> is_member(
            entries[i],
        ) && membership_of(events, entries[i]) == membership) by {
            if i < n - 1 {
                assert(before.contains(i) <==> is_member(entries[i]) && membership_of(
                    events,
                    entries[i],
                ) == membership);
                if before.contains(i) {
                    let j = before.index_of(i);
                    assert(places[j] == i);
                }
            } else if is_member(entries[i]) && membership_of(events, entries[i]) == membership {
                assert(places[before.len() as int] == i);
            }
        }
    }
}

proof fn state_places_facts(
    events: TextMap<LeanEvent>,
    entries: Seq<(StateKey, String)>,
    n: nat,
)
    requires
        n <= entries.len(),
    ensures
        ({
            let places = state_places(entries, n);
            let state = state_entries(events, entries, n);
            &&& ascending(places, n as int)
            &&& state.len() == places.len()
            &&& forall|j: int|
                0 <= j < places.len() ==> state[j] == state_of(events, entries[#[trigger] places[j]])
            &&& forall|i: int|
                0 <= i < n ==> (#[trigger] places.contains(i) <==> !is_member(entries[i]))
        }),
    decreases n,
{
    if n > 0 {
        state_places_facts(events, entries, (n - 1) as nat);
        let before = state_places(entries, (n - 1) as nat);
        let places = state_places(entries, n);
        assert forall|i: int| 0 <= i < n implies (#[trigger] places.contains(i) <==> !is_member(
            entries[i],
        )) by {
            if i < n - 1 {
                assert(before.contains(i) <==> !is_member(entries[i]));
                if before.contains(i) {
                    let j = before.index_of(i);
                    assert(places[j] == i);
                }
            } else if !is_member(entries[i]) {
                assert(places[before.len() as int] == i);
            }
        }
    }
}

proof fn one_place(events: TextMap<LeanEvent>, id: Seq<char>)
    requires
        events_wf(events),
    ensures
        known(events, id) matches Some(event) ==> exists|p: int| #[trigger]
            stands(events, id, p) && events.entries@[p].1 == event,
        known(events, id) is None ==> forall|p: int| !#[trigger] stands(events, id, p),
        forall|p: int| #[trigger]
            stands(events, id, p) ==> known(events, id) == Some(events.entries@[p].1),
{
    if known(events, id) is Some {
        let p = key_position(events.entries@, id);
        assert(stands(events, id, p));
    }
    assert forall|p: int| #[trigger] stands(events, id, p) implies known(events, id) == Some(
        events.entries@[p].1,
    ) by {
        events.entry_facts(p);
    }
}

proof fn content_is_told(
    events: TextMap<LeanEvent>,
    id: Seq<char>,
    name: Seq<char>,
    otherwise: Seq<char>,
    text: Seq<char>,
)
    requires
        events_wf(events),
    ensures
        content_text(known(events, id), name, otherwise) == text <==> tells(
            events,
            id,
            name,
            otherwise,
            text,
        ),
{
    one_place(events, id);
    if let Some(event) = known(events, id) {
        let p = choose|p: int| #[trigger] stands(events, id, p) && events.entries@[p].1 == event;
        text_is_said(event.content, name, text);
        nothing_is_said(event.content, name);
        assert(stands(events, id, p));
    }
}

/// A membership's group lists exactly the members whose events say it, in the order of
/// the state, each with its user, its name and its event. A member whose event is not
/// known, or says no membership, is in the group of the unknown.
pub proof fn members_by_fields(
    events: TextMap<LeanEvent>,
    entries: Seq<(StateKey, String)>,
    summary: Summary,
    membership: Seq<char>,
)
    requires
        events_wf(events),
        summarizes(events, entries, summary),
    ensures
        exists|places: Seq<int>|
            {
                &&& #[trigger] ascending(places, entries.len() as int)
                &&& forall|i: int|
                    0 <= i < entries.len() ==> (#[trigger] places.contains(i) <==> (
                    entries[i].0.event_type@ == "m.room.member"@ && tells(
                        events,
                        entries[i].1@,
                        "membership"@,
                        "unknown"@,
                        membership,
                    )))
                &&& places.len() == 0 <==> !summary.members.view().contains_key(membership)
                &&& places.len() > 0 ==> {
                    &&& summary.members.view()[membership]@.len() == places.len()
                    &&& forall|j: int|
                        0 <= j < places.len() ==> shows_member(
                            events,
                            entries[#[trigger] places[j]],
                            summary.members.view()[membership]@[j],
                        )
                }
            },
{
    let n = entries.len();
    let places = member_places(events, entries, membership, n);
    let members = members_with(events, entries, membership, n);
    member_places_facts(events, entries, membership, n);
    assert(summary.members.view().contains_key(membership) <==> members.len() > 0);
    assert forall|i: int| 0 <= i < n implies (#[trigger] places.contains(i) <==> (
    entries[i].0.event_type@ == "m.room.member"@ && tells(
        events,
        entries[i].1@,
        "membership"@,
        "unknown"@,
        membership,
    ))) by {
        content_is_told(events, entries[i].1@, "membership"@, "unknown"@, membership);
    }
    if places.len() > 0 {
        let listed = summary.members.view()[membership]@;
        assert(member_texts(listed) == members);
        assert forall|j: int| 0 <= j < places.len() implies shows_member(
            events,
            entries[#[trigger] places[j]],
            listed[j],
        ) by {
            let entry = entries[places[j]];
            assert(member_texts(listed)[j] == listed[j]@);
            one_place(events, entry.1@);
            reveal_strlit("");
            assert(""@ =~= Seq::<char>::empty());
            content_is_told(
                events,
                entry.1@,
                "displayname"@,
                Seq::empty(),
                listed[j].displayname@,
            );
        }
    }
    assert(ascending(places, n as int));
}

/// The rest of the state is listed in its order, nothing lost and nothing added, each
/// entry with its type, its key, its event and who sent it.
pub proof fn state_by_fields(
    events: TextMap<LeanEvent>,
    entries: Seq<(StateKey, String)>,
    summary: Summary,
)
    requires
        events_wf(events),
        summarizes(events, entries, summary),
    ensures
        exists|places: Seq<int>|
            {
                &&& #[trigger] ascending(places, entries.len() as int)
                &&& forall|i: int|
                    0 <= i < entries.len() ==> (#[trigger] places.contains(i) <==>
                    entries[i].0.event_type@ != "m.room.member"@)
                &&& summary.state@.len() == places.len()
                &&& forall|j: int|
                    0 <= j < places.len() ==> shows_state(
                        events,
                        entries[#[trigger] places[j]],
                        summary.state@[j],
                    )
            },
{
    let n = entries.len();
    let places = state_places(entries, n);
    state_places_facts(events, entries, n);
    let listed = summary.state@;
    assert(state_texts(listed).len() == listed.len());
    assert forall|j: int| 0 <= j < places.len() implies shows_state(
        events,
        entries[#[trigger] places[j]],
        listed[j],
    ) by {
        let entry = entries[places[j]];
        assert(state_texts(listed)[j] == listed[j]@);
        one_place(events, entry.1@);
    }
    assert(ascending(places, n as int));
}

/// Resolution works on the events in dispute and on those in the difference of the
/// authorities; only the two latest algorithms take in the subgraph between them.
pub proof fn conflicts_by_version(
    disputed: Seq<bool>,
    difference: Seq<u32>,
    subgraph: Seq<usize>,
    version: StateResVersion,
    marks: Seq<bool>,
    i: int,
)
    requires
        conflict_marks(disputed, difference, subgraph, version, marks),
        0 <= i < disputed.len(),
    ensures
        marks.len() == disputed.len(),
        disputed[i] ==> marks[i],
        forall|k: int| 0 <= k < difference.len() && #[trigger] difference[k] == i ==> marks[i],
        version is V2_1 || version is V2_1_1 ==> forall|k: int|
            0 <= k < subgraph.len() && #[trigger] subgraph[k] == i ==> marks[i],
        marks[i] ==> disputed[i] || (exists|k: int|
            0 <= k < difference.len() && #[trigger] difference[k] == i) || ((version is V2_1
            || version is V2_1_1) && exists|k: int|
            0 <= k < subgraph.len() && #[trigger] subgraph[k] == i),
{
    assert(marks[i] <==> marks[i]);
}

} // verus!
