//! A summary of a room's resolved state: its members by membership, and the
//! rest of the state.

use vstd::prelude::*;
use vstd::string::StringExecFns;
use crate::bytes::text_equal;
use crate::collections::TextMap;
use crate::events::{events_wf, member_text, text_member, LeanEvent, StateResVersion};
use crate::state_map::{optional_view, StateKey, StateMap};

verus! {

/// A member of the room.
#[derive(Debug, Clone, PartialEq, Eq)]
pub struct MemberEntry {
    pub user_id: Option<String>,
    pub displayname: String,
    pub event_id: String,
    pub depth: u64,
}

/// A state event that is no membership.
#[derive(Debug, Clone, PartialEq, Eq)]
pub struct StateEntry {
    pub event_type: String,
    pub state_key: Option<String>,
    pub event_id: String,
    pub sender: String,
    pub depth: u64,
}

/// The members of a room by membership, and the rest of its state.
#[derive(Debug, PartialEq, Eq)]
pub struct Summary {
    pub members: TextMap<Vec<MemberEntry>>,
    pub state: Vec<StateEntry>,
}

/// What a member entry holds.
pub struct MemberText {
    pub user_id: Option<Seq<char>>,
    pub displayname: Seq<char>,
    pub event_id: Seq<char>,
    pub depth: u64,
}

/// What a state entry holds.
pub struct StateText {
    pub event_type: Seq<char>,
    pub state_key: Option<Seq<char>>,
    pub event_id: Seq<char>,
    pub sender: Seq<char>,
    pub depth: u64,
}

impl View for MemberEntry {
    type V = MemberText;

    open spec fn view(&self) -> MemberText {
        MemberText {
            user_id: optional_view(self.user_id),
            displayname: self.displayname@,
            event_id: self.event_id@,
            depth: self.depth,
        }
    }
}

impl View for StateEntry {
    type V = StateText;

    open spec fn view(&self) -> StateText {
        StateText {
            event_type: self.event_type@,
            state_key: optional_view(self.state_key),
            event_id: self.event_id@,
            sender: self.sender@,
            depth: self.depth,
        }
    }
}

/// The known event with an id.
pub open spec fn known(events: TextMap<LeanEvent>, id: Seq<char>) -> Option<LeanEvent> {
    if events.view().contains_key(id) {
        Some(events.view()[id])
    } else {
        None
    }
}

/// The entry is one of a member.
pub open spec fn is_member(entry: (StateKey, String)) -> bool {
    entry.0.event_type@ == "m.room.member"@
}

/// A text in the content of an event, or another where there is none.
pub open spec fn content_text(
    event: Option<LeanEvent>,
    name: Seq<char>,
    otherwise: Seq<char>,
) -> Seq<char> {
    match event {
        Some(event) => match text_member(event.content, name) {
            Some(text) => text,
            None => otherwise,
        },
        None => otherwise,
    }
}

/// The membership of a member entry.
pub open spec fn membership_of(events: TextMap<LeanEvent>, entry: (StateKey, String)) -> Seq<char> {
    content_text(known(events, entry.1@), "membership"@, "unknown"@)
}

/// The depth of an event that may be unknown.
pub open spec fn depth_of(event: Option<LeanEvent>) -> u64 {
    match event {
        Some(event) => event.depth,
        None => 0,
    }
}

/// The entry of a member.
pub open spec fn member_of(events: TextMap<LeanEvent>, entry: (StateKey, String)) -> MemberText {
    let event = known(events, entry.1@);
    MemberText {
        user_id: optional_view(entry.0.state_key),
        displayname: content_text(event, "displayname"@, ""@),
        event_id: entry.1@,
        depth: depth_of(event),
    }
}

/// The entry of a state event.
pub open spec fn state_of(events: TextMap<LeanEvent>, entry: (StateKey, String)) -> StateText {
    let event = known(events, entry.1@);
    StateText {
        event_type: entry.0.event_type@,
        state_key: optional_view(entry.0.state_key),
        event_id: entry.1@,
        sender: match event {
            Some(event) => event.sender@,
            None => "?"@,
        },
        depth: depth_of(event),
    }
}

/// The members with a membership among the first entries, in order.
pub open spec fn members_with(
    events: TextMap<LeanEvent>,
    entries: Seq<(StateKey, String)>,
    membership: Seq<char>,
    n: nat,
) -> Seq<MemberText>
    decreases n,
{
    if n == 0 {
        Seq::empty()
    } else {
        let before = members_with(events, entries, membership, (n - 1) as nat);
        let entry = entries[n - 1];
        if is_member(entry) && membership_of(events, entry) == membership {
            before.push(member_of(events, entry))
        } else {
            before
        }
    }
}

/// The state entries among the first entries, in order.
pub open spec fn state_entries(
    events: TextMap<LeanEvent>,
    entries: Seq<(StateKey, String)>,
    n: nat,
) -> Seq<StateText>
    decreases n,
{
    if n == 0 {
        Seq::empty()
    } else {
        let before = state_entries(events, entries, (n - 1) as nat);
        if is_member(entries[n - 1]) {
            before
        } else {
            before.push(state_of(events, entries[n - 1]))
        }
    }
}

/// The contents of member entries.
pub open spec fn member_texts(members: Seq<MemberEntry>) -> Seq<MemberText> {
    members.map_values(|member: MemberEntry| member@)
}

/// The contents of state entries.
pub open spec fn state_texts(state: Seq<StateEntry>) -> Seq<StateText> {
    state.map_values(|entry: StateEntry| entry@)
}

/// The groups hold the members with each membership among the first entries.
pub open spec fn groups_upto(
    events: TextMap<LeanEvent>,
    entries: Seq<(StateKey, String)>,
    n: nat,
    members: TextMap<Vec<MemberEntry>>,
) -> bool {
    &&& members.wf()
    &&& forall|membership: Seq<char>| #[trigger]
        members.view().contains_key(membership) <==> members_with(
            events,
            entries,
            membership,
            n,
        ).len() > 0
    &&& forall|membership: Seq<char>| #[trigger]
        members.view().contains_key(membership) ==> member_texts(members.view()[membership]@)
            == members_with(events, entries, membership, n)
}

fn copy_optional(text: &Option<String>) -> (copy: Option<String>)
    ensures
        optional_view(copy) == optional_view(*text),
{
    match text {
        Some(text) => Some(String::from_str(text.as_str())),
        None => None,
    }
}

/// A text in the content of an event, or another where there is none.
fn content_or<'a>(event: Option<&'a LeanEvent>, name: &str, otherwise: &'a str) -> (text: &'a str)
    requires
        event matches Some(event) ==> crate::events::object_wf(event.content),
    ensures
        text@ == content_text(
            match event {
                Some(event) => Some(*event),
                None => None,
            },
            name@,
            otherwise@,
        ),
{
    match event {
        Some(event) => match member_text(&event.content, name) {
            Some(text) => text,
            None => otherwise,
        },
        None => otherwise,
    }
}

/// Puts a member into the group of its membership.
fn add_member(members: &mut TextMap<Vec<MemberEntry>>, membership: &str, entry: MemberEntry)
    requires
        old(members).wf(),
    ensures
        final(members).wf(),
        forall|key: Seq<char>| #[trigger]
            final(members).view().contains_key(key) <==> old(members).view().contains_key(key)
                || key == membership@,
        forall|key: Seq<char>|
            key != membership@ && #[trigger] old(members).view().contains_key(key)
                ==> final(members).view()[key] == old(members).view()[key],
        member_texts(final(members).view()[membership@]@) == (if old(members).view().contains_key(
            membership@,
        ) {
            member_texts(old(members).view()[membership@]@)
        } else {
            Seq::empty()
        }).push(entry@),
{
    let ghost before = *members;
    let mut group: Vec<MemberEntry> = match members.get(membership) {
        Some(held) => copy_members(held),
        None => Vec::new(),
    };
    let ghost held = group@;
    let ghost added = entry@;
    group.push(entry);
    let ghost filled = group@;
    members.insert(String::from_str(membership), group);
    proof {
        assert(member_texts(filled) =~= member_texts(held).push(added));
        assert(member_texts(Seq::<MemberEntry>::empty()) =~= Seq::<MemberText>::empty());
        assert forall|key: Seq<char>| #[trigger]
            members.view().contains_key(key) <==> before.view().contains_key(key) || key
                == membership@ by {}
    }
}

fn copy_members(members: &Vec<MemberEntry>) -> (copy: Vec<MemberEntry>)
    ensures
        member_texts(copy@) == member_texts(members@),
{
    let mut copy: Vec<MemberEntry> = Vec::new();
    while copy.len() < members.len()
        invariant
            copy@.len() <= members@.len(),
            forall|i: int| 0 <= i < copy@.len() ==> (#[trigger] copy@[i])@ == members@[i]@,
        decreases members.len() - copy.len(),
    {
        let member: &MemberEntry = &members[copy.len()];
        copy.push(
            MemberEntry {
                user_id: copy_optional(&member.user_id),
                displayname: String::from_str(member.displayname.as_str()),
                event_id: String::from_str(member.event_id.as_str()),
                depth: member.depth,
            },
        );
    }
    proof {
        assert(member_texts(copy@) =~= member_texts(members@));
    }
    copy
}

/// The summary of a state's entries.
pub open spec fn summarizes(
    events: TextMap<LeanEvent>,
    entries: Seq<(StateKey, String)>,
    summary: Summary,
) -> bool {
    &&& groups_upto(events, entries, entries.len(), summary.members)
    &&& state_texts(summary.state@) == state_entries(events, entries, entries.len())
}

/// Summarizes a resolved state. Members are grouped by membership and listed by
/// user id; the rest of the state is listed by type and state key.
pub fn summarize(final_state: &StateMap<String>, events: &TextMap<LeanEvent>) -> (summary: Summary)
    requires
        final_state.wf(),
        events_wf(*events),
    ensures
        summarizes(*events, final_state.entries@, summary),
{
    let ghost entries = final_state.entries@;
    let mut members: TextMap<Vec<MemberEntry>> = TextMap::new();
    let mut state: Vec<StateEntry> = Vec::new();
    let mut index: usize = 0;
    proof {
        assert(state_texts(state@) =~= Seq::empty());
    }
    while index < final_state.entries.len()
        invariant
            entries == final_state.entries@,
            events_wf(*events),
            index <= final_state.entries.len(),
            groups_upto(*events, entries, index as nat, members),
            state_texts(state@) == state_entries(*events, entries, index as nat),
        decreases final_state.entries.len() - index,
    {
        let entry: &(StateKey, String) = &final_state.entries[index];
        let event: Option<&LeanEvent> = events.get(entry.1.as_str());
        proof {
            if event is Some {
                let place = crate::collections::key_position(events.entries@, entry.1@);
                assert(crate::collections::has_key(events.entries@, entry.1@));
                assert(crate::events::object_wf(events.entries@[place].1.content));
            }
        }
        let depth: u64 = match event {
            Some(event) => event.depth,
            None => 0,
        };
        if text_equal(entry.0.event_type.as_str(), "m.room.member") {
            let membership: &str = content_or(event, "membership", "unknown");
            let displayname: &str = content_or(event, "displayname", "");
            let ghost before = members;
            let listed: MemberEntry = MemberEntry {
                user_id: copy_optional(&entry.0.state_key),
                displayname: String::from_str(displayname),
                event_id: String::from_str(entry.1.as_str()),
                depth,
            };
            let ghost added = listed@;
            add_member(&mut members, membership, listed);
            proof {
                assert(added == member_of(*events, *entry));
                assert(membership@ == membership_of(*events, *entry));
                let n = index as nat;
                assert forall|key: Seq<char>| #[trigger]
                    members.view().contains_key(key) <==> members_with(
                        *events,
                        entries,
                        key,
                        n + 1,
                    ).len() > 0 by {
                    assert(before.view().contains_key(key) <==> members_with(
                        *events,
                        entries,
                        key,
                        n,
                    ).len() > 0);
                }
                assert forall|key: Seq<char>| #[trigger]
                    members.view().contains_key(key) implies member_texts(members.view()[key]@)
                    == members_with(*events, entries, key, n + 1) by {
                    assert(before.view().contains_key(key) <==> members_with(
                        *events,
                        entries,
                        key,
                        n,
                    ).len() > 0);
                    if key == membership@ && !before.view().contains_key(key) {
                        assert(members_with(*events, entries, key, n) =~= Seq::empty());
                    }
                }
            }
        } else {
            let sender: &str = match event {
                Some(event) => event.sender.as_str(),
                None => "?",
            };
            let ghost listed = state@;
            let added: StateEntry = StateEntry {
                event_type: String::from_str(entry.0.event_type.as_str()),
                state_key: copy_optional(&entry.0.state_key),
                event_id: String::from_str(entry.1.as_str()),
                sender: String::from_str(sender),
                depth,
            };
            let ghost text = added@;
            state.push(added);
            proof {
                assert(text == state_of(*events, *entry));
                assert(state_texts(state@) =~= state_texts(listed).push(text));
                let n = index as nat;
                assert forall|key: Seq<char>| #[trigger] members_with(
                    *events,
                    entries,
                    key,
                    n + 1,
                ) == members_with(*events, entries, key, n) by {}
            }
        }
        index = index + 1;
    }
    Summary { members, state }
}

/// Whether resolution takes in the subgraph between conflicting events.
pub open spec fn takes_subgraph(version: StateResVersion) -> bool {
    version == StateResVersion::V2_1 || version == StateResVersion::V2_1_1
}

/// The marks of the events that resolution works on.
pub open spec fn conflict_marks(
    disputed: Seq<bool>,
    difference: Seq<u32>,
    subgraph: Seq<usize>,
    version: StateResVersion,
    marks: Seq<bool>,
) -> bool {
    &&& marks.len() == disputed.len()
    &&& forall|i: int|
        0 <= i < marks.len() ==> (#[trigger] marks[i] <==> disputed[i] || (exists|k: int|
            0 <= k < difference.len() && #[trigger] difference[k] == i) || (takes_subgraph(version)
            && exists|k: int| 0 <= k < subgraph.len() && #[trigger] subgraph[k] == i))
}

/// The events that resolution works on: those in dispute, those in the
/// difference of the auth chains and, in the versions that ask for it, those in
/// the subgraph between conflicting events. Events are given by their places.
pub fn conflicted_events(
    disputed: &Vec<bool>,
    difference: &Vec<u32>,
    subgraph: &Vec<usize>,
    version: StateResVersion,
) -> (marks: Vec<bool>)
    requires
        forall|i: int|
            0 <= i < difference@.len() ==> (#[trigger] difference@[i]) < disputed@.len(),
        forall|i: int| 0 <= i < subgraph@.len() ==> (#[trigger] subgraph@[i]) < disputed@.len(),
    ensures
        conflict_marks(disputed@, difference@, subgraph@, version, marks@),
{
    let mut marks: Vec<bool> = Vec::new();
    while marks.len() < disputed.len()
        invariant
            marks@.len() <= disputed@.len(),
            forall|i: int| 0 <= i < marks@.len() ==> #[trigger] marks@[i] == disputed@[i],
        decreases disputed.len() - marks.len(),
    {
        let mark: bool = disputed[marks.len()];
        marks.push(mark);
    }
    let mut at: usize = 0;
    while at < difference.len()
        invariant
            at <= difference.len(),
            marks@.len() == disputed@.len(),
            forall|i: int|
                0 <= i < difference@.len() ==> (#[trigger] difference@[i]) < disputed@.len(),
            forall|i: int|
                0 <= i < marks@.len() ==> (#[trigger] marks@[i] <==> disputed@[i] || (exists|
                    k: int,
                |
                    0 <= k < at && #[trigger] difference@[k] == i)),
        decreases difference.len() - at,
    {
        let ghost before = marks@;
        marks.set(difference[at] as usize, true);
        proof {
            assert forall|i: int| 0 <= i < marks@.len() implies (#[trigger] marks@[i]
                <==> disputed@[i] || (exists|k: int|
                0 <= k < at + 1 && #[trigger] difference@[k] == i)) by {
                assert(before[i] <==> disputed@[i] || (exists|k: int|
                    0 <= k < at && #[trigger] difference@[k] == i));
                if i == difference@[at as int] {
                    assert(marks@[i]);
                }
            }
        }
        at = at + 1;
    }
    if matches!(version, StateResVersion::V2_1 | StateResVersion::V2_1_1) {
        let ghost base = marks@;
        let mut place: usize = 0;
        while place < subgraph.len()
            invariant
                place <= subgraph.len(),
                marks@.len() == disputed@.len(),
                base.len() == disputed@.len(),
                forall|i: int|
                    0 <= i < subgraph@.len() ==> (#[trigger] subgraph@[i]) < disputed@.len(),
                forall|i: int|
                    0 <= i < marks@.len() ==> (#[trigger] marks@[i] <==> base[i] || (exists|
                        k: int,
                    |
                        0 <= k < place && #[trigger] subgraph@[k] == i)),
            decreases subgraph.len() - place,
        {
            let ghost before = marks@;
            marks.set(subgraph[place], true);
            proof {
                assert forall|i: int| 0 <= i < marks@.len() implies (#[trigger] marks@[i]
                    <==> base[i] || (exists|k: int|
                    0 <= k < place + 1 && #[trigger] subgraph@[k] == i)) by {
                    assert(before[i] <==> base[i] || (exists|k: int|
                        0 <= k < place && #[trigger] subgraph@[k] == i));
                    if i == subgraph@[place as int] {
                        assert(marks@[i]);
                    }
                }
            }
            place = place + 1;
        }
        proof {
            assert forall|i: int| 0 <= i < marks@.len() implies (#[trigger] marks@[i]
                <==> disputed@[i] || (exists|k: int|
                0 <= k < difference@.len() && #[trigger] difference@[k] == i) || (takes_subgraph(
                version,
            ) && exists|k: int| 0 <= k < subgraph@.len() && #[trigger] subgraph@[k] == i)) by {
                assert(base[i] == base[i]);
            }
        }
    }
    marks
}

} // verus!
