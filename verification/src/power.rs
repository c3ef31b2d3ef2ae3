//! Room versions and the power levels of senders.

use vstd::prelude::*;
use vstd::string::StringExecFns;
use crate::bytes::text_equal;
use crate::collections::TextMap;
use crate::events::{
    events_wf, json_i64, json_member, member, member_text, number_i64, object_wf, text_member,
    LeanEvent, StateResVersion,
};
use crate::json::Json;
use crate::state_map::optional_view;

verus! {

/// The resolution algorithm of a room version.
pub open spec fn version_of(version: Seq<char>) -> Option<StateResVersion> {
    if version == "1"@ {
        Some(StateResVersion::V1)
    } else if version == "2"@ || version == "3"@ || version == "4"@ || version == "5"@ || version
        == "6"@ || version == "7"@ || version == "8"@ || version == "9"@ || version == "10"@
        || version == "11"@ {
        Some(StateResVersion::V2)
    } else if version == "12"@ {
        Some(StateResVersion::V2_1)
    } else if version == "12.1"@ {
        Some(StateResVersion::V2_1_1)
    } else {
        None
    }
}

/// The resolution algorithm of a room version.
///
/// # Errors
/// Returns a message if the room version is not supported.
pub fn parse_room_version(version: &str) -> (result: Result<StateResVersion, String>)
    ensures
        match result {
            Ok(found) => version_of(version@) == Some(found),
            Err(message) => {
                &&& version_of(version@) is None
                &&& message@ == "Unsupported room version: "@ + version@
            },
        },
{
    if text_equal(version, "1") {
        Ok(StateResVersion::V1)
    } else if text_equal(version, "2") || text_equal(version, "3") || text_equal(version, "4")
        || text_equal(version, "5") || text_equal(version, "6") || text_equal(version, "7")
        || text_equal(version, "8") || text_equal(version, "9") || text_equal(version, "10")
        || text_equal(version, "11") {
        Ok(StateResVersion::V2)
    } else if text_equal(version, "12") {
        Ok(StateResVersion::V2_1)
    } else if text_equal(version, "12.1") {
        Ok(StateResVersion::V2_1_1)
    } else {
        let mut message: String = String::from_str("Unsupported room version: ");
        message.append(version);
        Err(message)
    }
}

/// The room version that a creation event states.
pub open spec fn stated_version(event: Json) -> Option<Seq<char>> {
    if text_member(event, "type"@) == Some("m.room.create"@) {
        match json_member(event, "content"@) {
            Some(content) => text_member(content, "room_version"@),
            None => None,
        }
    } else {
        None
    }
}

/// The first room version that one of the events from a place on states.
pub open spec fn first_version(events: Seq<Json>, from: nat) -> Option<Seq<char>>
    decreases events.len() - from,
{
    if from >= events.len() {
        None
    } else if stated_version(events[from as int]) is Some {
        stated_version(events[from as int])
    } else {
        first_version(events, from + 1)
    }
}

/// The keys of an event and of its content are in order.
pub open spec fn raw_wf(event: Json) -> bool {
    object_wf(event) && (json_member(event, "content"@) matches Some(content) ==> object_wf(
        content,
    ))
}

/// Finds the room version that the first creation event states which states one.
pub fn room_version(events: &[Json]) -> (found: Option<&str>)
    requires
        forall|i: int| 0 <= i < events@.len() ==> raw_wf(#[trigger] events@[i]),
    ensures
        match found {
            Some(version) => first_version(events@, 0) == Some(version@),
            None => first_version(events@, 0) is None,
        },
{
    let mut index: usize = 0;
    while index < events.len()
        invariant
            index <= events.len(),
            forall|i: int| 0 <= i < events@.len() ==> raw_wf(#[trigger] events@[i]),
            first_version(events@, 0) == first_version(events@, index as nat),
        decreases events.len() - index,
    {
        let event: &Json = &events[index];
        proof {
            assert(raw_wf(events@[index as int]));
        }
        let creates: bool = match member_text(event, "type") {
            Some(kind) => text_equal(kind, "m.room.create"),
            None => false,
        };
        if creates {
            match member(event, "content") {
                Some(content) => {
                    match member_text(content, "room_version") {
                        Some(version) => {
                            return Some(version);
                        },
                        None => {},
                    }
                },
                None => {},
            }
        }
        index = index + 1;
    }
    None
}

/// Finds the resolution algorithm for a list of raw events: that of the first
/// creation event which states a room version.
///
/// # Errors
/// Returns a message if no event states a version, or if the version is not
/// supported.
pub fn detect_version(events: &[Json]) -> (result: Result<StateResVersion, String>)
    requires
        forall|i: int| 0 <= i < events@.len() ==> raw_wf(#[trigger] events@[i]),
    ensures
        match first_version(events@, 0) {
            Some(version) => match result {
                Ok(found) => version_of(version) == Some(found),
                Err(message) => {
                    &&& version_of(version) is None
                    &&& message@ == "Unsupported room version: "@ + version
                },
            },
            None => result matches Err(message) && message@
                == "No m.room.create event found — cannot detect room version. Use --state-res to specify the algorithm manually."@,
        },
{
    match room_version(events) {
        Some(version) => parse_room_version(version),
        None => Err(
            String::from_str(
                "No m.room.create event found — cannot detect room version. Use --state-res to specify the algorithm manually.",
            ),
        )
    }
}

/// The event takes part in the resolution of power.
pub open spec fn is_candidate(event: LeanEvent) -> bool {
    ||| event.event_type@ == "m.room.create"@
    ||| event.event_type@ == "m.room.power_levels"@
    ||| event.event_type@ == "m.room.join_rules"@
    ||| event.event_type@ == "m.room.member"@
}

/// The power that an event is sorted with: that of the creator counts.
pub open spec fn candidate_power(event: LeanEvent, creator: Seq<char>) -> int {
    if (creator.len() > 0 && event.sender@ == creator) || event.event_type@ == "m.room.create"@ {
        100
    } else {
        0
    }
}

fn is_power_candidate(event: &LeanEvent) -> (result: bool)
    ensures
        result == is_candidate(*event),
{
    let event_type: &str = event.event_type.as_str();
    text_equal(event_type, "m.room.create") || text_equal(event_type, "m.room.power_levels")
        || text_equal(event_type, "m.room.join_rules") || text_equal(event_type, "m.room.member")
}

/// The powers of those events that take part in the resolution of power.
pub open spec fn candidates(
    events: Seq<(String, LeanEvent)>,
    creator: Seq<char>,
    powers: Seq<Option<i64>>,
) -> bool {
    &&& powers.len() == events.len()
    &&& forall|i: int|
        0 <= i < powers.len() ==> match #[trigger] powers[i] {
            Some(power) => is_candidate(events[i].1) && power == candidate_power(
                events[i].1,
                creator,
            ),
            None => !is_candidate(events[i].1),
        }
}

/// The power that each event is sorted with, where it takes part in the
/// resolution of power.
pub fn power_candidates(events: &TextMap<LeanEvent>, creator_user_id: &str) -> (powers: Vec<
    Option<i64>,
>)
    ensures
        candidates(events.entries@, creator_user_id@, powers@),
{
    let mut powers: Vec<Option<i64>> = Vec::new();
    while powers.len() < events.entries.len()
        invariant
            powers@.len() <= events.entries@.len(),
            forall|i: int|
                0 <= i < powers@.len() ==> match #[trigger] powers@[i] {
                    Some(power) => is_candidate(events.entries@[i].1) && power == candidate_power(
                        events.entries@[i].1,
                        creator_user_id@,
                    ),
                    None => !is_candidate(events.entries@[i].1),
                },
        decreases events.entries.len() - powers.len(),
    {
        let event: &LeanEvent = &events.entries[powers.len()].1;
        if is_power_candidate(event) {
            let created: bool = (!creator_user_id.is_empty() && text_equal(
                event.sender.as_str(),
                creator_user_id,
            )) || text_equal(event.event_type.as_str(), "m.room.create");
            powers.push(
                Some(
                    if created {
                        100
                    } else {
                        0
                    },
                ),
            );
        } else {
            powers.push(None);
        }
    }
    powers
}

/// The id is that of the room's power levels.
pub open spec fn sets_levels(events: TextMap<LeanEvent>, id: Seq<char>) -> bool {
    &&& events.view().contains_key(id)
    &&& events.view()[id].event_type@ == "m.room.power_levels"@
    &&& optional_view(events.view()[id].state_key) == Some(Seq::<char>::empty())
}

/// The last of the first ids that is that of the room's power levels.
pub open spec fn last_levels(
    events: TextMap<LeanEvent>,
    sorted_power_ids: Seq<String>,
    n: nat,
) -> Option<Seq<char>>
    decreases n,
{
    if n == 0 {
        None
    } else if sets_levels(events, sorted_power_ids[n - 1]@) {
        Some(sorted_power_ids[n - 1]@)
    } else {
        last_levels(events, sorted_power_ids, (n - 1) as nat)
    }
}

/// The power level that a power-levels event gives a user.
pub open spec fn level_in(content: Json, user: Seq<char>) -> int {
    let listed = match json_member(content, "users"@) {
        Some(users) => match json_member(users, user) {
            Some(level) => json_i64(level),
            None => None,
        },
        None => None,
    };
    match listed {
        Some(level) => level,
        None => match json_member(content, "users_default"@) {
            Some(level) => match json_i64(level) {
                Some(level) => level,
                None => 0,
            },
            None => 0,
        },
    }
}

/// The power level of a user under the last power-levels event.
pub open spec fn level_of(
    events: TextMap<LeanEvent>,
    sorted_power_ids: Seq<String>,
    user: Seq<char>,
) -> int {
    match last_levels(events, sorted_power_ids, sorted_power_ids.len()) {
        Some(id) => level_in(events.view()[id].content, user),
        None => 0,
    }
}

/// The users of power-levels contents are in order.
pub open spec fn users_wf(events: TextMap<LeanEvent>) -> bool {
    forall|i: int|
        0 <= i < events.entries@.len() ==> (json_member(
            (#[trigger] events.entries@[i]).1.content,
            "users"@,
        ) matches Some(users) ==> object_wf(users))
}

/// The power level that a power-levels event gives a user.
fn content_level(content: &Json, user: &str) -> (level: i64)
    requires
        object_wf(*content),
        json_member(*content, "users"@) matches Some(users) ==> object_wf(users),
    ensures
        level == level_in(*content, user@),
{
    match member(content, "users") {
        Some(users) => {
            match member(users, user) {
                Some(level) => {
                    match number_i64(level) {
                        Some(level) => {
                            return level;
                        },
                        None => {},
                    }
                },
                None => {},
            }
        },
        None => {},
    }
    match member(content, "users_default") {
        Some(level) => match number_i64(level) {
            Some(level) => level,
            None => 0,
        },
        None => 0,
    }
}

/// An event with another power level.
pub open spec fn with_level(event: LeanEvent, level: int) -> LeanEvent {
    LeanEvent { power_level: level as i64, ..event }
}

/// The events with the power level of their senders.
pub open spec fn levels_applied(
    before: TextMap<LeanEvent>,
    sorted_power_ids: Seq<String>,
    after: Seq<(String, LeanEvent)>,
) -> bool {
    &&& after.len() == before.entries@.len()
    &&& forall|i: int|
        0 <= i < after.len() ==> (#[trigger] after[i]).0 == before.entries@[i].0 && after[i].1
            == with_level(
            before.entries@[i].1,
            level_of(before, sorted_power_ids, before.entries@[i].1.sender@),
        )
}

/// Gives every event the power level of its sender under the last power-levels
/// event of the resolved power order. `sorted_power_ids` is that order.
pub fn apply_global_power_levels(events: &mut TextMap<LeanEvent>, sorted_power_ids: &[String])
    requires
        events_wf(*old(events)),
        users_wf(*old(events)),
    ensures
        levels_applied(*old(events), sorted_power_ids@, final(events).entries@),
{
    let ghost before = *events;
    let ghost all = events.entries@;
    let mut source: Option<usize> = None;
    let mut index: usize = 0;
    proof {
        reveal_strlit("");
        assert(""@ =~= Seq::<char>::empty());
    }
    while index < sorted_power_ids.len()
        invariant
            *events == before,
            events_wf(before),
            all == before.entries@,
            ""@ == Seq::<char>::empty(),
            index <= sorted_power_ids.len(),
            match source {
                Some(place) => {
                    &&& place < all.len()
                    &&& last_levels(before, sorted_power_ids@, index as nat) == Some(
                        all[place as int].0@,
                    )
                },
                None => last_levels(before, sorted_power_ids@, index as nat) is None,
            },
        decreases sorted_power_ids.len() - index,
    {
        match events.find(sorted_power_ids[index].as_str()) {
            Some(place) => {
                let event: &LeanEvent = &events.entries[place].1;
                let unkeyed: bool = match &event.state_key {
                    Some(key) => text_equal(key.as_str(), ""),
                    None => false,
                };
                if text_equal(event.event_type.as_str(), "m.room.power_levels") && unkeyed {
                    source = Some(place);
                }
            },
            None => {},
        }
        index = index + 1;
    }
    let mut levels: Vec<i64> = Vec::new();
    while levels.len() < events.entries.len()
        invariant
            *events == before,
            events_wf(before),
            users_wf(before),
            all == before.entries@,
            levels@.len() <= all.len(),
            match source {
                Some(place) => {
                    &&& place < all.len()
                    &&& last_levels(before, sorted_power_ids@, sorted_power_ids@.len()) == Some(
                        all[place as int].0@,
                    )
                },
                None => last_levels(before, sorted_power_ids@, sorted_power_ids@.len()) is None,
            },
            forall|i: int|
                0 <= i < levels@.len() ==> #[trigger] levels@[i] == level_of(
                    before,
                    sorted_power_ids@,
                    all[i].1.sender@,
                ),
        decreases events.entries.len() - levels.len(),
    {
        let user: &str = events.entries[levels.len()].1.sender.as_str();
        let level: i64 = match source {
            Some(place) => {
                proof {
                    before.entry_facts(place as int);
                    assert(object_wf(all[place as int].1.content));
                }
                content_level(&events.entries[place].1.content, user)
            },
            None => 0,
        };
        levels.push(level);
    }
    let mut at: usize = 0;
    while at < events.entries.len()
        invariant
            at <= events.entries@.len(),
            events.entries@.len() == all.len(),
            levels@.len() == all.len(),
            all == before.entries@,
            forall|i: int|
                0 <= i < levels@.len() ==> #[trigger] levels@[i] == level_of(
                    before,
                    sorted_power_ids@,
                    all[i].1.sender@,
                ),
            forall|i: int|
                0 <= i < at ==> (#[trigger] events.entries@[i]).0 == all[i].0
                    && events.entries@[i].1 == with_level(all[i].1, levels@[i] as int),
            forall|i: int| at <= i < all.len() ==> #[trigger] events.entries@[i] == all[i],
        decreases events.entries.len() - at,
    {
        let level: i64 = levels[at];
        events.entries[at].1.power_level = level;
        at = at + 1;
    }
}

} // verus!
