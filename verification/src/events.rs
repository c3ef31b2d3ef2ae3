//! Room events, reduced to what resolution reads.

use vstd::prelude::*;
use vstd::string::StringExecFns;
use crate::bytes::text_equal;
use crate::collections::TextMap;
use crate::json::Json;
use crate::state_map::{optional_view, KeyText, StateKey};

verus! {

/// A version of the state resolution algorithm.
#[derive(Debug, Clone, Copy, PartialEq, Eq, Structural)]
pub enum StateResVersion {
    V1,
    V2,
    V2_1,
    V2_1_1,
    V2_2,
}

/// A room event.
#[derive(Debug, PartialEq, Eq)]
pub struct LeanEvent {
    pub event_id: String,
    pub event_type: String,
    pub state_key: Option<String>,
    /// The event has a state key field, be it null.
    pub is_state: bool,
    pub sender: String,
    pub power_level: i64,
    pub origin_server_ts: u64,
    pub depth: u64,
    pub prev_events: Vec<String>,
    pub auth_events: Vec<String>,
    pub content: Json,
}

impl LeanEvent {
    /// The type and the state key.
    pub open spec fn key(&self) -> KeyText {
        (self.event_type@, optional_view(self.state_key))
    }

    /// The type and the state key.
    pub fn state_key_pair(&self) -> (key: StateKey)
        ensures
            key@ == self.key(),
    {
        let state_key: Option<String> = match &self.state_key {
            Some(text) => Some(String::from_str(text.as_str())),
            None => None,
        };
        StateKey { event_type: String::from_str(self.event_type.as_str()), state_key }
    }

    /// The membership that the content gives.
    pub open spec fn membership(&self) -> Option<Seq<char>> {
        text_member(self.content, "membership"@)
    }

    /// A member event that bans the user, or takes a user other than the sender
    /// out of the room.
    pub open spec fn bans_or_kicks(&self) -> bool {
        &&& self.event_type@ == "m.room.member"@
        &&& {
            ||| self.membership() == Some("ban"@)
            ||| self.membership() == Some("leave"@) && optional_view(self.state_key) != Some(
                self.sender@,
            )
        }
    }

    /// Whether the event is a ban or a kick.
    pub fn is_ban_or_kick(&self) -> (result: bool)
        requires
            object_wf(self.content),
        ensures
            result == self.bans_or_kicks(),
    {
        if !text_equal(self.event_type.as_str(), "m.room.member") {
            return false;
        }
        match member_text(&self.content, "membership") {
            Some(membership) => {
                if text_equal(membership, "ban") {
                    true
                } else if text_equal(membership, "leave") {
                    match &self.state_key {
                        Some(target) => !text_equal(target.as_str(), self.sender.as_str()),
                        None => true,
                    }
                } else {
                    false
                }
            },
            None => false,
        }
    }
}

/// The keys of an object are in strictly ascending order.
pub open spec fn object_wf(value: Json) -> bool {
    value matches Json::Object(object) ==> object.wf()
}

/// The value of an object's member.
pub open spec fn json_member(value: Json, name: Seq<char>) -> Option<Json> {
    match value {
        Json::Object(object) => if object.view().contains_key(name) {
            Some(object.view()[name])
        } else {
            None
        },
        _ => None,
    }
}

/// The text of an object's member.
pub open spec fn text_member(value: Json, name: Seq<char>) -> Option<Seq<char>> {
    match json_member(value, name) {
        Some(Json::Text(text)) => Some(text@),
        _ => None,
    }
}

/// A number that fits in 64 bits with a sign.
pub open spec fn json_i64(value: Json) -> Option<int> {
    match value {
        Json::Integer(n) => Some(n as int),
        Json::Unsigned(n) => if n <= i64::MAX {
            Some(n as int)
        } else {
            None
        },
        _ => None,
    }
}

/// The value of an object's member.
pub fn member<'a>(value: &'a Json, name: &str) -> (found: Option<&'a Json>)
    requires
        object_wf(*value),
    ensures
        match found {
            Some(found) => json_member(*value, name@) == Some(*found),
            None => json_member(*value, name@) is None,
        },
{
    match value {
        Json::Object(object) => object.get(name),
        _ => None,
    }
}

/// The text of an object's member.
pub fn member_text<'a>(value: &'a Json, name: &str) -> (found: Option<&'a str>)
    requires
        object_wf(*value),
    ensures
        match found {
            Some(found) => text_member(*value, name@) == Some(found@),
            None => text_member(*value, name@) is None,
        },
{
    match member(value, name) {
        Some(found) => match found {
            Json::Text(text) => Some(text.as_str()),
            _ => None,
        },
        None => None,
    }
}

/// A number that fits in 64 bits with a sign.
pub fn number_i64(value: &Json) -> (found: Option<i64>)
    ensures
        match found {
            Some(n) => json_i64(*value) == Some(n as int),
            None => json_i64(*value) is None,
        },
{
    match value {
        Json::Integer(n) => Some(*n),
        Json::Unsigned(n) => if *n <= i64::MAX as u64 {
            Some(*n as i64)
        } else {
            None
        },
        _ => None,
    }
}

/// Events by their ids.
pub open spec fn events_wf(events: TextMap<LeanEvent>) -> bool {
    &&& events.wf()
    &&& forall|i: int|
        0 <= i < events.entries@.len() ==> (#[trigger] events.entries@[i]).0@
            == events.entries@[i].1.event_id@ && object_wf(events.entries@[i].1.content)
}

} // verus!
