//! What the content of an event says, entry by entry.

use vstd::prelude::*;
use crate::collections::key_position;
use crate::events::{json_i64, json_member, object_wf, text_member};
use crate::json::Json;

verus! {

/// A value is an object with an entry of the name and the value.
pub open spec fn has_entry(value: Json, name: Seq<char>, held: Json) -> bool {
    value matches Json::Object(object) && exists|i: int|
        0 <= i < object.entries@.len() && (#[trigger] object.entries@[i]).0@ == name
            && object.entries@[i].1 == held
}

/// A value is an object with an entry of the name that is the text.
pub open spec fn says(value: Json, name: Seq<char>, text: Seq<char>) -> bool {
    value matches Json::Object(object) && exists|i: int|
        0 <= i < object.entries@.len() && (#[trigger] object.entries@[i]).0@ == name && (
        object.entries@[i].1 matches Json::Text(held) && held@ == text)
}

/// A value has no entry of the name that is a text.
pub open spec fn says_nothing(value: Json, name: Seq<char>) -> bool {
    forall|text: Seq<char>| !says(value, name, text)
}

/// A value is an object with an entry of the name that is the number.
pub open spec fn counts(value: Json, name: Seq<char>, n: int) -> bool {
    value matches Json::Object(object) && exists|i: int|
        0 <= i < object.entries@.len() && (#[trigger] object.entries@[i]).0@ == name && match
        object.entries@[i].1 {
            Json::Integer(held) => held == n,
            Json::Unsigned(held) => held == n && n <= i64::MAX,
            _ => false,
        }
}

/// A member is what the entry of its name holds.
pub proof fn member_is_entry(value: Json, name: Seq<char>, held: Json)
    requires
        object_wf(value),
    ensures
        json_member(value, name) == Some(held) <==> has_entry(value, name, held),
{
    if let Json::Object(object) = value {
        if json_member(value, name) == Some(held) {
            let i = key_position(object.entries@, name);
            assert(object.entries@[i].0@ == name);
        }
        if has_entry(value, name, held) {
            let i = choose|i: int|
                0 <= i < object.entries@.len() && (#[trigger] object.entries@[i]).0@ == name
                    && object.entries@[i].1 == held;
            object.entry_facts(i);
        }
    }
}

/// A member's text is what the entry of its name says.
pub proof fn text_is_said(value: Json, name: Seq<char>, text: Seq<char>)
    requires
        object_wf(value),
    ensures
        text_member(value, name) == Some(text) <==> says(value, name, text),
{
    if let Json::Object(object) = value {
        if text_member(value, name) == Some(text) {
            let i = key_position(object.entries@, name);
            assert(object.entries@[i].0@ == name);
        }
        if says(value, name, text) {
            let i = choose|i: int|
                0 <= i < object.entries@.len() && (#[trigger] object.entries@[i]).0@ == name && (
                object.entries@[i].1 matches Json::Text(held) && held@ == text);
            object.entry_facts(i);
        }
    }
}

/// A member has no text exactly where nothing is said.
pub proof fn nothing_is_said(value: Json, name: Seq<char>)
    requires
        object_wf(value),
    ensures
        text_member(value, name) is None <==> says_nothing(value, name),
{
    if says_nothing(value, name) {
        if let Some(text) = text_member(value, name) {
            text_is_said(value, name, text);
        }
    }
    if text_member(value, name) is None {
        assert forall|text: Seq<char>| !says(value, name, text) by {
            text_is_said(value, name, text);
        }
    }
}

/// A member's number is what the entry of its name counts.
pub proof fn number_is_counted(value: Json, name: Seq<char>, n: int)
    requires
        object_wf(value),
    ensures
        (json_member(value, name) matches Some(held) && json_i64(held) == Some(n)) <==> counts(
            value,
            name,
            n,
        ),
{
    if let Json::Object(object) = value {
        if json_member(value, name) matches Some(held) && json_i64(held) == Some(n) {
            let i = key_position(object.entries@, name);
            assert(object.entries@[i].0@ == name);
        }
        if counts(value, name, n) {
            let i = choose|i: int|
                0 <= i < object.entries@.len() && (#[trigger] object.entries@[i]).0@ == name
                    && match object.entries@[i].1 {
                    Json::Integer(held) => held == n,
                    Json::Unsigned(held) => held == n && n <= i64::MAX,
                    _ => false,
                };
            object.entry_facts(i);
        }
    }
}

} // verus!
