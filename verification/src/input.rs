//! The shapes in which the events of a room are handed in.

use vstd::prelude::*;
use vstd::string::StringExecFns;
use crate::event_laws::{has_entry, member_is_entry};
use crate::events::{json_member, member, object_wf, LeanEvent};
use crate::json::Json;
use crate::room::id_texts;

verus! {

/// The shape of an input.
#[derive(Debug, PartialEq, Eq)]
pub enum InputShape<'a> {
    /// A list of events with the heads that they end in.
    Headed { events: &'a Vec<Json>, heads: Vec<String> },
    /// A list of events.
    Events { events: &'a Vec<Json> },
    /// A single event.
    Single,
}

/// Why an input has no events.
#[derive(Debug, Clone, Copy, PartialEq, Eq, Structural)]
pub enum InputFault {
    EventsNoArray,
    HeadsNoArray,
    HeadNoString,
    UnexpectedFormat,
}

impl InputFault {
    /// The fault as text.
    pub fn message(&self) -> (text: String)
        ensures
            text@ == match *self {
                InputFault::EventsNoArray => "'events' field must be a JSON array"@,
                InputFault::HeadsNoArray => "'heads' field must be a JSON array"@,
                InputFault::HeadNoString => "each 'head' must be a string"@,
                InputFault::UnexpectedFormat => "Unexpected JSON format"@,
            },
    {
        match self {
            InputFault::EventsNoArray => String::from_str("'events' field must be a JSON array"),
            InputFault::HeadsNoArray => String::from_str("'heads' field must be a JSON array"),
            InputFault::HeadNoString => String::from_str("each 'head' must be a string"),
            InputFault::UnexpectedFormat => String::from_str("Unexpected JSON format"),
        }
    }
}

/// The texts of a list of values, where each is a text.
pub open spec fn all_texts(items: Seq<Json>) -> Option<Seq<Seq<char>>> {
    if forall|i: int| 0 <= i < items.len() ==> (#[trigger] items[i]) is Text {
        Some(Seq::new(items.len(), |i: int| items[i]->Text_0@))
    } else {
        None
    }
}

/// The shape of an input is the given one, or the fault is what is wrong with it.
pub open spec fn has_shape(input: Json, result: Result<InputShape<'_>, InputFault>) -> bool {
    match input {
        Json::Object(_) => match (json_member(input, "events"@), json_member(input, "heads"@)) {
            (Some(events), Some(heads)) => match (events, heads) {
                (Json::Array(events), Json::Array(heads)) => match all_texts(heads@) {
                    Some(texts) => {
                        &&& result matches Ok(InputShape::Headed { events: listed, heads: ids })
                        &&& *listed == events
                        &&& id_texts(ids@) == texts
                    },
                    None => result == Err::<InputShape<'_>, InputFault>(InputFault::HeadNoString),
                },
                (Json::Array(_), _) => result == Err::<InputShape<'_>, InputFault>(
                    InputFault::HeadsNoArray,
                ),
                (_, _) => result == Err::<InputShape<'_>, InputFault>(InputFault::EventsNoArray),
            },
            (_, _) => result == Ok::<InputShape<'_>, InputFault>(InputShape::Single),
        },
        Json::Array(events) => {
            &&& result matches Ok(InputShape::Events { events: listed })
            &&& *listed == events
        },
        _ => result == Err::<InputShape<'_>, InputFault>(InputFault::UnexpectedFormat),
    }
}

/// Tells the shape of an input.
///
/// # Errors
/// Returns an error if the input is neither an object nor a list, or if an object
/// with events and heads does not hold lists of events and of texts.
pub fn input_shape(input: &Json) -> (result: Result<InputShape<'_>, InputFault>)
    requires
        object_wf(*input),
    ensures
        has_shape(*input, result),
{
    match input {
        Json::Object(_) => {
            let events: Option<&Json> = member(input, "events");
            let heads: Option<&Json> = member(input, "heads");
            match (events, heads) {
                (Some(events), Some(heads)) => {
                    match events {
                        Json::Array(listed) => match heads {
                            Json::Array(items) => match head_texts(items) {
                                Some(ids) => Ok(InputShape::Headed { events: listed, heads: ids }),
                                None => Err(InputFault::HeadNoString),
                            },
                            _ => Err(InputFault::HeadsNoArray),
                        },
                        _ => Err(InputFault::EventsNoArray),
                    }
                },
                (_, _) => Ok(InputShape::Single),
            }
        },
        Json::Array(events) => Ok(InputShape::Events { events }),
        _ => Err(InputFault::UnexpectedFormat),
    }
}

/// The value is a text.
spec fn text_is(value: Json, text: Seq<char>) -> bool {
    match value {
        Json::Text(held) => held@ == text,
        _ => false,
    }
}

/// The texts of a list of values, where each is a text.
fn head_texts(items: &Vec<Json>) -> (texts: Option<Vec<String>>)
    ensures
        match texts {
            Some(ids) => all_texts(items@) == Some(id_texts(ids@)),
            None => all_texts(items@) is None,
        },
{
    let mut ids: Vec<String> = Vec::new();
    while ids.len() < items.len()
        invariant
            ids@.len() <= items@.len(),
            forall|i: int| 0 <= i < ids@.len() ==> text_is(items@[i], (#[trigger] ids@[i])@),
        decreases items.len() - ids.len(),
    {
        let item: &Json = &items[ids.len()];
        let text: String = match item {
            Json::Text(text) => String::from_str(text.as_str()),
            _ => {
                proof {
                    assert(!(items@[ids@.len() as int] is Text));
                }
                return None;
            },
        };
        ids.push(text);
    }
    proof {
        assert forall|i: int| 0 <= i < items@.len() implies (#[trigger] items@[i]) is Text by {
            assert(text_is(items@[i], ids@[i]@));
        }
        assert(all_texts(items@)->Some_0 =~= id_texts(ids@));
    }
    Some(ids)
}

/// The sender of the last creation event among the first events, or nobody.
pub open spec fn creator_upto(events: Seq<LeanEvent>, n: nat) -> Seq<char>
    decreases n,
{
    if n == 0 {
        Seq::empty()
    } else if events[n - 1].event_type@ == "m.room.create"@ {
        events[n - 1].sender@
    } else {
        creator_upto(events, (n - 1) as nat)
    }
}

/// The sender of the last creation event, or an empty text.
pub fn creator(events: &[LeanEvent]) -> (user: String)
    ensures
        user@ == creator_upto(events@, events@.len()),
{
    let mut index: usize = events.len();
    while index > 0
        invariant
            index <= events.len(),
            creator_upto(events@, events@.len()) == creator_upto(events@, index as nat),
        decreases index,
    {
        let event: &LeanEvent = &events[index - 1];
        if crate::bytes::text_equal(event.event_type.as_str(), "m.room.create") {
            return String::from_str(event.sender.as_str());
        }
        index = index - 1;
    }
    proof {
        reveal_strlit("");
        assert(""@ =~= Seq::<char>::empty());
    }
    String::from_str("")
}

/// The creator is who sent the last creation event, and nobody where there is none.
pub proof fn creator_is_last(events: Seq<LeanEvent>, i: int)
    requires
        0 <= i < events.len(),
    ensures
        events[i].event_type@ == "m.room.create"@ && (forall|j: int|
            i < j < events.len() ==> (#[trigger] events[j]).event_type@ != "m.room.create"@)
            ==> creator_upto(events, events.len()) == events[i].sender@,
        (forall|j: int|
            0 <= j < events.len() ==> (#[trigger] events[j]).event_type@ != "m.room.create"@)
            ==> creator_upto(events, events.len()).len() == 0,
{
    creator_from(events, i, events.len());
}

proof fn creator_from(events: Seq<LeanEvent>, i: int, n: nat)
    requires
        0 <= i < events.len(),
        n <= events.len(),
    ensures
        i < n && events[i].event_type@ == "m.room.create"@ && (forall|j: int|
            i < j < n ==> (#[trigger] events[j]).event_type@ != "m.room.create"@) ==> creator_upto(
            events,
            n,
        ) == events[i].sender@,
        (forall|j: int| 0 <= j < n ==> (#[trigger] events[j]).event_type@ != "m.room.create"@)
            ==> creator_upto(events, n).len() == 0,
    decreases n,
{
    if n > 0 {
        creator_from(events, i, (n - 1) as nat);
        assert(events[n - 1] == events[n - 1]);
    }
}

/// An object with an entry of events and one of heads is a room with its heads, where
/// both are lists and every head is a text. A list is the events, and any other
/// object is one event.
pub proof fn shape_by_entries(input: Json, result: Result<InputShape<'_>, InputFault>)
    requires
        object_wf(input),
        has_shape(input, result),
    ensures
        input matches Json::Array(events) ==> result matches Ok(
            InputShape::Events { events: listed },
        ) && *listed == events,
        !(input is Array || input is Object) <==> result == Err::<InputShape<'_>, InputFault>(
            InputFault::UnexpectedFormat,
        ),
        input is Object && (forall|events: Json, heads: Json|
            !(#[trigger] has_entry(input, "events"@, events) && #[trigger] has_entry(
                input,
                "heads"@,
                heads,
            ))) <==> result == Ok::<InputShape<'_>, InputFault>(InputShape::Single),
        forall|events: Json, heads: Json| #[trigger]
            has_entry(input, "events"@, events) && #[trigger] has_entry(input, "heads"@, heads)
                ==> match result {
                Ok(InputShape::Headed { events: listed, heads: ids }) => {
                    &&& events == Json::Array(*listed)
                    &&& heads matches Json::Array(items) && items@.len() == ids@.len() && forall|
                        i: int,
                    |
                        0 <= i < ids@.len() ==> (items@[i] matches Json::Text(text) && text@
                            == (#[trigger] ids@[i])@)
                },
                Err(InputFault::EventsNoArray) => !(events is Array),
                Err(InputFault::HeadsNoArray) => events is Array && !(heads is Array),
                Err(InputFault::HeadNoString) => events is Array && (heads matches Json::Array(
                    items,
                ) && exists|i: int| 0 <= i < items@.len() && !((#[trigger] items@[i]) is Text)),
                _ => false,
            },
{
    assert forall|events: Json, heads: Json| #[trigger]
        has_entry(input, "events"@, events) && #[trigger] has_entry(
            input,
            "heads"@,
            heads,
        ) implies json_member(input, "events"@) == Some(events) && json_member(input, "heads"@)
        == Some(heads) by {
        member_is_entry(input, "events"@, events);
        member_is_entry(input, "heads"@, heads);
    }
    if let (Some(events), Some(heads)) = (
        json_member(input, "events"@),
        json_member(input, "heads"@),
    ) {
        member_is_entry(input, "events"@, events);
        member_is_entry(input, "heads"@, heads);
        assert(has_entry(input, "events"@, events) && has_entry(input, "heads"@, heads));
        if let Ok(InputShape::Headed { events: listed, heads: ids }) = result {
            if let Json::Array(items) = heads {
                assert(id_texts(ids@).len() == ids@.len());
                assert forall|i: int| 0 <= i < ids@.len() implies (items@[i] matches Json::Text(
                    text,
                ) && text@ == (#[trigger] ids@[i])@) by {
                    assert(id_texts(ids@)[i] == ids@[i]@);
                    assert(items@[i] is Text);
                }
            }
        }
    }
}

} // verus!
