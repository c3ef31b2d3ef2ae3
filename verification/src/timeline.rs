//! The events of a room told as lines of text.

use vstd::prelude::*;
use vstd::string::{StrSliceExecFns, StringExecFns};
use crate::bytes::text_equal;
use crate::calendar::{day_number, epoch_days_to_ymd, valid_date};
use crate::collections::TextMap;
use crate::events::{events_wf, member_text, object_wf, text_member, LeanEvent};
use crate::room::{depth_sorted, sort_by_depth};
use crate::state_map::optional_view;
use crate::text::{decimal, padded, push_decimal, push_padded};

verus! {

/// A text without the marks at its start.
pub open spec fn without_marks(text: Seq<char>) -> Seq<char>
    decreases text.len(),
{
    if text.len() > 0 && text[0] == '@' {
        without_marks(text.drop_first())
    } else {
        text
    }
}

/// A text up to its first colon.
pub open spec fn before_colon(text: Seq<char>) -> Seq<char>
    decreases text.len(),
{
    if text.len() == 0 || text[0] == ':' {
        Seq::empty()
    } else {
        seq![text[0]] + before_colon(text.drop_first())
    }
}

/// The part of a user id that names the user.
pub open spec fn short_name(user_id: Seq<char>) -> Seq<char> {
    without_marks(before_colon(user_id))
}

/// The texts of names by user id.
pub open spec fn name_texts(names: Map<Seq<char>, String>) -> Map<Seq<char>, Seq<char>> {
    Map::new(|id: Seq<char>| names.contains_key(id), |id: Seq<char>| names[id]@)
}

/// The name to show for a user id.
pub open spec fn shown_name(names: Map<Seq<char>, Seq<char>>, user_id: Seq<char>) -> Seq<char> {
    if names.contains_key(user_id) {
        names[user_id]
    } else {
        short_name(user_id)
    }
}

/// The part of a user id that names the user.
pub fn localpart(user_id: &str) -> (name: String)
    ensures
        name@ == short_name(user_id@),
{
    let length: usize = user_id.unicode_len();
    let mut end: usize = 0;
    proof {
        assert(user_id@.take(0) + before_colon(user_id@.skip(0)) =~= before_colon(user_id@)) by {
            assert(user_id@.skip(0) =~= user_id@);
        }
    }
    while end < length && user_id.get_char(end) != ':'
        invariant
            length == user_id@.len(),
            end <= length,
            user_id@.take(end as int) + before_colon(user_id@.skip(end as int)) == before_colon(
                user_id@,
            ),
        decreases length - end,
    {
        proof {
            let rest = user_id@.skip(end as int);
            assert(rest.drop_first() =~= user_id@.skip(end + 1));
            assert(user_id@.take(end + 1) =~= user_id@.take(end as int).push(rest[0]));
            assert(user_id@.take(end + 1) + before_colon(rest.drop_first()) =~= user_id@.take(
                end as int,
            ) + (seq![rest[0]] + before_colon(rest.drop_first())));
        }
        end = end + 1;
    }
    let ghost name = before_colon(user_id@);
    proof {
        let rest = user_id@.skip(end as int);
        assert(before_colon(rest) =~= Seq::empty());
        assert(user_id@.take(end as int) =~= name);
    }
    let mut start: usize = 0;
    proof {
        assert(name.skip(0) =~= name);
    }
    while start < end && user_id.get_char(start) == '@'
        invariant
            length == user_id@.len(),
            start <= end <= length,
            name == user_id@.take(end as int),
            without_marks(name.skip(start as int)) == without_marks(name),
        decreases end - start,
    {
        proof {
            assert(name.skip(start as int).drop_first() =~= name.skip(start + 1));
        }
        start = start + 1;
    }
    proof {
        assert(user_id@.subrange(start as int, end as int) =~= name.skip(start as int));
    }
    String::from_str(user_id.substring_char(start, end))
}

fn get_name(names: &TextMap<String>, user_id: &str) -> (name: String)
    requires
        names.wf(),
    ensures
        name@ == shown_name(name_texts(names.view()), user_id@),
{
    match names.get(user_id) {
        Some(name) => String::from_str(name.as_str()),
        None => localpart(user_id),
    }
}

/// The text of a state key, empty where it is missing.
pub open spec fn state_key_text(event: LeanEvent) -> Seq<char> {
    match event.state_key {
        Some(key) => key@,
        None => Seq::empty(),
    }
}

/// The display name that a member event gives its user.
pub open spec fn given_name(event: LeanEvent) -> Option<Seq<char>> {
    if event.event_type@ == "m.room.member"@ {
        match text_member(event.content, "displayname"@) {
            Some(name) => if name.len() > 0 {
                Some(name)
            } else {
                None
            },
            None => None,
        }
    } else {
        None
    }
}

/// The display names after the first events: a later one takes the place of an
/// earlier one.
pub open spec fn names_after(
    events: Seq<(String, LeanEvent)>,
    order: Seq<usize>,
    n: nat,
) -> Map<Seq<char>, Seq<char>>
    decreases n,
{
    if n == 0 {
        Map::empty()
    } else {
        let before = names_after(events, order, (n - 1) as nat);
        let event = events[order[n - 1] as int].1;
        match given_name(event) {
            Some(name) => before.insert(state_key_text(event), name),
            None => before,
        }
    }
}

/// A reason behind a blank, or nothing.
pub open spec fn reason_text(event: LeanEvent) -> Seq<char> {
    match text_member(event.content, "reason"@) {
        Some(reason) => if reason.len() > 0 {
            " "@ + reason
        } else {
            Seq::empty()
        },
        None => Seq::empty(),
    }
}

/// A member's text, or another one.
pub open spec fn member_or(event: LeanEvent, name: Seq<char>, other: Seq<char>) -> Seq<char> {
    match text_member(event.content, name) {
        Some(text) => text,
        None => other,
    }
}

/// What a member event tells.
pub open spec fn membership_line(event: LeanEvent, sender: Seq<char>, target: Seq<char>) -> Seq<
    char,
> {
    let membership = member_or(event, "membership"@, "?"@);
    if membership == "join"@ {
        target + " joined the room"@
    } else if membership == "leave"@ {
        if optional_view(event.state_key) == Some(event.sender@) {
            target + " left the room"@
        } else {
            sender + " kicked "@ + target + reason_text(event)
        }
    } else if membership == "ban"@ {
        sender + " banned "@ + target + reason_text(event)
    } else if membership == "invite"@ {
        sender + " invited "@ + target
    } else if membership == "knock"@ {
        target + " knocked"@
    } else {
        sender + " set "@ + target + "'s membership to "@ + membership
    }
}

/// What a message tells.
pub open spec fn message_line(event: LeanEvent, sender: Seq<char>) -> Seq<char> {
    let body = member_or(event, "body"@, Seq::empty());
    let kind = member_or(event, "msgtype"@, "m.text"@);
    if kind == "m.text"@ || kind == "m.notice"@ {
        sender + ": "@ + body
    } else if kind == "m.image"@ {
        sender + " sent an image"@
    } else if kind == "m.video"@ {
        sender + " sent a video"@
    } else if kind == "m.audio"@ {
        sender + " sent an audio file"@
    } else if kind == "m.file"@ {
        sender + " sent a file"@
    } else if kind == "m.emote"@ {
        "* "@ + sender + " "@ + body
    } else {
        sender + " sent "@ + kind
    }
}

/// What an event tells. Reactions are passed over.
pub open spec fn event_line(event: LeanEvent, names: Map<Seq<char>, Seq<char>>) -> Option<
    Seq<char>,
> {
    let sender = shown_name(names, event.sender@);
    if event.event_type@ == "m.room.create"@ {
        Some(sender + " sent m.room.create state event"@)
    } else if event.event_type@ == "m.room.member"@ {
        Some(membership_line(event, sender, shown_name(names, state_key_text(event))))
    } else if event.event_type@ == "m.room.message"@ {
        Some(message_line(event, sender))
    } else if event.event_type@ == "m.room.name"@ {
        Some(sender + " changed room name to \""@ + member_or(event, "name"@, "?"@) + "\""@)
    } else if event.event_type@ == "m.room.topic"@ {
        Some(sender + " changed room topic to \""@ + member_or(event, "topic"@, "?"@) + "\""@)
    } else if event.event_type@ == "m.room.avatar"@ {
        Some(sender + " changed room avatar"@)
    } else if event.event_type@ == "m.room.redaction"@ {
        Some(sender + " redacted an event"@)
    } else if event.event_type@ == "m.reaction"@ {
        None
    } else if event.event_type@ == "m.sticker"@ {
        Some(sender + " sent a sticker"@)
    } else {
        Some(sender + " sent "@ + event.event_type@ + " state event"@)
    }
}

fn joined(first: &str, second: &str) -> (text: String)
    ensures
        text@ == first@ + second@,
{
    let mut text: String = String::from_str(first);
    text.append(second);
    text
}

fn push_reason(text: &mut String, event: &LeanEvent)
    requires
        object_wf(event.content),
    ensures
        final(text)@ == old(text)@ + reason_text(*event),
{
    let ghost start = text@;
    match member_text(&event.content, "reason") {
        Some(reason) => {
            if !reason.is_empty() {
                text.append(" ");
                text.append(reason);
            }
        },
        None => {},
    }
    proof {
        assert(text@ =~= start + reason_text(*event));
    }
}

fn tell_membership(event: &LeanEvent, sender: &str, target: &str) -> (text: String)
    requires
        object_wf(event.content),
    ensures
        text@ == membership_line(*event, sender@, target@),
{
    let membership: &str = match member_text(&event.content, "membership") {
        Some(membership) => membership,
        None => "?",
    };
    if text_equal(membership, "join") {
        joined(target, " joined the room")
    } else if text_equal(membership, "leave") {
        let own: bool = match &event.state_key {
            Some(key) => text_equal(key.as_str(), event.sender.as_str()),
            None => false,
        };
        if own {
            joined(target, " left the room")
        } else {
            let mut text: String = joined(sender, " kicked ");
            text.append(target);
            push_reason(&mut text, event);
            text
        }
    } else if text_equal(membership, "ban") {
        let mut text: String = joined(sender, " banned ");
        text.append(target);
        push_reason(&mut text, event);
        text
    } else if text_equal(membership, "invite") {
        let mut text: String = joined(sender, " invited ");
        text.append(target);
        text
    } else if text_equal(membership, "knock") {
        joined(target, " knocked")
    } else {
        let mut text: String = joined(sender, " set ");
        text.append(target);
        text.append("'s membership to ");
        text.append(membership);
        text
    }
}

fn tell_message(event: &LeanEvent, sender: &str) -> (text: String)
    requires
        object_wf(event.content),
    ensures
        text@ == message_line(*event, sender@),
{
    proof {
        reveal_strlit("");
        assert(""@ =~= Seq::<char>::empty());
    }
    let body: &str = match member_text(&event.content, "body") {
        Some(body) => body,
        None => "",
    };
    let kind: &str = match member_text(&event.content, "msgtype") {
        Some(kind) => kind,
        None => "m.text",
    };
    if text_equal(kind, "m.text") || text_equal(kind, "m.notice") {
        let mut text: String = joined(sender, ": ");
        text.append(body);
        text
    } else if text_equal(kind, "m.image") {
        joined(sender, " sent an image")
    } else if text_equal(kind, "m.video") {
        joined(sender, " sent a video")
    } else if text_equal(kind, "m.audio") {
        joined(sender, " sent an audio file")
    } else if text_equal(kind, "m.file") {
        joined(sender, " sent a file")
    } else if text_equal(kind, "m.emote") {
        let mut text: String = joined("* ", sender);
        text.append(" ");
        text.append(body);
        text
    } else {
        let mut text: String = joined(sender, " sent ");
        text.append(kind);
        text
    }
}

/// Appends a quoted member of the content, or a question mark.
fn push_quoted(text: &mut String, event: &LeanEvent, name: &str)
    requires
        object_wf(event.content),
    ensures
        final(text)@ == old(text)@ + member_or(*event, name@, "?"@) + "\""@,
{
    let value: &str = match member_text(&event.content, name) {
        Some(value) => value,
        None => "?",
    };
    text.append(value);
    text.append("\"");
}

/// What an event tells, with the display names of users.
pub fn describe(event: &LeanEvent, names: &TextMap<String>) -> (line: Option<String>)
    requires
        object_wf(event.content),
        names.wf(),
    ensures
        match line {
            Some(line) => event_line(*event, name_texts(names.view())) == Some(line@),
            None => event_line(*event, name_texts(names.view())) is None,
        },
{
    let sender: String = get_name(names, event.sender.as_str());
    let event_type: &str = event.event_type.as_str();
    if text_equal(event_type, "m.room.create") {
        Some(joined(sender.as_str(), " sent m.room.create state event"))
    } else if text_equal(event_type, "m.room.member") {
        proof {
            reveal_strlit("");
            assert(""@ =~= Seq::<char>::empty());
        }
        let user: &str = match &event.state_key {
            Some(key) => key.as_str(),
            None => "",
        };
        let target: String = get_name(names, user);
        Some(tell_membership(event, sender.as_str(), target.as_str()))
    } else if text_equal(event_type, "m.room.message") {
        Some(tell_message(event, sender.as_str()))
    } else if text_equal(event_type, "m.room.name") {
        let mut text: String = joined(sender.as_str(), " changed room name to \"");
        push_quoted(&mut text, event, "name");
        Some(text)
    } else if text_equal(event_type, "m.room.topic") {
        let mut text: String = joined(sender.as_str(), " changed room topic to \"");
        push_quoted(&mut text, event, "topic");
        Some(text)
    } else if text_equal(event_type, "m.room.avatar") {
        Some(joined(sender.as_str(), " changed room avatar"))
    } else if text_equal(event_type, "m.room.redaction") {
        Some(joined(sender.as_str(), " redacted an event"))
    } else if text_equal(event_type, "m.reaction") {
        None
    } else if text_equal(event_type, "m.sticker") {
        Some(joined(sender.as_str(), " sent a sticker"))
    } else {
        let mut text: String = joined(sender.as_str(), " sent ");
        text.append(event_type);
        text.append(" state event");
        Some(text)
    }
}

/// The short name of a month.
pub open spec fn month_text(m: int) -> Seq<char> {
    if m == 1 {
        "Jan"@
    } else if m == 2 {
        "Feb"@
    } else if m == 3 {
        "Mar"@
    } else if m == 4 {
        "Apr"@
    } else if m == 5 {
        "May"@
    } else if m == 6 {
        "Jun"@
    } else if m == 7 {
        "Jul"@
    } else if m == 8 {
        "Aug"@
    } else if m == 9 {
        "Sep"@
    } else if m == 10 {
        "Oct"@
    } else if m == 11 {
        "Nov"@
    } else {
        "Dec"@
    }
}

fn month_name(m: u32) -> (name: &'static str)
    requires
        1 <= m <= 12,
    ensures
        name@ == month_text(m as int),
{
    match m {
        1 => "Jan",
        2 => "Feb",
        3 => "Mar",
        4 => "Apr",
        5 => "May",
        6 => "Jun",
        7 => "Jul",
        8 => "Aug",
        9 => "Sep",
        10 => "Oct",
        11 => "Nov",
        _ => "Dec",
    }
}

/// The hour of a twelve-hour clock.
pub open spec fn clock_hour(hours: nat) -> nat {
    if hours == 0 {
        12
    } else if hours > 12 {
        (hours - 12) as nat
    } else {
        hours
    }
}

/// A date and a time of day, given the day of the year.
pub open spec fn stamp_text(y: int, m: int, d: int, seconds: nat) -> Seq<char> {
    let hours = seconds / 3600;
    let minutes = (seconds % 3600) / 60;
    decimal(d as nat) + " "@ + month_text(m) + " "@ + decimal(y as nat) + " "@ + padded(
        clock_hour(hours),
        2,
    ) + ":"@ + padded(minutes, 2) + " "@ + if hours < 12 {
        "AM"@
    } else {
        "PM"@
    }
}

/// The text stands for the date and the time of day of a timestamp in
/// milliseconds.
pub open spec fn is_stamp(text: Seq<char>, timestamp: u64) -> bool {
    let seconds = timestamp as int / 1000;
    exists|y: int, m: int, d: int|
        {
            &&& #[trigger] valid_date(y, m, d)
            &&& day_number(y, m, d) == seconds / 86400
            &&& text == stamp_text(y, m, d, (seconds % 86400) as nat)
        }
}

/// The date and the time of day of a timestamp in milliseconds.
pub fn timestamp_text(timestamp: u64) -> (text: String)
    ensures
        is_stamp(text@, timestamp),
{
    let seconds: u64 = timestamp / 1000;
    let days: u64 = seconds / 86400;
    let time_of_day: u64 = seconds % 86400;
    let hours: u64 = time_of_day / 3600;
    let minutes: u64 = (time_of_day % 3600) / 60;
    let (y, m, d) = epoch_days_to_ymd(days as i64);
    proof {
        year_after_epoch(y as int, m as int, d as int);
    }
    let hour: u64 = if hours == 0 {
        12
    } else if hours > 12 {
        hours - 12
    } else {
        hours
    };
    let mut text: String = String::new();
    push_decimal(&mut text, d as u64);
    text.append(" ");
    text.append(month_name(m));
    text.append(" ");
    push_decimal(&mut text, y as u64);
    text.append(" ");
    push_padded(&mut text, hour, 2);
    text.append(":");
    push_padded(&mut text, minutes, 2);
    text.append(" ");
    if hours < 12 {
        text.append("AM");
    } else {
        text.append("PM");
    }
    proof {
        assert(valid_date(y as int, m as int, d as int));
        assert(text@ =~= stamp_text(y as int, m as int, d as int, time_of_day as nat));
    }
    text
}

/// A date of 1970 or later has a positive year.
proof fn year_after_epoch(y: int, m: int, d: int)
    requires
        valid_date(y, m, d),
        day_number(y, m, d) >= 0,
    ensures
        y > 0,
{
    reveal_with_fuel(crate::calendar::days_before_month, 13);
    if y <= 0 {
        assert(crate::calendar::days_before_month(y, m) <= 366);
        assert(crate::calendar::days_before_year(y) <= 0);
    }
}

/// The lines of the first events: what each one tells, its date below it, and a
/// blank line where the date changes.
pub open spec fn timeline_lines(
    events: Seq<(String, LeanEvent)>,
    order: Seq<usize>,
    names: Map<Seq<char>, Seq<char>>,
    stamps: Seq<Seq<char>>,
    n: nat,
) -> (Seq<char>, Seq<char>)
    decreases n,
{
    if n == 0 {
        (Seq::empty(), Seq::empty())
    } else {
        let before = timeline_lines(events, order, names, stamps, (n - 1) as nat);
        let event = events[order[n - 1] as int].1;
        let stamp = stamps[n - 1];
        match event_line(event, names) {
            Some(line) => (
                before.0 + (if stamp != before.1 && before.1.len() > 0 {
                    "\n"@
                } else {
                    Seq::empty()
                }) + line + "\n"@ + stamp + "\n"@,
                stamp,
            ),
            None => before,
        }
    }
}

/// The text tells the events in an order by depth and id.
pub open spec fn is_timeline(text: Seq<char>, events: Seq<(String, LeanEvent)>) -> bool {
    exists|order: Seq<usize>, stamps: Seq<Seq<char>>|
        {
            &&& depth_sorted(events, order)
            &&& order.to_multiset() == Seq::new(events.len(), |i: int| i as usize).to_multiset()
            &&& stamps.len() == events.len()
            &&& order.len() == events.len()
            &&& forall|i: int|
                0 <= i < events.len() ==> is_stamp(
                    #[trigger] stamps[i],
                    events[order[i] as int].1.origin_server_ts,
                )
            &&& text == (#[trigger] timeline_lines(
                events,
                order,
                names_after(events, order, order.len()),
                stamps,
                order.len(),
            )).0
        }
}

/// The display names that the events give, in their order.
fn collect_names(events: &TextMap<LeanEvent>, order: &Vec<usize>) -> (names: TextMap<String>)
    requires
        events_wf(*events),
        forall|i: int| 0 <= i < order@.len() ==> #[trigger] order@[i] < events.entries@.len(),
    ensures
        names.wf(),
        name_texts(names.view()) == names_after(events.entries@, order@, order@.len()),
{
    let ghost all = events.entries@;
    let mut names: TextMap<String> = TextMap::new();
    let mut index: usize = 0;
    proof {
        assert(name_texts(names.view()) =~= Map::<Seq<char>, Seq<char>>::empty());
        reveal_strlit("");
        assert(""@ =~= Seq::<char>::empty());
    }
    while index < order.len()
        invariant
            events_wf(*events),
            all == events.entries@,
            index <= order.len(),
            ""@ == Seq::<char>::empty(),
            forall|i: int| 0 <= i < order@.len() ==> #[trigger] order@[i] < events.entries@.len(),
            names.wf(),
            name_texts(names.view()) == names_after(all, order@, index as nat),
        decreases order.len() - index,
    {
        let event: &LeanEvent = &events.entries[order[index]].1;
        let ghost before = names.view();
        proof {
            assert(object_wf(all[order@[index as int] as int].1.content));
        }
        if text_equal(event.event_type.as_str(), "m.room.member") {
            match member_text(&event.content, "displayname") {
                Some(name) => {
                    if !name.is_empty() {
                        let user: &str = match &event.state_key {
                            Some(key) => key.as_str(),
                            None => "",
                        };
                        names.insert(String::from_str(user), String::from_str(name));
                        proof {
                            assert(name_texts(names.view()) =~= name_texts(before).insert(
                                user@,
                                name@,
                            ));
                        }
                    }
                },
                None => {},
            }
        }
        index = index + 1;
    }
    names
}

/// The events of a room told in order of depth, with the date of each.
pub fn timeline(events: &TextMap<LeanEvent>) -> (text: String)
    requires
        events_wf(*events),
    ensures
        is_timeline(text@, events.entries@),
{
    let ghost all = events.entries@;
    let mut places: Vec<usize> = Vec::new();
    while places.len() < events.entries.len()
        invariant
            all == events.entries@,
            places@.len() <= all.len(),
            forall|i: int| 0 <= i < places@.len() ==> #[trigger] places@[i] == i,
        decreases events.entries.len() - places.len(),
    {
        let next: usize = places.len();
        places.push(next);
    }
    let order: Vec<usize> = sort_by_depth(events, places.as_slice());
    proof {
        assert(places@ =~= Seq::new(all.len(), |i: int| i as usize));
        places@.to_multiset_ensures();
        order@.to_multiset_ensures();
        assert(order@.len() == all.len());
        assert forall|i: int| 0 <= i < order@.len() implies #[trigger] order@[i] < all.len() by {
            assert(order@.contains(order@[i]));
            assert(places@.to_multiset().count(order@[i]) > 0);
            assert(places@.contains(order@[i]));
        }
    }
    let names: TextMap<String> = collect_names(events, &order);
    let ghost known = names_after(all, order@, order@.len());
    let ghost mut stamps: Seq<Seq<char>> = Seq::empty();
    let mut output: String = String::new();
    let mut last_date: String = String::new();
    let mut index: usize = 0;
    while index < order.len()
        invariant
            events_wf(*events),
            all == events.entries@,
            index <= order.len(),
            forall|i: int| 0 <= i < order@.len() ==> #[trigger] order@[i] < all.len(),
            names.wf(),
            known == name_texts(names.view()),
            stamps.len() == index,
            forall|i: int|
                0 <= i < index ==> is_stamp(
                    #[trigger] stamps[i],
                    all[order@[i] as int].1.origin_server_ts,
                ),
            timeline_lines(all, order@, known, stamps, index as nat) == (output@, last_date@),
        decreases order.len() - index,
    {
        let event: &LeanEvent = &events.entries[order[index]].1;
        let date: String = timestamp_text(event.origin_server_ts);
        let ghost before = stamps;
        proof {
            stamps = stamps.push(date@);
            lines_prefix(all, order@, known, before, date@, index as nat);
            assert(object_wf(all[order@[index as int] as int].1.content));
            assert(stamps[index as int] == date@);
            assert forall|i: int| 0 <= i < index + 1 implies is_stamp(
                #[trigger] stamps[i],
                all[order@[i] as int].1.origin_server_ts,
            ) by {
                if i < index {
                    assert(stamps[i] == before[i]);
                }
            }
        }
        let ghost held = output@;
        let ghost last = last_date@;
        match describe(event, &names) {
            Some(line) => {
                if !text_equal(date.as_str(), last_date.as_str()) && !last_date.as_str().is_empty() {
                    output.append("\n");
                }
                output.append(line.as_str());
                output.append("\n");
                output.append(date.as_str());
                output.append("\n");
                last_date = date;
                proof {
                    assert(output@ =~= held + (if last_date@ != last && last.len() > 0 {
                        "\n"@
                    } else {
                        Seq::empty()
                    }) + line@ + "\n"@ + last_date@ + "\n"@);
                }
            },
            None => {},
        }
        index = index + 1;
    }
    proof {
        assert(output@ == timeline_lines(
            all,
            order@,
            names_after(all, order@, order@.len()),
            stamps,
            order@.len(),
        ).0);
    }
    output
}

proof fn lines_prefix(
    events: Seq<(String, LeanEvent)>,
    order: Seq<usize>,
    names: Map<Seq<char>, Seq<char>>,
    stamps: Seq<Seq<char>>,
    stamp: Seq<char>,
    n: nat,
)
    requires
        n <= stamps.len(),
    ensures
        timeline_lines(events, order, names, stamps.push(stamp), n) == timeline_lines(
            events,
            order,
            names,
            stamps,
            n,
        ),
    decreases n,
{
    if n > 0 {
        lines_prefix(events, order, names, stamps, stamp, (n - 1) as nat);
        assert(stamps.push(stamp)[n - 1] == stamps[n - 1]);
    }
}

} // verus!
