//! What the lines of a timeline say.

use vstd::prelude::*;
use crate::calendar::{day_number, valid_date};
use crate::event_laws::{nothing_is_said, says, says_nothing, text_is_said};
use crate::events::{object_wf, LeanEvent};
use crate::room::{depth_sorted, later};
use crate::text::{decimal, padded};
use crate::timeline::{
    before_colon, clock_hour, event_line, given_name, is_stamp, is_timeline, month_text,
    names_after, short_name, shown_name, stamp_text, state_key_text, timeline_lines, without_marks,
};

verus! {

proof fn before_first_colon(local: Seq<char>, domain: Seq<char>)
    requires
        forall|i: int| 0 <= i < local.len() ==> #[trigger] local[i] != ':',
    ensures
        before_colon(local + seq![':'] + domain) == local,
        before_colon(local) == local,
    decreases local.len(),
{
    let whole = local + seq![':'] + domain;
    if local.len() > 0 {
        let rest = local.drop_first();
        assert forall|i: int| 0 <= i < rest.len() implies #[trigger] rest[i] != ':' by {
            assert(local[i + 1] != ':');
        }
        before_first_colon(rest, domain);
        assert(whole.drop_first() =~= rest + seq![':'] + domain);
        assert(whole[0] == local[0]);
        assert(seq![local[0]] + rest =~= local);
    } else {
        assert(whole[0] == ':');
        assert(local =~= Seq::empty());
    }
}

/// The short name of a user id is what stands between the mark and the colon; without a
/// colon it is the rest.
pub proof fn short_name_is_local(local: Seq<char>, domain: Seq<char>)
    requires
        forall|i: int| 0 <= i < local.len() ==> #[trigger] local[i] != ':',
        local.len() > 0 ==> local[0] != '@',
    ensures
        short_name(seq!['@'] + local + seq![':'] + domain) == local,
        short_name(local + seq![':'] + domain) == local,
        short_name(seq!['@'] + local) == local,
        short_name(local) == local,
{
    let marked = seq!['@'] + local;
    assert forall|i: int| 0 <= i < marked.len() implies #[trigger] marked[i] != ':' by {
        if i > 0 {
            assert(local[i - 1] != ':');
        }
    }
    before_first_colon(marked, domain);
    before_first_colon(local, domain);
    reveal_with_fuel(without_marks, 2);
    assert(marked[0] == '@');
    assert(marked.drop_first() =~= local);
}

/// The event gives the user the name: it is a membership of theirs with a display name
/// that is not empty.
pub open spec fn gives(event: LeanEvent, user: Seq<char>, name: Seq<char>) -> bool {
    &&& event.event_type@ == "m.room.member"@
    &&& match event.state_key {
        Some(key) => key@ == user,
        None => user.len() == 0,
    }
    &&& says(event.content, "displayname"@, name)
    &&& name.len() > 0
}

proof fn gives_is_given(event: LeanEvent, user: Seq<char>, name: Seq<char>)
    requires
        object_wf(event.content),
    ensures
        gives(event, user, name) <==> given_name(event) == Some(name) && state_key_text(event)
            == user,
{
    text_is_said(event.content, "displayname"@, name);
    if user.len() == 0 {
        assert(user =~= Seq::empty());
    }
}

/// A user has the name that the last event gave them, and none where none did.
pub proof fn name_is_last_given(
    events: Seq<(String, LeanEvent)>,
    order: Seq<usize>,
    n: nat,
    user: Seq<char>,
)
    requires
        n <= order.len(),
        forall|k: int| 0 <= k < n ==> object_wf(events[#[trigger] order[k] as int].1.content),
    ensures
        names_after(events, order, n).contains_key(user) ==> exists|k: int|
            {
                &&& 0 <= k < n
                &&& gives(
                    events[#[trigger] order[k] as int].1,
                    user,
                    names_after(events, order, n)[user],
                )
                &&& forall|j: int, other: Seq<char>|
                    k < j < n ==> !#[trigger] gives(events[order[j] as int].1, user, other)
            },
        !names_after(events, order, n).contains_key(user) ==> forall|j: int, other: Seq<char>|
            0 <= j < n ==> !#[trigger] gives(events[order[j] as int].1, user, other),
    decreases n,
{
    if n > 0 {
        name_is_last_given(events, order, (n - 1) as nat, user);
        let event = events[order[n - 1] as int].1;
        assert(object_wf(event.content));
        let before = names_after(events, order, (n - 1) as nat);
        let after = names_after(events, order, n);
        assert forall|other: Seq<char>| #[trigger] gives(event, user, other) <==> given_name(event)
            == Some(other) && state_key_text(event) == user by {
            gives_is_given(event, user, other);
        }
        if given_name(event) is Some && state_key_text(event) == user {
            let name = given_name(event)->0;
            assert(gives(event, user, name));
            assert(after[user] == name);
            assert(gives(events[order[n - 1] as int].1, user, after[user]));
        } else {
            assert(after.contains_key(user) == before.contains_key(user));
            if before.contains_key(user) {
                assert(after[user] == before[user]);
                let k = choose|k: int|
                    {
                        &&& 0 <= k < n - 1
                        &&& gives(
                            events[#[trigger] order[k] as int].1,
                            user,
                            before[user],
                        )
                        &&& forall|j: int, other: Seq<char>|
                            k < j < n - 1 ==> !#[trigger] gives(
                                events[order[j] as int].1,
                                user,
                                other,
                            )
                    };
                assert forall|j: int, other: Seq<char>| k < j < n implies !#[trigger] gives(
                    events[order[j] as int].1,
                    user,
                    other,
                ) by {
                    if j == n - 1 {
                        gives_is_given(event, user, other);
                    }
                }
                assert(gives(events[order[k] as int].1, user, after[user]));
            } else {
                assert forall|j: int, other: Seq<char>| 0 <= j < n implies !#[trigger] gives(
                    events[order[j] as int].1,
                    user,
                    other,
                ) by {
                    if j == n - 1 {
                        gives_is_given(event, user, other);
                    }
                }
            }
        }
    }
}

/// The name under which a user is told of.
pub open spec fn called(names: Map<Seq<char>, Seq<char>>, user: Seq<char>) -> Seq<char> {
    if names.contains_key(user) {
        names[user]
    } else {
        short_name(user)
    }
}

/// A membership is told by what it says: who joined, left, was kicked, banned or invited,
/// or knocked, by whom, and for what reason.
pub proof fn membership_is_told(
    event: LeanEvent,
    names: Map<Seq<char>, Seq<char>>,
    user: Seq<char>,
    reason: Seq<char>,
)
    requires
        object_wf(event.content),
        event.event_type@ == "m.room.member"@,
        event.state_key matches Some(key) && key@ == user,
        reason.len() > 0,
    ensures
        ({
            let line = event_line(event, names);
            let who = called(names, event.sender@);
            let whom = called(names, user);
            let says_it = |text: Seq<char>| says(event.content, "membership"@, text);
            let given = says(event.content, "reason"@, reason);
            let ungiven = says_nothing(event.content, "reason"@);
            &&& says_it("join"@) ==> line == Some(whom + " joined the room"@)
            &&& says_it("leave"@) && user == event.sender@ ==> line == Some(
                whom + " left the room"@,
            )
            &&& says_it("leave"@) && user != event.sender@ && given ==> line == Some(
                who + " kicked "@ + whom + " "@ + reason,
            )
            &&& says_it("leave"@) && user != event.sender@ && ungiven ==> line == Some(
                who + " kicked "@ + whom,
            )
            &&& says_it("ban"@) && given ==> line == Some(who + " banned "@ + whom + " "@ + reason)
            &&& says_it("ban"@) && ungiven ==> line == Some(who + " banned "@ + whom)
            &&& says_it("invite"@) ==> line == Some(who + " invited "@ + whom)
            &&& says_it("knock"@) ==> line == Some(whom + " knocked"@)
        }),
{
    reveal_strlit("m.room.create");
    reveal_strlit("m.room.member");
    assert("m.room.create"@[7] == 'c' && "m.room.member"@[7] == 'm');
    reveal_strlit("join");
    reveal_strlit("leave");
    reveal_strlit("ban");
    reveal_strlit("invite");
    reveal_strlit("knock");
    assert("join"@[0] == 'j' && "leave"@[0] == 'l' && "ban"@[0] == 'b' && "invite"@[0] == 'i'
        && "knock"@[0] == 'k');
    text_is_said(event.content, "membership"@, "join"@);
    text_is_said(event.content, "membership"@, "leave"@);
    text_is_said(event.content, "membership"@, "ban"@);
    text_is_said(event.content, "membership"@, "invite"@);
    text_is_said(event.content, "membership"@, "knock"@);
    text_is_said(event.content, "reason"@, reason);
    nothing_is_said(event.content, "reason"@);
    let who = called(names, event.sender@);
    let whom = called(names, user);
    assert(shown_name(names, event.sender@) == who);
    assert(shown_name(names, user) == whom);
    assert((who + " kicked "@ + whom) + (" "@ + reason) =~= who + " kicked "@ + whom + " "@
        + reason);
    assert((who + " banned "@ + whom) + (" "@ + reason) =~= who + " banned "@ + whom + " "@
        + reason);
    assert((who + " kicked "@ + whom) + Seq::<char>::empty() =~= who + " kicked "@ + whom);
    assert((who + " banned "@ + whom) + Seq::<char>::empty() =~= who + " banned "@ + whom);
}

/// A message tells its text behind the sender's name, or the kind of what was sent. A new
/// name or topic of the room is told in quotes.
pub proof fn message_is_told(
    event: LeanEvent,
    names: Map<Seq<char>, Seq<char>>,
    body: Seq<char>,
)
    requires
        object_wf(event.content),
    ensures
        ({
            let line = event_line(event, names);
            let who = called(names, event.sender@);
            let message = event.event_type@ == "m.room.message"@;
            let kind = |text: Seq<char>| message && says(event.content, "msgtype"@, text);
            let said = says(event.content, "body"@, body);
            let unsaid = message && says_nothing(event.content, "msgtype"@);
            &&& (kind("m.text"@) || kind("m.notice"@) || unsaid) && said ==> line == Some(
                who + ": "@ + body,
            )
            &&& kind("m.emote"@) && said ==> line == Some("* "@ + who + " "@ + body)
            &&& kind("m.image"@) ==> line == Some(who + " sent an image"@)
            &&& kind("m.video"@) ==> line == Some(who + " sent a video"@)
            &&& kind("m.audio"@) ==> line == Some(who + " sent an audio file"@)
            &&& kind("m.file"@) ==> line == Some(who + " sent a file"@)
            &&& event.event_type@ == "m.room.name"@ && says(event.content, "name"@, body) ==> line
                == Some(who + " changed room name to \""@ + body + "\""@)
            &&& event.event_type@ == "m.room.topic"@ && says(event.content, "topic"@, body) ==> line
                == Some(who + " changed room topic to \""@ + body + "\""@)
        }),
{
    reveal_strlit("m.room.create");
    reveal_strlit("m.room.member");
    reveal_strlit("m.room.message");
    reveal_strlit("m.room.name");
    reveal_strlit("m.room.topic");
    assert("m.room.create"@[7] == 'c' && "m.room.name"@[7] == 'n' && "m.room.topic"@[7] == 't');
    assert("m.room.member"@[9] == 'm' && "m.room.message"@[9] == 's');
    assert("m.room.member"@[7] == 'm' && "m.room.message"@[7] == 'm');
    reveal_strlit("m.text");
    reveal_strlit("m.notice");
    reveal_strlit("m.emote");
    reveal_strlit("m.image");
    reveal_strlit("m.video");
    reveal_strlit("m.audio");
    reveal_strlit("m.file");
    assert("m.text"@[2] == 't' && "m.notice"@[2] == 'n' && "m.emote"@[2] == 'e' && "m.image"@[2]
        == 'i' && "m.video"@[2] == 'v' && "m.audio"@[2] == 'a' && "m.file"@[2] == 'f');
    text_is_said(event.content, "msgtype"@, "m.text"@);
    text_is_said(event.content, "msgtype"@, "m.notice"@);
    text_is_said(event.content, "msgtype"@, "m.emote"@);
    text_is_said(event.content, "msgtype"@, "m.image"@);
    text_is_said(event.content, "msgtype"@, "m.video"@);
    text_is_said(event.content, "msgtype"@, "m.audio"@);
    text_is_said(event.content, "msgtype"@, "m.file"@);
    nothing_is_said(event.content, "msgtype"@);
    text_is_said(event.content, "body"@, body);
    text_is_said(event.content, "name"@, body);
    text_is_said(event.content, "topic"@, body);
    assert(shown_name(names, event.sender@) == called(names, event.sender@));
}

/// Every event has a line but for reactions.
pub proof fn reactions_are_passed_over(event: LeanEvent, names: Map<Seq<char>, Seq<char>>)
    ensures
        event.event_type@ == "m.reaction"@ <==> event_line(event, names) is None,
{
    reveal_strlit("m.reaction");
    reveal_strlit("m.room.create");
    reveal_strlit("m.room.member");
    reveal_strlit("m.room.message");
    reveal_strlit("m.room.name");
    reveal_strlit("m.room.topic");
    reveal_strlit("m.room.avatar");
    reveal_strlit("m.room.redaction");
    assert("m.reaction"@[3] == 'e');
    assert("m.room.create"@[3] == 'o');
    assert("m.room.member"@[3] == 'o');
    assert("m.room.message"@[3] == 'o');
    assert("m.room.name"@[3] == 'o');
    assert("m.room.topic"@[3] == 'o');
    assert("m.room.avatar"@[3] == 'o');
    assert("m.room.redaction"@[3] == 'o');
}

/// A stamp names the day of the month, the month by its first three letters, the year,
/// and the hour of a clock that goes to twelve twice a day.
pub proof fn stamp_by_clock(text: Seq<char>, timestamp: u64)
    requires
        is_stamp(text, timestamp),
    ensures
        exists|y: int, m: int, d: int, hour: nat, minute: nat, half: bool|
            {
                &&& #[trigger] valid_date(y, m, d)
                &&& 1 <= hour <= 12
                &&& minute < 60
                &&& timestamp as int / 60_000 == 60 * (24 * day_number(y, m, d) + (if half {
                    12int
                } else {
                    0
                }) + hour % 12) + minute
                &&& text == #[trigger] told(y, m, d, hour, minute, half)
            },
{
    let seconds = timestamp as int / 1000;
    let (y, m, d) = choose|y: int, m: int, d: int|
        {
            &&& #[trigger] valid_date(y, m, d)
            &&& day_number(y, m, d) == seconds / 86400
            &&& text == stamp_text(y, m, d, (seconds % 86400) as nat)
        };
    let rest = (seconds % 86400) as nat;
    let hours = rest / 3600;
    let minute = (rest % 3600) / 60;
    let hour = clock_hour(hours);
    let half = hours >= 12;
    months_by_letters(m);
    assert(hour % 12 + (if half {
        12int
    } else {
        0
    }) == hours);
    assert(text =~= told(y, m, d, hour, minute, half));
}

/// A stamp by its parts.
pub open spec fn told(y: int, m: int, d: int, hour: nat, minute: nat, half: bool) -> Seq<char> {
    decimal(d as nat) + " "@ + "JanFebMarAprMayJunJulAugSepOctNovDec"@.subrange(
        3 * (m - 1),
        3 * m,
    ) + " "@ + decimal(y as nat) + " "@ + padded(hour, 2) + ":"@ + padded(minute, 2) + " "@
        + if half {
        "PM"@
    } else {
        "AM"@
    }
}

proof fn months_by_letters(m: int)
    requires
        1 <= m <= 12,
    ensures
        month_text(m) == "JanFebMarAprMayJunJulAugSepOctNovDec"@.subrange(3 * (m - 1), 3 * m),
{
    reveal_strlit("JanFebMarAprMayJunJulAugSepOctNovDec");
    reveal_strlit("Jan");
    reveal_strlit("Feb");
    reveal_strlit("Mar");
    reveal_strlit("Apr");
    reveal_strlit("May");
    reveal_strlit("Jun");
    reveal_strlit("Jul");
    reveal_strlit("Aug");
    reveal_strlit("Sep");
    reveal_strlit("Oct");
    reveal_strlit("Nov");
    reveal_strlit("Dec");
    assert(month_text(m) =~= "JanFebMarAprMayJunJulAugSepOctNovDec"@.subrange(
        3 * (m - 1),
        3 * m,
    ));
}

/// The lines of an event: what it tells, and its date below.
pub open spec fn lines_of(line: Seq<char>, stamp: Seq<char>) -> Seq<char> {
    line + "\n"@ + stamp + "\n"@
}

proof fn lines_grow(
    events: Seq<(String, LeanEvent)>,
    order: Seq<usize>,
    names: Map<Seq<char>, Seq<char>>,
    stamps: Seq<Seq<char>>,
    i: nat,
    n: nat,
)
    requires
        i <= n,
    ensures
        ({
            let (part, whole) = (
                timeline_lines(events, order, names, stamps, i).0,
                timeline_lines(events, order, names, stamps, n).0,
            );
            part.len() <= whole.len() && whole.take(part.len() as int) == part
        }),
    decreases n,
{
    let part = timeline_lines(events, order, names, stamps, i).0;
    let whole = timeline_lines(events, order, names, stamps, n).0;
    if i < n {
        lines_grow(events, order, names, stamps, i, (n - 1) as nat);
        let before = timeline_lines(events, order, names, stamps, (n - 1) as nat).0;
        assert(before.len() <= whole.len() && whole.take(before.len() as int) =~= before);
        assert(whole.take(part.len() as int) =~= before.take(part.len() as int));
    } else {
        assert(whole.take(part.len() as int) =~= part);
    }
}

/// Every event that has a line is told, with its date below, and those of later places
/// come later.
pub proof fn events_are_told(
    events: Seq<(String, LeanEvent)>,
    order: Seq<usize>,
    names: Map<Seq<char>, Seq<char>>,
    stamps: Seq<Seq<char>>,
    n: nat,
    i: int,
    line: Seq<char>,
)
    requires
        0 <= i < n,
        event_line(events[order[i] as int].1, names) == Some(line),
    ensures
        ({
            let text = timeline_lines(events, order, names, stamps, n).0;
            let end = timeline_lines(events, order, names, stamps, (i + 1) as nat).0.len();
            let block = lines_of(line, stamps[i]);
            &&& timeline_lines(events, order, names, stamps, i as nat).0.len() + block.len()
                <= end <= text.len()
            &&& text.subrange(end - block.len(), end as int) == block
        }),
{
    let next = timeline_lines(events, order, names, stamps, (i + 1) as nat).0;
    let text = timeline_lines(events, order, names, stamps, n).0;
    let before = timeline_lines(events, order, names, stamps, i as nat);
    let block = lines_of(line, stamps[i]);
    lines_grow(events, order, names, stamps, (i + 1) as nat, n);
    let gap = if stamps[i] != before.1 && before.1.len() > 0 {
        "\n"@
    } else {
        Seq::empty()
    };
    assert(next =~= before.0 + gap + block);
    assert(next.subrange(next.len() - block.len(), next.len() as int) =~= block);
    assert(text.subrange(next.len() - block.len(), next.len() as int) =~= text.take(
        next.len() as int,
    ).subrange(next.len() - block.len(), next.len() as int));
}

/// A timeline tells the events by depth, each once, under the names that they give and with
/// their own dates.
pub proof fn timeline_by_order(text: Seq<char>, events: Seq<(String, LeanEvent)>)
    requires
        is_timeline(text, events),
    ensures
        exists|order: Seq<usize>, stamps: Seq<Seq<char>>|
            {
                &&& order.len() == events.len()
                &&& order.to_multiset() == Seq::new(
                    events.len(),
                    |i: int| i as usize,
                ).to_multiset()
                &&& forall|i: int, j: int|
                    0 <= i < j < order.len() ==> events[#[trigger] order[i] as int].1.depth
                        <= events[#[trigger] order[j] as int].1.depth
                &&& forall|i: int|
                    0 <= i < events.len() ==> is_stamp(
                        #[trigger] stamps[i],
                        events[order[i] as int].1.origin_server_ts,
                    )
                &&& text == (#[trigger] timeline_lines(
                    events,
                    order,
                    names_after(events, order, order.len()),
                    stamps,
                    order.len(),
                )).0
            },
{
    let (order, stamps) = choose|order: Seq<usize>, stamps: Seq<Seq<char>>|
        {
            &&& depth_sorted(events, order)
            &&& order.to_multiset() == Seq::new(events.len(), |i: int| i as usize).to_multiset()
            &&& stamps.len() == events.len()
            &&& order.len() == events.len()
            &&& forall|i: int|
                0 <= i < events.len() ==> is_stamp(
                    #[trigger] stamps[i],
                    events[order[i] as int].1.origin_server_ts,
                )
            &&& text == (#[trigger] timeline_lines(
                events,
                order,
                names_after(events, order, order.len()),
                stamps,
                order.len(),
            )).0
        };
    assert forall|i: int, j: int| 0 <= i < j < order.len() implies events[#[trigger] order[i]
        as int].1.depth <= events[#[trigger] order[j] as int].1.depth by {
        assert(!later(events[order[i] as int].1, events[order[j] as int].1));
    }
    assert(timeline_lines(
        events,
        order,
        names_after(events, order, order.len()),
        stamps,
        order.len(),
    ).0 == text);
}

} // verus!
