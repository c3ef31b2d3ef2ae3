//! Which power events and senders have.

use vstd::prelude::*;
use crate::collections::{key_position, TextMap};
use crate::event_laws::{counts, has_entry, member_is_entry, number_is_counted, says, text_is_said};
use crate::events::{events_wf, json_member, object_wf, LeanEvent, StateResVersion};
use crate::json::Json;
use crate::power::{
    candidates, first_version, last_levels, level_in, level_of, levels_applied, raw_wf, sets_levels,
    stated_version, users_wf, version_of,
};
use crate::text::decimal;

verus! {

/// Creation, power levels, join rules and memberships take part in the resolution of
/// power, and nothing else. Those of the creator count 100, as does the creation
/// itself, and those of all others nothing.
pub proof fn candidates_by_fields(
    events: Seq<(String, LeanEvent)>,
    creator: Seq<char>,
    powers: Seq<Option<i64>>,
    i: int,
)
    requires
        candidates(events, creator, powers),
        0 <= i < events.len(),
    ensures
        powers.len() == events.len(),
        ({
            let event = events[i].1;
            let kind = event.event_type@;
            let counted = kind == "m.room.create"@ || kind == "m.room.power_levels"@ || kind
                == "m.room.join_rules"@ || kind == "m.room.member"@;
            &&& powers[i] is Some <==> counted
            &&& kind == "m.room.create"@ ==> powers[i] == Some(100i64)
            &&& counted && creator.len() > 0 && event.sender@ == creator ==> powers[i] == Some(
                100i64,
            )
            &&& counted && kind != "m.room.create"@ && (creator.len() == 0 || event.sender@
                != creator) ==> powers[i] == Some(0i64)
        }),
{
}

/// A known event with the id sets the power levels of the room.
pub open spec fn levels_event(events: TextMap<LeanEvent>, id: Seq<char>, p: int) -> bool {
    &&& 0 <= p < events.entries@.len()
    &&& events.entries@[p].0@ == id
    &&& events.entries@[p].1.event_type@ == "m.room.power_levels"@
    &&& events.entries@[p].1.state_key matches Some(key) && key@.len() == 0
}

/// The content gives the user the level: by name, or else by default, or else none.
pub open spec fn grants(content: Json, user: Seq<char>, level: int) -> bool {
    let named = |n: int|
        exists|users: Json| #[trigger] has_entry(content, "users"@, users) && counts(users, user, n);
    ||| named(level)
    ||| (forall|n: int| !#[trigger] named(n)) && (counts(content, "users_default"@, level) || (level
        == 0 && forall|n: int| !#[trigger] counts(content, "users_default"@, n)))
}

proof fn level_is_granted(content: Json, user: Seq<char>)
    requires
        object_wf(content),
        json_member(content, "users"@) matches Some(users) ==> object_wf(users),
    ensures
        grants(content, user, level_in(content, user)),
{
    let named = |n: int|
        exists|users: Json| #[trigger] has_entry(content, "users"@, users) && counts(users, user, n);
    let level = level_in(content, user);
    assert forall|n: int| #[trigger] named(n) implies json_member(content, "users"@) is Some && (
    json_member(json_member(content, "users"@)->0, user) matches Some(held)
        && crate::events::json_i64(held) == Some(n)) by {
        let users = choose|users: Json| #[trigger]
            has_entry(content, "users"@, users) && counts(users, user, n);
        member_is_entry(content, "users"@, users);
        number_is_counted(users, user, n);
    }
    if let Some(users) = json_member(content, "users"@) {
        member_is_entry(content, "users"@, users);
        number_is_counted(users, user, level);
        if json_member(users, user) matches Some(held) && crate::events::json_i64(held) is Some {
            assert(named(level));
        }
    }
    if !named(level) {
        assert forall|n: int| !#[trigger] named(n) by {}
        number_is_counted(content, "users_default"@, level);
        if !counts(content, "users_default"@, level) {
            assert forall|n: int| !#[trigger] counts(content, "users_default"@, n) by {
                number_is_counted(content, "users_default"@, n);
            }
        }
    }
}

proof fn sets_is_event(events: TextMap<LeanEvent>, id: Seq<char>, p: int)
    requires
        events_wf(events),
        0 <= p < events.entries@.len(),
        events.entries@[p].0@ == id,
    ensures
        sets_levels(events, id) <==> levels_event(events, id, p),
        events.view().contains_key(id),
        events.view()[id] == events.entries@[p].1,
{
    events.entry_facts(p);
    if sets_levels(events, id) {
        let key = events.entries@[p].1.state_key->0;
        assert(key@.len() == 0);
    }
    if levels_event(events, id, p) {
        let key = events.entries@[p].1.state_key->0;
        assert(key@ =~= Seq::<char>::empty());
    }
}

proof fn last_is_last(events: TextMap<LeanEvent>, ids: Seq<String>, n: nat)
    requires
        n <= ids.len(),
    ensures
        match last_levels(events, ids, n) {
            Some(id) => exists|k: int|
                0 <= k < n && (#[trigger] ids[k])@ == id && sets_levels(events, id) && forall|
                    j: int,
                |
                    k < j < n ==> !sets_levels(events, (#[trigger] ids[j])@),
            None => forall|j: int| 0 <= j < n ==> !sets_levels(events, (#[trigger] ids[j])@),
        },
    decreases n,
{
    if n > 0 {
        if sets_levels(events, ids[n - 1]@) {
            assert(ids[n - 1]@ == last_levels(events, ids, n)->0);
        } else {
            last_is_last(events, ids, (n - 1) as nat);
        }
    }
}

/// Every event gets the power level that the room's last power levels, in the given
/// order, grant its sender, or none where there are no power levels. Nothing else of
/// an event changes.
pub proof fn levels_by_fields(
    before: TextMap<LeanEvent>,
    ids: Seq<String>,
    after: Seq<(String, LeanEvent)>,
    i: int,
)
    requires
        events_wf(before),
        users_wf(before),
        levels_applied(before, ids, after),
        0 <= i < before.entries@.len(),
    ensures
        after.len() == before.entries@.len(),
        after[i].0 == before.entries@[i].0,
        ({
            let (old_event, event) = (before.entries@[i].1, after[i].1);
            &&& event.event_id == old_event.event_id
            &&& event.event_type == old_event.event_type
            &&& event.state_key == old_event.state_key
            &&& event.is_state == old_event.is_state
            &&& event.sender == old_event.sender
            &&& event.origin_server_ts == old_event.origin_server_ts
            &&& event.depth == old_event.depth
            &&& event.prev_events == old_event.prev_events
            &&& event.auth_events == old_event.auth_events
            &&& event.content == old_event.content
        }),
        forall|k: int, p: int|
            0 <= k < ids.len() && #[trigger] levels_event(before, ids[k]@, p) && (forall|
                j: int,
                q: int,
            |
                k < j < ids.len() ==> !#[trigger] levels_event(before, ids[j]@, q)) ==> grants(
                before.entries@[p].1.content,
                before.entries@[i].1.sender@,
                after[i].1.power_level as int,
            ),
        (forall|k: int, p: int|
            0 <= k < ids.len() ==> !#[trigger] levels_event(before, ids[k]@, p))
            ==> after[i].1.power_level == 0,
{
    let user = before.entries@[i].1.sender@;
    let level = level_of(before, ids, user);
    last_is_last(before, ids, ids.len());
    assert forall|j: int| 0 <= j < ids.len() && sets_levels(before, (#[trigger] ids[j])@) implies
        exists|p: int| levels_event(before, ids[j]@, p) by {
        let p = key_position(before.entries@, ids[j]@);
        assert(before.entries@[p].0@ == ids[j]@);
        sets_is_event(before, ids[j]@, p);
        assert(levels_event(before, ids[j]@, p));
    }
    level_fits(before, ids, user);
    assert(after[i].0 == before.entries@[i].0);
    assert forall|k: int, p: int|
        0 <= k < ids.len() && #[trigger] levels_event(before, ids[k]@, p) && (forall|
            j: int,
            q: int,
        |
            k < j < ids.len() ==> !#[trigger] levels_event(before, ids[j]@, q)) implies grants(
        before.entries@[p].1.content,
        user,
        after[i].1.power_level as int,
    ) by {
        sets_is_event(before, ids[k]@, p);
        let id = last_levels(before, ids, ids.len())->0;
        let m = choose|m: int|
            0 <= m < ids.len() && (#[trigger] ids[m])@ == id && sets_levels(before, id) && forall|
                j: int,
            |
                m < j < ids.len() ==> !sets_levels(before, (#[trigger] ids[j])@);
        if m > k {
            let q = choose|q: int| levels_event(before, ids[m]@, q);
            assert(levels_event(before, ids[m]@, q));
        }
        assert(m == k);
        level_is_granted(before.entries@[p].1.content, user);
    }
    if forall|k: int, p: int| 0 <= k < ids.len() ==> !#[trigger] levels_event(before, ids[k]@, p) {
        if let Some(id) = last_levels(before, ids, ids.len()) {
            let m = choose|m: int|
                0 <= m < ids.len() && (#[trigger] ids[m])@ == id && sets_levels(before, id);
            let q = choose|q: int| levels_event(before, ids[m]@, q);
            assert(levels_event(before, ids[m]@, q));
        }
    }
}

/// A power level fits in 64 bits with a sign.
proof fn level_fits(events: TextMap<LeanEvent>, ids: Seq<String>, user: Seq<char>)
    ensures
        i64::MIN <= level_of(events, ids, user) <= i64::MAX,
{
}

/// Room version 1 is resolved by the first algorithm, versions 2 to 11 by the second,
/// and versions 12 and 12.1 by those that take in the subgraph. No other number
/// below a hundred is a version.
pub proof fn versions_by_number(n: nat)
    ensures
        n == 1 ==> version_of(decimal(n)) == Some(StateResVersion::V1),
        2 <= n <= 11 ==> version_of(decimal(n)) == Some(StateResVersion::V2),
        n == 12 ==> version_of(decimal(n)) == Some(StateResVersion::V2_1),
        n == 0 || 12 < n < 100 ==> version_of(decimal(n)) is None,
        version_of(decimal(12) + ".1"@) == Some(StateResVersion::V2_1_1),
{
    reveal_strlit("1");
    reveal_strlit("2");
    reveal_strlit("3");
    reveal_strlit("4");
    reveal_strlit("5");
    reveal_strlit("6");
    reveal_strlit("7");
    reveal_strlit("8");
    reveal_strlit("9");
    reveal_strlit("10");
    reveal_strlit("11");
    reveal_strlit("12");
    reveal_strlit("12.1");
    reveal_strlit(".1");
    reveal_with_fuel(decimal, 3);
    if n < 10 {
        assert(decimal(n) =~= seq![crate::text::digit(n)]);
        assert(n == 1 ==> decimal(n) =~= "1"@);
        assert(n == 2 ==> decimal(n) =~= "2"@);
        assert(n == 3 ==> decimal(n) =~= "3"@);
        assert(n == 4 ==> decimal(n) =~= "4"@);
        assert(n == 5 ==> decimal(n) =~= "5"@);
        assert(n == 6 ==> decimal(n) =~= "6"@);
        assert(n == 7 ==> decimal(n) =~= "7"@);
        assert(n == 8 ==> decimal(n) =~= "8"@);
        assert(n == 9 ==> decimal(n) =~= "9"@);
        assert(decimal(n)[0] == crate::text::digit(n));
        assert("1"@[0] == '1');
        assert(decimal(n).len() == 1);
    } else if n < 100 {
        assert(decimal(n) =~= seq![crate::text::digit(n / 10), crate::text::digit(n % 10)]);
        assert(n == 10 ==> decimal(n) =~= "10"@);
        assert(n == 11 ==> decimal(n) =~= "11"@);
        assert(n == 12 ==> decimal(n) =~= "12"@);
        assert(decimal(n).len() == 2);
        assert("1"@.len() == 1);
        if n > 12 {
            assert(decimal(n)[0] == crate::text::digit(n / 10));
            assert(decimal(n)[1] == crate::text::digit(n % 10));
        }
    }
    assert(decimal(12) + ".1"@ =~= "12.1"@);
    assert("12.1"@.len() == 4);
}

/// The version of a list of events is the one that the content of a creation event
/// states, where no creation event before it states one.
pub proof fn version_of_first(events: Seq<Json>, i: int, version: Seq<char>)
    requires
        forall|i: int| 0 <= i < events.len() ==> raw_wf(#[trigger] events[i]),
        0 <= i < events.len(),
        states(events[i], version),
        forall|j: int, other: Seq<char>| 0 <= j < i ==> !#[trigger] states(events[j], other),
    ensures
        first_version(events, 0) == Some(version),
{
    version_from(events, i, version, 0);
}

/// The event is a creation event whose content states the room version.
pub open spec fn states(event: Json, version: Seq<char>) -> bool {
    &&& says(event, "type"@, "m.room.create"@)
    &&& exists|content: Json| #[trigger]
        has_entry(event, "content"@, content) && says(content, "room_version"@, version)
}

proof fn version_from(events: Seq<Json>, i: int, version: Seq<char>, from: nat)
    requires
        forall|i: int| 0 <= i < events.len() ==> raw_wf(#[trigger] events[i]),
        from <= i < events.len(),
        states(events[i], version),
        forall|j: int, other: Seq<char>| 0 <= j < i ==> !#[trigger] states(events[j], other),
    ensures
        first_version(events, from) == Some(version),
    decreases i - from,
{
    let event = events[from as int];
    assert(raw_wf(event));
    text_is_said(event, "type"@, "m.room.create"@);
    if from == i {
        let content = choose|content: Json| #[trigger]
            has_entry(event, "content"@, content) && says(content, "room_version"@, version);
        member_is_entry(event, "content"@, content);
        text_is_said(content, "room_version"@, version);
    } else {
        if let Some(other) = stated_version(event) {
            let content = json_member(event, "content"@)->0;
            member_is_entry(event, "content"@, content);
            text_is_said(content, "room_version"@, other);
            assert(states(events[from as int], other));
        }
        version_from(events, i, version, from + 1);
    }
}

} // verus!
