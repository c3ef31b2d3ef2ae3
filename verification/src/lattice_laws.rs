//! What lattice resolution decides, in terms of the events themselves.

use vstd::prelude::*;
use vstd::utf8::encode_utf8;
use crate::bytes::first_difference_decides;
use crate::collections::TextMap;
use crate::event_laws::{says, text_is_said};
use crate::events::{events_wf, LeanEvent, StateResVersion};
use crate::lattice::{
    beats, competes, id_under, is_power, lattice_resolution, resolved_id, routing, winners_of, wins,
};
use crate::state_map::KeyText;

verus! {

/// Two events have the same place with respect to the mainline: the same position,
/// or none.
pub open spec fn same_position(
    a: LeanEvent,
    b: LeanEvent,
    distances: Map<Seq<char>, usize>,
) -> bool {
    let (x, y) = (a.event_id@, b.event_id@);
    ||| distances.contains_key(x) && distances.contains_key(y) && distances[x] == distances[y]
    ||| !distances.contains_key(x) && !distances.contains_key(y)
}

/// One event is nearer to the mainline than another: its position is smaller, or the
/// other has none.
pub open spec fn nearer(
    a: LeanEvent,
    b: LeanEvent,
    distances: Map<Seq<char>, usize>,
    mainline_len: nat,
) -> bool {
    let (x, y) = (a.event_id@, b.event_id@);
    &&& distances.contains_key(x)
    &&& if distances.contains_key(y) {
        distances[x] < distances[y]
    } else {
        distances[x] < mainline_len
    }
}

/// The nearer event wins. Of events in the same position, whatever it is, the one
/// with the later timestamp wins, and of those from one moment the one whose id has
/// the larger byte where the ids first differ, or goes on where the other ends.
pub proof fn winner_by_fields(
    a: LeanEvent,
    b: LeanEvent,
    distances: Map<Seq<char>, usize>,
    mainline_len: nat,
    i: int,
)
    ensures
        nearer(a, b, distances, mainline_len) ==> beats(a, b, distances, mainline_len) && !beats(
            b,
            a,
            distances,
            mainline_len,
        ),
        same_position(a, b, distances) && a.origin_server_ts > b.origin_server_ts ==> beats(
            a,
            b,
            distances,
            mainline_len,
        ) && !beats(b, a, distances, mainline_len),
        same_position(a, b, distances) && a.origin_server_ts == b.origin_server_ts && ({
            let (x, y) = (encode_utf8(a.event_id@), encode_utf8(b.event_id@));
            0 <= i <= y.len() && i < x.len() && x.take(i) == y.take(i) && (i == y.len() || x[i]
                > y[i])
        }) ==> beats(a, b, distances, mainline_len) && !beats(b, a, distances, mainline_len),
{
    let (x, y) = (encode_utf8(a.event_id@), encode_utf8(b.event_id@));
    if 0 <= i <= y.len() && i < x.len() && x.take(i) == y.take(i) && (i == y.len() || x[i] > y[i]) {
        first_difference_decides(y, x, i);
    }
}

/// An authorized event has the type and the state key.
pub open spec fn sets_state(
    events: Seq<(String, LeanEvent)>,
    authorized: Seq<bool>,
    key: KeyText,
    j: int,
) -> bool {
    &&& 0 <= j < events.len()
    &&& authorized[j]
    &&& events[j].1.event_type@ == key.0
    &&& match events[j].1.state_key {
        Some(text) => key.1 == Some(text@),
        None => key.1 is None,
    }
}

/// The state of a key that no authorized event sets is what the power phase resolved,
/// or else what was never in conflict. The state of any other key is an authorized
/// event that sets it: none of the others that do is nearer to the mainline, nor, in
/// the same position, later. An event that is not authorized does not matter.
pub proof fn resolution_by_fields(
    unconflicted: Map<KeyText, String>,
    resolved: Map<KeyText, String>,
    events: TextMap<LeanEvent>,
    authorized: Seq<bool>,
    distances: Map<Seq<char>, usize>,
    mainline_len: nat,
    state: Map<KeyText, String>,
    key: KeyText,
) -> (chosen: int)
    requires
        events_wf(events),
        lattice_resolution(
            unconflicted,
            resolved,
            events.entries@,
            authorized,
            distances,
            mainline_len,
            state,
        ),
    ensures
        ({
            let all = events.entries@;
            if exists|j: int| sets_state(all, authorized, key, j) {
                &&& sets_state(all, authorized, key, chosen)
                &&& state.contains_key(key)
                &&& state[key]@ == all[chosen].1.event_id@
                &&& forall|j: int| #[trigger]
                    sets_state(all, authorized, key, j) ==> !nearer(all[j].1, all[chosen].1, distances, mainline_len) && !(
                    same_position(all[j].1, all[chosen].1, distances) && all[j].1.origin_server_ts
                        > all[chosen].1.origin_server_ts)
            } else if resolved.contains_key(key) {
                state.contains_key(key) && state[key]@ == resolved[key]@
            } else if unconflicted.contains_key(key) {
                state.contains_key(key) && state[key]@ == unconflicted[key]@
            } else {
                !state.contains_key(key)
            }
        }),
{
    let all = events.entries@;
    let n = all.len() as int;
    let winners = choose|winners: Map<KeyText, usize>|
        {
            &&& #[trigger] winners_of(
                winners,
                all,
                authorized,
                distances,
                mainline_len,
                0,
                n,
            )
            &&& forall|key: KeyText| #[trigger]
                id_under(state, key) == resolved_id(unconflicted, resolved, winners, all, key)
        };
    assert forall|j: int| #[trigger]
        sets_state(all, authorized, key, j) <==> competes(all, authorized, 0, n, key, j) by {}
    assert(id_under(state, key) == resolved_id(unconflicted, resolved, winners, all, key));
    assert(winners.contains_key(key) <==> exists|i: int| competes(all, authorized, 0, n, key, i));
    if exists|j: int| sets_state(all, authorized, key, j) {
        let j = choose|j: int| sets_state(all, authorized, key, j);
        assert(sets_state(all, authorized, key, j));
        assert(competes(all, authorized, 0, n, key, j));
        let chosen = winners[key] as int;
        assert(wins(all, authorized, distances, mainline_len, 0, n, key, chosen));
        assert(sets_state(all, authorized, key, chosen));
        assert forall|j: int| #[trigger] sets_state(all, authorized, key, j) implies !nearer(
            all[j].1,
            all[chosen].1,
            distances,
            mainline_len,
        ) && !(same_position(all[j].1, all[chosen].1, distances) && all[j].1.origin_server_ts
            > all[chosen].1.origin_server_ts) by {
            assert(competes(all, authorized, 0, n, key, j));
            winner_by_fields(all[j].1, all[chosen].1, distances, mainline_len, 0);
        }
        chosen
    } else {
        if winners.contains_key(key) {
            let i = choose|i: int| competes(all, authorized, 0, n, key, i);
            assert(sets_state(all, authorized, key, i));
        }
        0
    }
}

/// Every event goes to one side. Creation, power levels and join rules are power
/// events in every version. A membership is one in the first two versions, and from
/// then on where it is a ban, or a leave of someone other than the sender. No other
/// type of event ever is.
pub proof fn routing_by_type(
    events: TextMap<LeanEvent>,
    version: StateResVersion,
    power: Seq<(String, LeanEvent)>,
    others: Seq<(String, LeanEvent)>,
    entry: (String, LeanEvent),
)
    requires
        events_wf(events),
        routing(events.entries@, version, power, others),
        events.entries@.contains(entry),
    ensures
        power.len() + others.len() == events.entries@.len(),
        power.contains(entry) != others.contains(entry),
        ({
            let kind = entry.1.event_type@;
            let first_versions = version == StateResVersion::V1 || version == StateResVersion::V2;
            &&& kind == "m.room.create"@ || kind == "m.room.power_levels"@ || kind
                == "m.room.join_rules"@ ==> power.contains(entry)
            &&& kind == "m.room.member"@ && first_versions ==> power.contains(entry)
            &&& kind == "m.room.member"@ && !first_versions ==> (power.contains(entry) <==> {
                ||| says(entry.1.content, "membership"@, "ban"@)
                ||| says(entry.1.content, "membership"@, "leave"@) && !(entry.1.state_key matches Some(
                    target,
                ) && target@ == entry.1.sender@)
            })
            &&& kind != "m.room.create"@ && kind != "m.room.power_levels"@ && kind
                != "m.room.join_rules"@ && kind != "m.room.member"@ ==> others.contains(entry)
        }),
{
    let all = events.entries@;
    let yes = |entry: (String, LeanEvent)| is_power(entry.1, version);
    let no = |entry: (String, LeanEvent)| !is_power(entry.1, version);
    filters_part(all, yes, no);
    let i = choose|i: int| 0 <= i < all.len() && all[i] == entry;
    if yes(entry) {
        all.lemma_filter_contains(yes, i);
    } else {
        all.lemma_filter_contains(no, i);
    }
    reveal_strlit("ban");
    reveal_strlit("leave");
    reveal_strlit("m.room.create");
    reveal_strlit("m.room.power_levels");
    reveal_strlit("m.room.join_rules");
    reveal_strlit("m.room.member");
    assert("m.room.member"@.len() == 13);
    assert("m.room.create"@.len() == 13);
    assert("m.room.member"@[7] == 'm' && "m.room.create"@[7] == 'c');
    assert("m.room.power_levels"@.len() == 19);
    assert("m.room.join_rules"@.len() == 17);
    text_is_said(entry.1.content, "membership"@, "ban"@);
    text_is_said(entry.1.content, "membership"@, "leave"@);
}

/// A filter and its opposite keep every item between them.
proof fn filters_part<T>(items: Seq<T>, yes: spec_fn(T) -> bool, no: spec_fn(T) -> bool)
    requires
        forall|item: T| #[trigger] yes(item) == !no(item),
    ensures
        items.filter(yes).len() + items.filter(no).len() == items.len(),
        forall|item: T| #[trigger] items.filter(yes).contains(item) ==> yes(item),
        forall|item: T| #[trigger] items.filter(no).contains(item) ==> no(item),
    decreases items.len(),
{
    reveal(Seq::filter);
    if items.len() > 0 {
        filters_part(items.drop_last(), yes, no);
    }
    assert forall|item: T| #[trigger] items.filter(yes).contains(item) implies yes(item) by {
        items.lemma_filter_contains_rev(yes, item);
    }
    assert forall|item: T| #[trigger] items.filter(no).contains(item) implies no(item) by {
        items.lemma_filter_contains_rev(no, item);
    }
}

} // verus!
