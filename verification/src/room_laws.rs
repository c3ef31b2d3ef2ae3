//! What the state of a room is, in terms of the events and what they refer to.

use vstd::prelude::*;
use crate::bitmaps::bitmap_set;
use crate::bytes::{text_le, text_le_antisymmetric};
use crate::collections::{text_le_total, text_less, TextMap};
use crate::events::{events_wf, LeanEvent};
use crate::graph::{connected, edge, is_chain, is_path, leads, touch};
use crate::resolution::{is_head, prepares, states_at, Preparation};
use crate::room::{
    before_head, chains_of, component_root, depth_sorted, disputed, head_state, id_texts, in_chain,
    later, latest, links_of, refers, sets_key, state_after, unanimous, unmentioned, AuthGraph, Link,
};
use crate::state_map::{KeyText, StateMap};

verus! {

/// The event names the id among those that came right before it.
pub open spec fn follows(event: LeanEvent, id: Seq<char>) -> bool {
    exists|k: int|
        0 <= k < event.prev_events@.len() && (#[trigger] event.prev_events@[k])@ == id
}

/// The event names the id among those that authorize it.
pub open spec fn rests_on(event: LeanEvent, id: Seq<char>) -> bool {
    exists|k: int|
        0 <= k < event.auth_events@.len() && (#[trigger] event.auth_events@[k])@ == id
}

/// The places of known events, each of which came right after the next.
pub open spec fn history(events: Seq<(String, LeanEvent)>, path: Seq<int>) -> bool {
    &&& path.len() > 0
    &&& forall|i: int| 0 <= i < path.len() ==> 0 <= #[trigger] path[i] < events.len()
    &&& forall|i: int|
        0 <= i && i + 1 < path.len() ==> follows(
            events[#[trigger] path[i]].1,
            events[path[i + 1]].0@,
        )
}

/// The places of known events, each of which is authorized by the next.
pub open spec fn authority(events: Seq<(String, LeanEvent)>, path: Seq<int>) -> bool {
    &&& path.len() > 0
    &&& forall|i: int| 0 <= i < path.len() ==> 0 <= #[trigger] path[i] < events.len()
    &&& forall|i: int|
        0 <= i && i + 1 < path.len() ==> rests_on(
            events[#[trigger] path[i]].1,
            events[path[i + 1]].0@,
        )
}

/// The event is the head or came before it. Without a head, it is any event.
pub open spec fn reached(
    events: Seq<(String, LeanEvent)>,
    head: Option<Seq<char>>,
    b: int,
) -> bool {
    &&& 0 <= b < events.len()
    &&& head matches Some(id) ==> exists|path: Seq<int>| #[trigger]
        history(events, path) && events[path[0]].0@ == id && path.last() == b
}

/// The event is a state event with the type and the state key.
pub open spec fn has_state(event: LeanEvent, key: KeyText) -> bool {
    &&& event.is_state
    &&& event.event_type@ == key.0
    &&& match event.state_key {
        Some(text) => key.1 == Some(text@),
        None => key.1 is None,
    }
}

/// The event is the deepest state event with the key that the head came after. Of
/// events as deep it has the larger id.
pub open spec fn deepest(
    events: Seq<(String, LeanEvent)>,
    head: Option<Seq<char>>,
    key: KeyText,
    b: int,
) -> bool {
    &&& reached(events, head, b)
    &&& has_state(events[b].1, key)
    &&& forall|c: int| #[trigger]
        reached(events, head, c) && has_state(events[c].1, key) ==> {
            &&& events[c].1.depth <= events[b].1.depth
            &&& events[c].1.depth == events[b].1.depth ==> text_le(
                events[c].1.event_id@,
                events[b].1.event_id@,
            )
        }
}

/// Of the marked state events with a key, the state has one that is at least as deep
/// as every other, and has the larger id where it is as deep. It has none where none
/// is marked.
pub proof fn latest_is_deepest(
    state: Map<KeyText, usize>,
    events: TextMap<LeanEvent>,
    marks: Seq<bool>,
    key: KeyText,
    j: int,
)
    requires
        events_wf(events),
        marks.len() == events.entries@.len(),
        state_after(state, events.entries@, marks, events.entries@.len() as int),
    ensures
        state.contains_key(key) ==> {
            let chosen = state[key] as int;
            &&& 0 <= chosen < events.entries@.len()
            &&& marks[chosen]
            &&& has_state(events.entries@[chosen].1, key)
        },
        0 <= j < events.entries@.len() && marks[j] && has_state(events.entries@[j].1, key) ==> {
            let chosen = events.entries@[state[key] as int].1;
            let other = events.entries@[j].1;
            &&& state.contains_key(key)
            &&& other.depth <= chosen.depth
            &&& other.depth == chosen.depth ==> text_le(other.event_id@, chosen.event_id@)
        },
{
    let all = events.entries@;
    let n = all.len() as int;
    if state.contains_key(key) {
        assert(latest(all, marks, n, key, state[key] as int));
    }
    if 0 <= j < n && marks[j] && has_state(all[j].1, key) {
        assert(sets_key(all, marks, n, key, j));
        assert(state.contains_key(key));
        text_le_total(all[j].1.event_id@, all[j].1.event_id@);
    }
}

/// A path along the links of the graph is a history.
proof fn leads_is_history(
    events: Seq<(String, LeanEvent)>,
    prev: Seq<Vec<usize>>,
    a: int,
    b: int,
)
    requires
        links_of(events, Link::Prev, prev),
        0 <= a < events.len(),
    ensures
        leads(prev, a, b) <==> exists|path: Seq<int>| #[trigger]
            history(events, path) && path[0] == a && path.last() == b,
{
    if leads(prev, a, b) {
        let path = choose|path: Seq<int>| #[trigger]
            is_path(prev, path) && path[0] == a && path.last() == b;
        path_inside(prev, path);
        assert forall|i: int| 0 <= i && i + 1 < path.len() implies follows(
            events[#[trigger] path[i]].1,
            events[path[i + 1]].0@,
        ) by {
            assert(edge(prev, path[i], path[i + 1]));
            assert(refers(events, Link::Prev, path[i], path[i + 1]));
            let event = events[path[i]].1;
            let k = choose|k: int|
                0 <= k < crate::room::references(event, Link::Prev).len() && (
                #[trigger] crate::room::references(event, Link::Prev)[k])@
                    == events[path[i + 1]].0@;
            assert(event.prev_events@[k]@ == events[path[i + 1]].0@);
        }
        assert(history(events, path));
    }
    if exists|path: Seq<int>| #[trigger]
        history(events, path) && path[0] == a && path.last() == b {
        let path = choose|path: Seq<int>| #[trigger]
            history(events, path) && path[0] == a && path.last() == b;
        assert forall|i: int| 0 <= i && i + 1 < path.len() implies edge(
            prev,
            #[trigger] path[i],
            path[i + 1],
        ) by {
            let event = events[path[i]].1;
            assert(follows(event, events[path[i + 1]].0@));
            assert(0 <= path[i + 1] < events.len());
            let k = choose|k: int|
                0 <= k < event.prev_events@.len() && (#[trigger] event.prev_events@[k])@
                    == events[path[i + 1]].0@;
            assert(crate::room::references(event, Link::Prev)[k]@ == events[path[i + 1]].0@);
            assert(refers(events, Link::Prev, path[i], path[i + 1]));
        }
        assert(0 <= path[0] < events.len());
        assert(is_path(prev, path));
    }
}

proof fn path_inside(successors: Seq<Vec<usize>>, path: Seq<int>)
    requires
        is_path(successors, path),
    ensures
        forall|i: int| 0 <= i < path.len() ==> 0 <= #[trigger] path[i] < successors.len(),
{
    assert forall|i: int| 0 <= i < path.len() implies 0 <= #[trigger] path[i]
        < successors.len() by {
        if i > 0 {
            assert(edge(successors, path[i - 1], path[i - 1 + 1]));
        }
    }
}

/// The state at a head has an event under a key exactly where it is the deepest state
/// event with the key that the head came after.
pub proof fn head_state_is_deepest(
    events: TextMap<LeanEvent>,
    prev: Seq<Vec<usize>>,
    head: Option<Seq<char>>,
    state: Map<KeyText, usize>,
    key: KeyText,
    b: usize,
)
    requires
        events_wf(events),
        links_of(events.entries@, Link::Prev, prev),
        head_state(events.entries@, prev, head, state),
    ensures
        state.contains_key(key) && state[key] == b <==> deepest(
            events.entries@,
            head,
            key,
            b as int,
        ),
{
    let all = events.entries@;
    let n = all.len() as int;
    let marks = choose|marks: Seq<bool>|
        {
            &&& marks.len() == all.len()
            &&& forall|b: int|
                0 <= b < marks.len() ==> (#[trigger] marks[b] <==> match head {
                    Some(head) => before_head(all, prev, head, b),
                    None => true,
                })
            &&& #[trigger] state_after(state, all, marks, n)
        };
    assert forall|c: int| 0 <= c < n implies (#[trigger] marks[c] <==> reached(
        all,
        head,
        c,
    )) by {
        if let Some(id) = head {
            marked_is_reached(all, prev, id, c);
        }
    }
    if state.contains_key(key) {
        let i = state[key] as int;
        assert(latest(all, marks, n, key, i));
        assert(deepest(all, head, key, i)) by {
            assert forall|c: int| #[trigger]
                reached(all, head, c) && has_state(all[c].1, key) implies {
                &&& all[c].1.depth <= all[i].1.depth
                &&& all[c].1.depth == all[i].1.depth ==> text_le(
                    all[c].1.event_id@,
                    all[i].1.event_id@,
                )
            } by {
                latest_is_deepest(state, events, marks, key, c);
            }
        }
        if deepest(all, head, key, b as int) && b != i {
            assert(reached(all, head, i));
            assert(sets_key(all, marks, n, key, b as int));
            assert(later(all[i].1, all[b as int].1));
            text_le_antisymmetric_if(all[i].1.event_id@, all[b as int].1.event_id@);
        }
    } else if deepest(all, head, key, b as int) {
        assert(sets_key(all, marks, n, key, b as int));
    }
}

proof fn text_le_antisymmetric_if(a: Seq<char>, b: Seq<char>)
    ensures
        text_le(a, b) && text_le(b, a) ==> a == b,
{
    if text_le(a, b) && text_le(b, a) {
        text_le_antisymmetric(a, b);
    }
}

proof fn marked_is_reached(
    events: Seq<(String, LeanEvent)>,
    prev: Seq<Vec<usize>>,
    id: Seq<char>,
    c: int,
)
    requires
        links_of(events, Link::Prev, prev),
        0 <= c < events.len(),
    ensures
        before_head(events, prev, id, c) <==> reached(events, Some(id), c),
{
    if before_head(events, prev, id, c) {
        let a = choose|a: int|
            0 <= a < events.len() && (#[trigger] events[a]).0@ == id && leads(prev, a, c);
        leads_is_history(events, prev, a, c);
        let path = choose|path: Seq<int>| #[trigger]
            history(events, path) && path[0] == a && path.last() == c;
        assert(history(events, path) && events[path[0]].0@ == id);
    }
    if reached(events, Some(id), c) {
        let path = choose|path: Seq<int>| #[trigger]
            history(events, path) && events[path[0]].0@ == id && path.last() == c;
        let a = path[0];
        assert(0 <= path[0] < events.len());
        leads_is_history(events, prev, a, c);
        assert(history(events, path) && path[0] == a && path.last() == c);
        assert(events[a].0@ == id && leads(prev, a, c));
    }
}

/// The heads of a graph are the ids of the events that no event came right after,
/// each once.
pub proof fn heads_follow_all(events: TextMap<LeanEvent>, id: Seq<char>)
    requires
        events_wf(events),
    ensures
        unmentioned(events.entries@).contains(id) <==> (exists|i: int|
            0 <= i < events.entries@.len() && (#[trigger] events.entries@[i]).0@ == id) && forall|
            i: int,
        |
            0 <= i < events.entries@.len() ==> !follows((#[trigger] events.entries@[i]).1, id),
        unmentioned(events.entries@).no_duplicates(),
{
    let all = events.entries@;
    let ids = crate::room::event_ids(all);
    let free = |id: Seq<char>| !crate::room::mentioned(all, id);
    if unmentioned(all).contains(id) {
        ids.lemma_filter_contains_rev(free, id);
        let j = choose|j: int| 0 <= j < unmentioned(all).len() && unmentioned(all)[j] == id;
        ids.lemma_filter_pred(free, j);
        let i = choose|i: int| 0 <= i < ids.len() && ids[i] == id;
        assert(all[i].0@ == id);
        assert forall|i: int| 0 <= i < all.len() implies !follows((#[trigger] all[i]).1, id) by {
            if follows(all[i].1, id) {
                let k = choose|k: int|
                    0 <= k < all[i].1.prev_events@.len() && (
                    #[trigger] all[i].1.prev_events@[k])@ == id;
                assert(crate::room::mentioned(all, id));
            }
        }
    }
    if (exists|i: int| 0 <= i < all.len() && (#[trigger] all[i]).0@ == id) && forall|i: int|
        0 <= i < all.len() ==> !follows((#[trigger] all[i]).1, id) {
        let i = choose|i: int| 0 <= i < all.len() && (#[trigger] all[i]).0@ == id;
        assert(ids[i] == id);
        if crate::room::mentioned(all, id) {
            let (a, k) = choose|a: int, k: int|
                0 <= a < all.len() && 0 <= k < all[a].1.prev_events@.len() && (
                #[trigger] all[a].1.prev_events@[k])@ == id;
            assert(follows(all[a].1, id));
        }
        ids.lemma_filter_contains(free, i);
    }
    assert(ids.no_duplicates()) by {
        assert forall|i: int, j: int| 0 <= i < ids.len() && 0 <= j < ids.len() && i != j implies
            ids[i] != ids[j] by {
            if i < j {
                assert(text_less(all[i].0@, all[j].0@));
            } else {
                assert(text_less(all[j].0@, all[i].0@));
            }
        }
    }
    filter_distinct(ids, free);
}

proof fn filter_distinct<T>(items: Seq<T>, pred: spec_fn(T) -> bool)
    requires
        items.no_duplicates(),
    ensures
        items.filter(pred).no_duplicates(),
    decreases items.len(),
{
    reveal(Seq::filter);
    if items.len() > 0 {
        let front = items.drop_last();
        filter_distinct(front, pred);
        let kept = front.filter(pred);
        assert forall|i: int| 0 <= i < kept.len() implies kept[i] != items.last() by {
            front.lemma_filter_contains_rev(pred, kept[i]);
            let j = choose|j: int| 0 <= j < front.len() && front[j] == kept[i];
            assert(items[j] != items[items.len() - 1]);
        }
    }
}

/// The heads that resolution starts from: those that were given, else those of the
/// graph; and where there are none at all, the state after every event.
pub open spec fn start(heads: Seq<Seq<char>>, i: int) -> Option<Seq<char>> {
    if heads.len() == 0 {
        None
    } else {
        Some(heads[i])
    }
}

/// How many states there are to agree.
pub open spec fn starts(heads: Seq<Seq<char>>) -> int {
    if heads.len() == 0 {
        1
    } else {
        heads.len() as int
    }
}

/// Resolution starts from the given heads, or from those of the graph. An event is
/// agreed on under a key exactly where it is the deepest state event with that key
/// before every head. An event is in dispute exactly where it is that for some head
/// and some key, and not for every head. The difference of the auth chains has the
/// events that authorize some head, directly or not, and do not authorize every one.
pub proof fn preparation_by_events(
    events: TextMap<LeanEvent>,
    given: Seq<Seq<char>>,
    prepared: Preparation,
    key: KeyText,
    b: usize,
)
    requires
        events_wf(events),
        prepares(events.entries@, given, prepared),
    ensures
        given.len() > 0 ==> id_texts(prepared.heads@) == given,
        given.len() == 0 ==> id_texts(prepared.heads@) == unmentioned(events.entries@),
        prepared.agreed.view().contains_key(key) && prepared.agreed.view()[key] == b <==> (forall|
            i: int,
        |
            0 <= i < starts(id_texts(prepared.heads@)) ==> deepest(
                events.entries@,
                #[trigger] start(id_texts(prepared.heads@), i),
                key,
                b as int,
            )),
        b < events.entries@.len() ==> (prepared.disputed@[b as int] <==> exists|
            i: int,
            key: KeyText,
        |
            0 <= i < starts(id_texts(prepared.heads@)) && #[trigger] deepest(
                events.entries@,
                start(id_texts(prepared.heads@), i),
                key,
                b as int,
            ) && exists|j: int|
                0 <= j < starts(id_texts(prepared.heads@)) && !deepest(
                    events.entries@,
                    #[trigger] start(id_texts(prepared.heads@), j),
                    key,
                    b as int,
                )),
{
    let all = events.entries@;
    let heads = id_texts(prepared.heads@);
    let (prev, states) = choose|prev: Seq<Vec<usize>>, states: Seq<StateMap<usize>>|
        #![trigger states_at(all, prev, heads, states)]
        {
            &&& links_of(all, Link::Prev, prev)
            &&& states_at(all, prev, heads, states)
            &&& crate::resolution::splits(states, prepared.agreed.view(), prepared.disputed@)
        };
    assert forall|i: int, k: KeyText| 0 <= i < states.len() implies ((
    #[trigger] states[i].view().contains_key(k) && states[i].view()[k] == b) <==> deepest(
        all,
        start(heads, i),
        k,
        b as int,
    )) by {
        assert(head_state(all, prev, start(heads, i), states[i].view()));
        head_state_is_deepest(events, prev, start(heads, i), states[i].view(), k, b);
    }
    assert(unanimous(states, key, b) <==> (forall|i: int|
        0 <= i < starts(heads) ==> deepest(all, #[trigger] start(heads, i), key, b as int))) by {
        unanimous_is_deepest(all, heads, states, key, b);
    }
    if b < all.len() {
        if disputed(states, b) {
            let (i, k) = choose|i: int, k: KeyText|
                0 <= i < states.len() && #[trigger] states[i].view().contains_key(k)
                    && states[i].view()[k] == b && !unanimous(states, k, b);
            unanimous_is_deepest(all, heads, states, k, b);
            assert(deepest(all, start(heads, i), k, b as int));
        }
        if exists|i: int, key: KeyText|
            0 <= i < starts(heads) && #[trigger] deepest(all, start(heads, i), key, b as int)
                && exists|j: int|
                0 <= j < starts(heads) && !deepest(
                    all,
                    #[trigger] start(heads, j),
                    key,
                    b as int,
                ) {
            let (i, k) = choose|i: int, key: KeyText|
                0 <= i < starts(heads) && #[trigger] deepest(all, start(heads, i), key, b as int)
                    && exists|j: int|
                    0 <= j < starts(heads) && !deepest(
                        all,
                        #[trigger] start(heads, j),
                        key,
                        b as int,
                    );
            unanimous_is_deepest(all, heads, states, k, b);
            assert(states[i].view().contains_key(k));
            assert(disputed(states, b));
        }
    }
}

proof fn unanimous_is_deepest(
    events: Seq<(String, LeanEvent)>,
    heads: Seq<Seq<char>>,
    states: Seq<StateMap<usize>>,
    key: KeyText,
    b: usize,
)
    requires
        states.len() == starts(heads),
        forall|i: int, k: KeyText|
            0 <= i < states.len() ==> ((#[trigger] states[i].view().contains_key(k)
                && states[i].view()[k] == b) <==> deepest(events, start(heads, i), k, b as int)),
    ensures
        unanimous(states, key, b) <==> (forall|i: int|
            0 <= i < starts(heads) ==> deepest(
                events,
                #[trigger] start(heads, i),
                key,
                b as int,
            )),
{
    if unanimous(states, key, b) {
        assert forall|i: int| 0 <= i < starts(heads) implies deepest(
            events,
            #[trigger] start(heads, i),
            key,
            b as int,
        ) by {
            assert(states[i].view().contains_key(key));
        }
    }
    if forall|i: int|
        0 <= i < starts(heads) ==> deepest(events, #[trigger] start(heads, i), key, b as int) {
        assert forall|i: int| 0 <= i < states.len() implies (
        #[trigger] states[i]).view().contains_key(key) && states[i].view()[key] == b by {
            assert(deepest(events, start(heads, i), key, b as int));
            assert(states[i].view().contains_key(key) || !states[i].view().contains_key(key));
        }
    }
}

/// An event authorizes another, directly or through others.
pub open spec fn authorizes(events: Seq<(String, LeanEvent)>, a: int, b: int) -> bool {
    exists|path: Seq<int>| #[trigger]
        authority(events, path) && path.len() > 1 && path[0] == a && path.last() == b
}

proof fn edge_is_authority(
    events: Seq<(String, LeanEvent)>,
    auth: Seq<Vec<usize>>,
    a: int,
    b: int,
)
    requires
        links_of(events, Link::Auth, auth),
        0 <= a < events.len(),
        0 <= b < events.len(),
    ensures
        edge(auth, a, b) <==> rests_on(events[a].1, events[b].0@),
{
    let event = events[a].1;
    if edge(auth, a, b) {
        assert(refers(events, Link::Auth, a, b));
        let k = choose|k: int|
            0 <= k < crate::room::references(event, Link::Auth).len() && (
            #[trigger] crate::room::references(event, Link::Auth)[k])@ == events[b].0@;
        assert(event.auth_events@[k]@ == events[b].0@);
    }
    if rests_on(event, events[b].0@) {
        let k = choose|k: int|
            0 <= k < event.auth_events@.len() && (#[trigger] event.auth_events@[k])@
                == events[b].0@;
        assert(crate::room::references(event, Link::Auth)[k]@ == events[b].0@);
        assert(refers(events, Link::Auth, a, b));
    }
}

proof fn chain_is_authority(
    events: Seq<(String, LeanEvent)>,
    auth: Seq<Vec<usize>>,
    a: int,
    b: int,
)
    requires
        links_of(events, Link::Auth, auth),
        0 <= a < events.len(),
    ensures
        in_chain(auth, a, b) <==> authorizes(events, a, b),
{
    if in_chain(auth, a, b) {
        let p = choose|p: int| #[trigger] edge(auth, a, p) && leads(auth, p, b);
        let tail = choose|path: Seq<int>| #[trigger]
            is_path(auth, path) && path[0] == p && path.last() == b;
        path_inside(auth, tail);
        let path = seq![a] + tail;
        assert forall|i: int| 0 <= i < path.len() implies 0 <= #[trigger] path[i]
            < events.len() by {
            if i > 0 {
                assert(path[i] == tail[i - 1]);
            }
        }
        assert forall|i: int| 0 <= i && i + 1 < path.len() implies rests_on(
            events[#[trigger] path[i]].1,
            events[path[i + 1]].0@,
        ) by {
            if i > 0 {
                assert(edge(auth, tail[i - 1], tail[i - 1 + 1]));
            }
            assert(path[i + 1] == tail[i]);
            assert(edge(auth, path[i], path[i + 1]));
            assert(0 <= path[i + 1] < events.len());
            edge_is_authority(events, auth, path[i], path[i + 1]);
        }
        assert(authority(events, path));
    }
    if authorizes(events, a, b) {
        let path = choose|path: Seq<int>| #[trigger]
            authority(events, path) && path.len() > 1 && path[0] == a && path.last() == b;
        let tail = path.skip(1);
        assert forall|i: int| 0 <= i && i + 1 < path.len() implies edge(
            auth,
            #[trigger] path[i],
            path[i + 1],
        ) by {
            assert(rests_on(events[path[i]].1, events[path[i + 1]].0@));
            assert(0 <= path[i + 1] < events.len());
            edge_is_authority(events, auth, path[i], path[i + 1]);
        }
        assert forall|i: int| 0 <= i && i + 1 < tail.len() implies edge(
            auth,
            #[trigger] tail[i],
            tail[i + 1],
        ) by {
            assert(edge(auth, path[i + 1], path[i + 1 + 1]));
        }
        assert(0 <= path[1] < events.len());
        assert(is_path(auth, tail));
        assert(edge(auth, path[0], path[0int + 1]));
        assert(leads(auth, path[1], b));
    }
}

/// The auth graph has an event in the chain of another exactly where it authorizes
/// it, directly or through others.
pub proof fn auth_graph_by_events(
    graph: AuthGraph,
    events: Seq<(String, LeanEvent)>,
    a: int,
    b: u32,
)
    requires
        graph.covers(events),
        0 <= a < events.len(),
    ensures
        bitmap_set(graph.auth_bitmaps@[a]).contains(b) <==> b < events.len() && authorizes(
            events,
            a,
            b as int,
        ),
{
    let auth = choose|auth: Seq<Vec<usize>>| #[trigger] chains_of(graph, events, auth);
    chain_is_authority(events, auth, a, b as int);
}

/// The difference of the auth chains that resolution starts from has the events that
/// authorize one of the heads, and do not authorize another.
pub proof fn difference_by_events(
    events: TextMap<LeanEvent>,
    given: Seq<Seq<char>>,
    prepared: Preparation,
    b: u32,
)
    requires
        events_wf(events),
        prepares(events.entries@, given, prepared),
    ensures
        prepared.graph.covers(events.entries@),
        prepared.difference@.contains(b) <==> b < events.entries@.len() && (exists|a: int|
            0 <= a < events.entries@.len() && id_texts(prepared.heads@).contains(
                (#[trigger] events.entries@[a]).0@,
            ) && authorizes(events.entries@, a, b as int)) && (exists|a: int|
            0 <= a < events.entries@.len() && id_texts(prepared.heads@).contains(
                (#[trigger] events.entries@[a]).0@,
            ) && !authorizes(events.entries@, a, b as int)),
{
    let all = events.entries@;
    let heads = id_texts(prepared.heads@);
    let auth = choose|auth: Seq<Vec<usize>>| #[trigger]
        chains_of(prepared.graph, all, auth) && forall|b: u32| #[trigger]
            prepared.difference@.contains(b) <==> b < all.len()
                && crate::resolution::chains_differ(all, auth, heads, b as int);
    assert forall|a: int| 0 <= a < all.len() implies (#[trigger] in_chain(auth, a, b as int)
        <==> authorizes(all, a, b as int)) by {
        chain_is_authority(all, auth, a, b as int);
    }
    let place = b as int;
    if exists|a: int| #[trigger] is_head(all, heads, a) && in_chain(auth, a, place) {
        let a = choose|a: int| #[trigger] is_head(all, heads, a) && in_chain(auth, a, place);
        assert(heads.contains(all[a].0@));
    }
    if exists|a: int| #[trigger] is_head(all, heads, a) && !in_chain(auth, a, place) {
        let a = choose|a: int| #[trigger] is_head(all, heads, a) && !in_chain(auth, a, place);
        assert(heads.contains(all[a].0@));
    }
    if exists|a: int|
        0 <= a < all.len() && heads.contains((#[trigger] all[a]).0@) && authorizes(all, a, place) {
        let a = choose|a: int|
            0 <= a < all.len() && heads.contains((#[trigger] all[a]).0@) && authorizes(
                all,
                a,
                place,
            );
        assert(is_head(all, heads, a) && in_chain(auth, a, place));
    }
    if exists|a: int|
        0 <= a < all.len() && heads.contains((#[trigger] all[a]).0@) && !authorizes(
            all,
            a,
            place,
        ) {
        let a = choose|a: int|
            0 <= a < all.len() && heads.contains((#[trigger] all[a]).0@) && !authorizes(
                all,
                a,
                place,
            );
        assert(is_head(all, heads, a) && !in_chain(auth, a, place));
    }
}

/// Events sorted by depth: none is deeper than one behind it, and of events as deep
/// none has a larger id than one behind it.
pub proof fn sorted_by_fields(events: Seq<(String, LeanEvent)>, places: Seq<usize>, i: int, j: int)
    requires
        depth_sorted(events, places),
        0 <= i < j < places.len(),
    ensures
        events[places[i] as int].1.depth <= events[places[j] as int].1.depth,
        events[places[i] as int].1.depth == events[places[j] as int].1.depth ==> text_le(
            events[places[i] as int].1.event_id@,
            events[places[j] as int].1.event_id@,
        ),
{
    text_le_total(
        events[places[i] as int].1.event_id@,
        events[places[j] as int].1.event_id@,
    );
}

/// The places of known events, each of which came right after the next or right
/// before it.
pub open spec fn acquainted(events: Seq<(String, LeanEvent)>, path: Seq<int>) -> bool {
    &&& path.len() > 0
    &&& forall|i: int| 0 <= i < path.len() ==> 0 <= #[trigger] path[i] < events.len()
    &&& forall|i: int|
        0 <= i && i + 1 < path.len() ==> follows(
            events[#[trigger] path[i]].1,
            events[path[i + 1]].0@,
        ) || follows(events[path[i + 1]].1, events[path[i]].0@)
}

/// The first event of a connected part is no deeper than any event that a series of
/// references, in whatever direction, leads to from it.
pub proof fn root_is_shallowest(
    events: Seq<(String, LeanEvent)>,
    prev: Seq<Vec<usize>>,
    i: int,
    path: Seq<int>,
)
    requires
        links_of(events, Link::Prev, prev),
        component_root(events, prev, i),
        acquainted(events, path),
        path[0] == i,
    ensures
        events[i].1.depth <= events[path.last()].1.depth,
        events[i].1.depth == events[path.last()].1.depth ==> text_le(
            events[i].1.event_id@,
            events[path.last()].1.event_id@,
        ),
{
    let j = path.last();
    text_le_total(events[i].1.event_id@, events[i].1.event_id@);
    assert forall|k: int| 0 <= k && k + 1 < path.len() implies touch(
        prev,
        #[trigger] path[k],
        path[k + 1],
    ) by {
        assert(0 <= path[k + 1] < events.len());
        follows_is_edge(events, prev, path[k], path[k + 1]);
        follows_is_edge(events, prev, path[k + 1], path[k]);
    }
    assert(0 <= path[0] < events.len());
    assert(is_chain(prev, path));
    assert(connected(prev, i, j));
    assert(0 <= path[path.len() - 1] < events.len());
}

proof fn follows_is_edge(
    events: Seq<(String, LeanEvent)>,
    prev: Seq<Vec<usize>>,
    a: int,
    b: int,
)
    requires
        links_of(events, Link::Prev, prev),
        0 <= a < events.len(),
        0 <= b < events.len(),
    ensures
        edge(prev, a, b) <==> follows(events[a].1, events[b].0@),
{
    let event = events[a].1;
    if edge(prev, a, b) {
        assert(refers(events, Link::Prev, a, b));
        let k = choose|k: int|
            0 <= k < crate::room::references(event, Link::Prev).len() && (
            #[trigger] crate::room::references(event, Link::Prev)[k])@ == events[b].0@;
        assert(event.prev_events@[k]@ == events[b].0@);
    }
    if follows(event, events[b].0@) {
        let k = choose|k: int|
            0 <= k < event.prev_events@.len() && (#[trigger] event.prev_events@[k])@
                == events[b].0@;
        assert(crate::room::references(event, Link::Prev)[k]@ == events[b].0@);
        assert(refers(events, Link::Prev, a, b));
    }
}

/// An event is not the first of its part where a series of references leads from it
/// to one that is less deep.
pub proof fn shallower_is_no_root(
    events: Seq<(String, LeanEvent)>,
    prev: Seq<Vec<usize>>,
    i: int,
)
    requires
        links_of(events, Link::Prev, prev),
        0 <= i < events.len(),
        !component_root(events, prev, i),
    ensures
        exists|path: Seq<int>| #[trigger]
            acquainted(events, path) && path[0] == i && path.last() != i
                && events[path.last()].1.depth <= events[i].1.depth,
{
    let j = choose|j: int|
        0 <= j < events.len() && j != i && #[trigger] connected(prev, i, j) && !later(
            events[j].1,
            events[i].1,
        );
    let path = choose|chain: Seq<int>| #[trigger]
        is_chain(prev, chain) && chain[0] == i && chain.last() == j;
    assert forall|k: int| 0 <= k < path.len() implies 0 <= #[trigger] path[k] < events.len() by {
        if k > 0 {
            assert(touch(prev, path[k - 1], path[k - 1 + 1]));
        }
    }
    assert forall|k: int| 0 <= k && k + 1 < path.len() implies follows(
        events[#[trigger] path[k]].1,
        events[path[k + 1]].0@,
    ) || follows(events[path[k + 1]].1, events[path[k]].0@) by {
        assert(touch(prev, path[k], path[k + 1]));
        assert(0 <= path[k + 1] < events.len());
        follows_is_edge(events, prev, path[k], path[k + 1]);
        follows_is_edge(events, prev, path[k + 1], path[k]);
    }
    assert(acquainted(events, path));
}

} // verus!
