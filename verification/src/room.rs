//! The event graph of a room: heads, states per head, conflicts and auth chains.

use vstd::prelude::*;
use vstd::seq_lib::{to_multiset_build, to_multiset_insert};
use vstd::string::StringExecFns;
use crate::bitmaps::{
    bitmap_insert, bitmap_intersect, bitmap_new, bitmap_set, bitmap_subtract, bitmap_unite,
    bitmap_values,
};
use crate::bytes::{text_at_most, text_le, text_le_antisymmetric};
use crate::collections::{text_le_total, text_less, text_less_transitive, TextMap, TextSet};
use crate::events::{events_wf, LeanEvent};
use crate::graph::{components, connected, edge, graph_wf, leads, reach};
use crate::lattice::copy_key;
use crate::state_map::{key_position, KeyText, StateKey, StateMap};

verus! {

/// A relation between events.
#[derive(Debug, Clone, Copy, PartialEq, Eq, Structural)]
pub enum Link {
    /// To the events that came right before.
    Prev,
    /// To the events that authorize.
    Auth,
}

/// The ids that an event refers to.
pub open spec fn references(event: LeanEvent, link: Link) -> Seq<String> {
    match link {
        Link::Prev => event.prev_events@,
        Link::Auth => event.auth_events@,
    }
}

/// One event refers to another.
pub open spec fn refers(events: Seq<(String, LeanEvent)>, link: Link, a: int, b: int) -> bool {
    exists|k: int|
        0 <= k < references(events[a].1, link).len() && (#[trigger] references(
            events[a].1,
            link,
        )[k])@ == events[b].0@
}

/// The graph has an edge exactly where an event refers to another.
pub open spec fn links_of(
    events: Seq<(String, LeanEvent)>,
    link: Link,
    successors: Seq<Vec<usize>>,
) -> bool {
    &&& successors.len() == events.len()
    &&& graph_wf(successors)
    &&& forall|a: int, b: int|
        0 <= a < events.len() && 0 <= b < events.len() ==> (#[trigger] edge(successors, a, b)
            <==> refers(events, link, a, b))
}

/// The known events that each event refers to.
pub fn neighbours(events: &TextMap<LeanEvent>, link: Link) -> (successors: Vec<Vec<usize>>)
    requires
        events_wf(*events),
    ensures
        links_of(events.entries@, link, successors@),
{
    let ghost all = events.entries@;
    let mut successors: Vec<Vec<usize>> = Vec::new();
    while successors.len() < events.entries.len()
        invariant
            events_wf(*events),
            all == events.entries@,
            successors@.len() <= all.len(),
            forall|a: int, j: int|
                0 <= a < successors@.len() && 0 <= j < successors@[a]@.len()
                    ==> #[trigger] successors@[a]@[j] < all.len(),
            forall|a: int, b: int|
                0 <= a < successors@.len() && 0 <= b < all.len() ==> (
                #[trigger] successors@[a]@.contains(b as usize) <==> refers(all, link, a, b)),
        decreases events.entries.len() - successors.len(),
    {
        let at: usize = successors.len();
        let event: &LeanEvent = &events.entries[at].1;
        let ids: &Vec<String> = match link {
            Link::Prev => &event.prev_events,
            Link::Auth => &event.auth_events,
        };
        let mut known: Vec<usize> = Vec::new();
        let mut index: usize = 0;
        while index < ids.len()
            invariant
                events_wf(*events),
                all == events.entries@,
                index <= ids.len(),
                forall|j: int| 0 <= j < known@.len() ==> #[trigger] known@[j] < all.len(),
                forall|b: int|
                    0 <= b < all.len() ==> (#[trigger] known@.contains(b as usize) <==> exists|
                        k: int,
                    |
                        0 <= k < index && (#[trigger] ids@[k])@ == all[b].0@),
            decreases ids.len() - index,
        {
            let ghost before = known@;
            match events.find(ids[index].as_str()) {
                Some(place) => {
                    known.push(place);
                    proof {
                        assert forall|b: int| 0 <= b < all.len() implies (
                        #[trigger] known@.contains(b as usize) <==> exists|k: int|
                            0 <= k < index + 1 && (#[trigger] ids@[k])@ == all[b].0@) by {
                            assert(before.contains(b as usize) <==> exists|k: int|
                                0 <= k < index && (#[trigger] ids@[k])@ == all[b].0@);
                            if before.contains(b as usize) {
                                let j = choose|j: int|
                                    0 <= j < before.len() && before[j] == b as usize;
                                assert(known@[j] == b as usize);
                            }
                            if b == place {
                                assert(known@[before.len() as int] == b as usize);
                                assert(ids@[index as int]@ == all[b].0@);
                            }
                            if known@.contains(b as usize) && b != place {
                                let j = choose|j: int|
                                    0 <= j < known@.len() && known@[j] == b as usize;
                                assert(before[j] == b as usize);
                            }
                            if ids@[index as int]@ == all[b].0@ && b != place {
                                if b < place {
                                    assert(text_less(all[b].0@, all[place as int].0@));
                                } else {
                                    assert(text_less(all[place as int].0@, all[b].0@));
                                }
                            }
                        }
                    }
                },
                None => {
                    proof {
                        assert forall|b: int| 0 <= b < all.len() implies (
                        #[trigger] known@.contains(b as usize) <==> exists|k: int|
                            0 <= k < index + 1 && (#[trigger] ids@[k])@ == all[b].0@) by {
                            assert(before.contains(b as usize) <==> exists|k: int|
                                0 <= k < index && (#[trigger] ids@[k])@ == all[b].0@);
                            if ids@[index as int]@ == all[b].0@ {
                                events.entry_facts(b);
                            }
                        }
                    }
                },
            }
            index = index + 1;
        }
        let ghost earlier = successors@;
        proof {
            assert(ids@ == references(all[at as int].1, link));
            assert forall|b: int| 0 <= b < all.len() implies (#[trigger] known@.contains(
                b as usize,
            ) <==> refers(all, link, at as int, b)) by {
                if known@.contains(b as usize) {
                    let k = choose|k: int|
                        0 <= k < index && (#[trigger] ids@[k])@ == all[b].0@;
                    assert(references(all[at as int].1, link)[k]@ == all[b].0@);
                }
            }
        }
        successors.push(known);
        proof {
            assert forall|a: int, b: int|
                0 <= a < successors@.len() && 0 <= b < all.len() implies (
            #[trigger] successors@[a]@.contains(b as usize) <==> refers(all, link, a, b)) by {
                if a < earlier.len() {
                    assert(earlier[a]@.contains(b as usize) <==> refers(all, link, a, b));
                }
            }
        }
    }
    successors
}

/// Some event refers to the id as one that came before.
pub open spec fn mentioned(events: Seq<(String, LeanEvent)>, id: Seq<char>) -> bool {
    exists|a: int, k: int|
        0 <= a < events.len() && 0 <= k < events[a].1.prev_events@.len() && (
        #[trigger] events[a].1.prev_events@[k])@ == id
}

/// The ids of events.
pub open spec fn event_ids(events: Seq<(String, LeanEvent)>) -> Seq<Seq<char>> {
    Seq::new(events.len(), |i: int| events[i].0@)
}

/// The contents of ids.
pub open spec fn id_texts(ids: Seq<String>) -> Seq<Seq<char>> {
    Seq::new(ids.len(), |i: int| ids[i]@)
}

/// The ids of the events that no event refers to as one that came before.
pub open spec fn unmentioned(events: Seq<(String, LeanEvent)>) -> Seq<Seq<char>> {
    event_ids(events).filter(|id: Seq<char>| !mentioned(events, id))
}

/// The heads of the graph, in ascending order: the events that no event names as
/// one that came before.
pub fn auto_heads(events: &TextMap<LeanEvent>) -> (heads: Vec<String>)
    requires
        events_wf(*events),
    ensures
        id_texts(heads@) == unmentioned(events.entries@),
{
    let ghost all = events.entries@;
    let ghost free = |id: Seq<char>| !mentioned(all, id);
    let mut referenced: TextSet = TextSet::new();
    let mut at: usize = 0;
    while at < events.entries.len()
        invariant
            all == events.entries@,
            at <= events.entries.len(),
            referenced.wf(),
            forall|id: Seq<char>| #[trigger]
                referenced.view().contains(id) <==> exists|a: int, k: int|
                    0 <= a < at && 0 <= k < all[a].1.prev_events@.len() && (
                    #[trigger] all[a].1.prev_events@[k])@ == id,
        decreases events.entries.len() - at,
    {
        let ids: &Vec<String> = &events.entries[at].1.prev_events;
        let mut index: usize = 0;
        while index < ids.len()
            invariant
                all == events.entries@,
                at < all.len(),
                *ids == all[at as int].1.prev_events,
                index <= ids.len(),
                referenced.wf(),
                forall|id: Seq<char>| #[trigger]
                    referenced.view().contains(id) <==> {
                        ||| exists|a: int, k: int|
                            0 <= a < at && 0 <= k < all[a].1.prev_events@.len() && (
                            #[trigger] all[a].1.prev_events@[k])@ == id
                        ||| exists|k: int| 0 <= k < index && (#[trigger] ids@[k])@ == id
                    },
            decreases ids.len() - index,
        {
            let _new: bool = referenced.insert(String::from_str(ids[index].as_str()));
            index = index + 1;
        }
        proof {
            assert forall|id: Seq<char>| #[trigger]
                referenced.view().contains(id) <==> exists|a: int, k: int|
                    0 <= a < at + 1 && 0 <= k < all[a].1.prev_events@.len() && (
                    #[trigger] all[a].1.prev_events@[k])@ == id by {
                if exists|k: int| 0 <= k < index && (#[trigger] ids@[k])@ == id {
                    let k = choose|k: int| 0 <= k < index && (#[trigger] ids@[k])@ == id;
                    assert(all[at as int].1.prev_events@[k]@ == id);
                }
                if exists|a: int, k: int|
                    0 <= a < at + 1 && 0 <= k < all[a].1.prev_events@.len() && (
                    #[trigger] all[a].1.prev_events@[k])@ == id {
                    let (a, k) = choose|a: int, k: int|
                        0 <= a < at + 1 && 0 <= k < all[a].1.prev_events@.len() && (
                        #[trigger] all[a].1.prev_events@[k])@ == id;
                    if a == at {
                        assert(ids@[k]@ == id);
                    }
                }
            }
        }
        at = at + 1;
    }
    let mut heads: Vec<String> = Vec::new();
    let mut place: usize = 0;
    proof {
        reveal(Seq::filter);
        assert(event_ids(all).take(0).len() == 0);
        assert(id_texts(heads@) =~= event_ids(all).take(0).filter(free));
    }
    while place < events.entries.len()
        invariant
            all == events.entries@,
            free == (|id: Seq<char>| !mentioned(all, id)),
            place <= events.entries.len(),
            referenced.wf(),
            forall|id: Seq<char>| #[trigger]
                referenced.view().contains(id) <==> mentioned(all, id),
            id_texts(heads@) == event_ids(all).take(place as int).filter(free),
        decreases events.entries.len() - place,
    {
        let ghost before = heads@;
        proof {
            reveal(Seq::filter);
            let next = event_ids(all).take(place + 1);
            assert(next.drop_last() =~= event_ids(all).take(place as int));
            assert(next.last() == all[place as int].0@);
        }
        if !referenced.contains(events.entries[place].0.as_str()) {
            heads.push(String::from_str(events.entries[place].0.as_str()));
            proof {
                assert(id_texts(heads@) =~= id_texts(before).push(all[place as int].0@));
            }
        }
        place = place + 1;
    }
    proof {
        assert(event_ids(all).take(place as int) =~= event_ids(all));
    }
    heads
}

/// One event is deeper than another, or as deep with the larger id.
pub open spec fn later(a: LeanEvent, b: LeanEvent) -> bool {
    a.depth > b.depth || (a.depth == b.depth && text_less(b.event_id@, a.event_id@))
}

/// A marked state event has the key.
pub open spec fn sets_key(
    events: Seq<(String, LeanEvent)>,
    marks: Seq<bool>,
    n: int,
    key: KeyText,
    i: int,
) -> bool {
    &&& 0 <= i < n
    &&& marks[i]
    &&& events[i].1.is_state
    &&& events[i].1.key() == key
}

/// The event at a place is the latest marked state event with the key.
pub open spec fn latest(
    events: Seq<(String, LeanEvent)>,
    marks: Seq<bool>,
    n: int,
    key: KeyText,
    i: int,
) -> bool {
    &&& sets_key(events, marks, n, key, i)
    &&& forall|j: int| #[trigger]
        sets_key(events, marks, n, key, j) && j != i ==> later(events[i].1, events[j].1)
}

/// The state after the marked events: for each key the latest state event.
pub open spec fn state_after(
    state: Map<KeyText, usize>,
    events: Seq<(String, LeanEvent)>,
    marks: Seq<bool>,
    n: int,
) -> bool {
    forall|key: KeyText|
        {
            &&& #[trigger] state.contains_key(key) <==> exists|i: int|
                sets_key(events, marks, n, key, i)
            &&& state.contains_key(key) ==> latest(events, marks, n, key, state[key] as int)
        }
}

/// Computes the state after the marked events.
pub fn latest_state(events: &TextMap<LeanEvent>, marks: &[bool]) -> (state: StateMap<usize>)
    requires
        events_wf(*events),
        marks@.len() == events.entries.len(),
    ensures
        state.wf(),
        state_after(state.view(), events.entries@, marks@, events.entries@.len() as int),
{
    let ghost all = events.entries@;
    let mut state: StateMap<usize> = StateMap::new();
    let mut place: usize = 0;
    while place < events.entries.len()
        invariant
            events_wf(*events),
            all == events.entries@,
            marks@.len() == events.entries.len(),
            place <= events.entries.len(),
            state.wf(),
            state_after(state.view(), all, marks@, place as int),
        decreases events.entries.len() - place,
    {
        let ghost before = state.view();
        let ghost p = place as int;
        let ghost next = p + 1;
        let event: &LeanEvent = &events.entries[place].1;
        let mut taken: bool = false;
        if marks[place] && event.is_state {
            let key: StateKey = event.state_key_pair();
            taken = match state.get(&key) {
                Some(current) => {
                    proof {
                        assert(sets_key(all, marks@, p, key@, *current as int));
                    }
                    event.depth >= events.entries[*current].1.depth
                },
                None => true,
            };
            if taken {
                state.insert(key, place);
            }
        }
        proof {
            let now = state.view();
            assert forall|key: KeyText|
                {
                    &&& #[trigger] now.contains_key(key) <==> exists|i: int|
                        sets_key(all, marks@, next, key, i)
                    &&& now.contains_key(key) ==> latest(
                        all,
                        marks@,
                        next,
                        key,
                        now[key] as int,
                    )
                } by {
                let here = sets_key(all, marks@, next, key, p);
                assert(before.contains_key(key) <==> exists|i: int|
                    sets_key(all, marks@, p, key, i));
                assert forall|j: int| #[trigger]
                    sets_key(all, marks@, next, key, j) && j != p implies sets_key(
                    all,
                    marks@,
                    p,
                    key,
                    j,
                ) && text_less(all[j].1.event_id@, all[p].1.event_id@) by {
                    assert(text_less(all[j].0@, all[p].0@));
                }
                if before.contains_key(key) {
                    let i = before[key] as int;
                    assert(latest(all, marks@, p, key, i));
                    assert(sets_key(all, marks@, p, key, i));
                    assert(sets_key(all, marks@, next, key, i));
                    if here && taken {
                        assert(now[key] == place);
                        assert forall|j: int| #[trigger]
                            sets_key(all, marks@, next, key, j) && j != p implies later(
                            all[p].1,
                            all[j].1,
                        ) by {
                            if j != i {
                                assert(sets_key(all, marks@, p, key, j));
                                assert(later(all[i].1, all[j].1));
                            }
                        }
                    } else {
                        assert(now[key] == before[key]);
                        assert forall|j: int| #[trigger]
                            sets_key(all, marks@, next, key, j) && j != i implies later(
                            all[i].1,
                            all[j].1,
                        ) by {
                            if j != p {
                                assert(sets_key(all, marks@, p, key, j));
                            }
                        }
                    }
                } else if here {
                    assert(now[key] == place);
                    assert(latest(all, marks@, next, key, p));
                }
            }
        }
        place = place + 1;
    }
    state
}

/// The event at a place is the head or came before it.
pub open spec fn before_head(
    events: Seq<(String, LeanEvent)>,
    successors: Seq<Vec<usize>>,
    head: Seq<char>,
    b: int,
) -> bool {
    exists|a: int|
        0 <= a < events.len() && (#[trigger] events[a]).0@ == head && leads(successors, a, b)
}

/// Marks the events that a head leads back to, the head itself among them.
fn mark_head(events: &TextMap<LeanEvent>, successors: &Vec<Vec<usize>>, head: &str) -> (marks: Vec<
    bool,
>)
    requires
        events_wf(*events),
        links_of(events.entries@, Link::Prev, successors@),
    ensures
        marks@.len() == events.entries@.len(),
        forall|b: int|
            0 <= b < marks@.len() ==> (#[trigger] marks@[b] <==> before_head(
                events.entries@,
                successors@,
                head@,
                b,
            )),
{
    let ghost all = events.entries@;
    let mut starts: Vec<usize> = Vec::new();
    let found: Option<usize> = events.find(head);
    match found {
        Some(place) => {
            starts.push(place);
        },
        None => {},
    }
    let marks: Vec<bool> = reach(successors, starts.as_slice());
    proof {
        assert forall|b: int| 0 <= b < marks@.len() implies (#[trigger] marks@[b] <==> before_head(
            all,
            successors@,
            head@,
            b,
        )) by {
            if marks@[b] {
                let i = choose|i: int|
                    0 <= i < starts@.len() && leads(successors@, #[trigger] starts@[i] as int, b);
                assert(all[starts@[i] as int].0@ == head@);
            }
            if before_head(all, successors@, head@, b) {
                let a = choose|a: int|
                    0 <= a < all.len() && (#[trigger] all[a]).0@ == head@ && leads(
                        successors@,
                        a,
                        b,
                    );
                events.entry_facts(a);
                match found {
                    Some(place) => {
                        if a < place {
                            assert(text_less(all[a].0@, all[place as int].0@));
                        } else if place < a {
                            assert(text_less(all[place as int].0@, all[a].0@));
                        }
                        assert(starts@[0] == a);
                    },
                    None => {},
                }
            }
        }
    }
    marks
}

/// The state at one of the heads: with no head at all, the state after every
/// event.
pub open spec fn head_state(
    events: Seq<(String, LeanEvent)>,
    successors: Seq<Vec<usize>>,
    head: Option<Seq<char>>,
    state: Map<KeyText, usize>,
) -> bool {
    exists|marks: Seq<bool>|
        {
            &&& marks.len() == events.len()
            &&& forall|b: int|
                0 <= b < marks.len() ==> (#[trigger] marks[b] <==> match head {
                    Some(head) => before_head(events, successors, head, b),
                    None => true,
                })
            &&& #[trigger] state_after(state, events, marks, events.len() as int)
        }
}

/// Computes the state at each head, by the events that the head leads back to.
pub fn head_states(events: &TextMap<LeanEvent>, heads: &[String]) -> (states: Vec<StateMap<usize>>)
    requires
        events_wf(*events),
    ensures
        states@.len() == (if heads@.len() == 0 {
            1
        } else {
            heads@.len()
        }),
        exists|successors: Seq<Vec<usize>>| #[trigger]
            links_of(events.entries@, Link::Prev, successors) && forall|i: int|
                0 <= i < states@.len() ==> (#[trigger] states@[i]).wf() && head_state(
                    events.entries@,
                    successors,
                    if heads@.len() == 0 {
                        None
                    } else {
                        Some(heads@[i]@)
                    },
                    states@[i].view(),
                ),
{
    let ghost all = events.entries@;
    let successors: Vec<Vec<usize>> = neighbours(events, Link::Prev);
    let mut states: Vec<StateMap<usize>> = Vec::new();
    if heads.len() == 0 {
        let mut marks: Vec<bool> = Vec::new();
        while marks.len() < events.entries.len()
            invariant
                marks@.len() <= events.entries@.len(),
                forall|i: int| 0 <= i < marks@.len() ==> #[trigger] marks@[i],
            decreases events.entries.len() - marks.len(),
        {
            marks.push(true);
        }
        let state: StateMap<usize> = latest_state(events, marks.as_slice());
        proof {
            assert(state_after(state.view(), all, marks@, all.len() as int));
        }
        states.push(state);
        return states;
    }
    let mut index: usize = 0;
    while index < heads.len()
        invariant
            events_wf(*events),
            all == events.entries@,
            links_of(all, Link::Prev, successors@),
            index <= heads.len(),
            states@.len() == index,
            forall|i: int|
                0 <= i < index ==> (#[trigger] states@[i]).wf() && head_state(
                    all,
                    successors@,
                    Some(heads@[i]@),
                    states@[i].view(),
                ),
        decreases heads.len() - index,
    {
        let marks: Vec<bool> = mark_head(events, &successors, heads[index].as_str());
        let state: StateMap<usize> = latest_state(events, marks.as_slice());
        proof {
            assert(state_after(state.view(), all, marks@, all.len() as int));
        }
        states.push(state);
        index = index + 1;
    }
    states
}

/// Every state has the event under the key.
pub open spec fn unanimous(states: Seq<StateMap<usize>>, key: KeyText, event: usize) -> bool {
    states.len() > 0 && forall|i: int|
        0 <= i < states.len() ==> (#[trigger] states[i]).view().contains_key(key)
            && states[i].view()[key] == event
}

/// Some state has the event under the key, but not all have.
pub open spec fn disputed(states: Seq<StateMap<usize>>, event: usize) -> bool {
    exists|i: int, key: KeyText|
        0 <= i < states.len() && #[trigger] states[i].view().contains_key(key)
            && states[i].view()[key] == event && !unanimous(states, key, event)
}

/// Whether every state has the event under the key.
fn all_agree(states: &Vec<StateMap<usize>>, key: &StateKey, event: usize) -> (result: bool)
    requires
        forall|i: int| 0 <= i < states@.len() ==> (#[trigger] states@[i]).wf(),
        states@.len() > 0,
    ensures
        result == unanimous(states@, key@, event),
{
    let mut index: usize = 0;
    while index < states.len()
        invariant
            index <= states.len(),
            forall|i: int| 0 <= i < states@.len() ==> (#[trigger] states@[i]).wf(),
            forall|i: int|
                0 <= i < index ==> (#[trigger] states@[i]).view().contains_key(key@)
                    && states@[i].view()[key@] == event,
        decreases states.len() - index,
    {
        let same: bool = match states[index].get(key) {
            Some(held) => *held == event,
            None => false,
        };
        if !same {
            proof {
                assert(!(states@[index as int].view().contains_key(key@)
                    && states@[index as int].view()[key@] == event));
            }
            return false;
        }
        index = index + 1;
    }
    true
}

/// Splits the states at the heads into what all of them agree on and the events
/// that are in dispute. The events are given by their places.
pub fn split_states(states: &Vec<StateMap<usize>>, event_count: usize) -> (split: (
    StateMap<usize>,
    Vec<bool>,
))
    requires
        states@.len() > 0,
        forall|i: int| 0 <= i < states@.len() ==> (#[trigger] states@[i]).wf(),
        forall|i: int, key: KeyText|
            0 <= i < states@.len() && #[trigger] states@[i].view().contains_key(key)
                ==> states@[i].view()[key] < event_count,
    ensures
        split.0.wf(),
        forall|key: KeyText, event: usize|
            #![trigger unanimous(states@, key, event)]
            unanimous(states@, key, event) <==> split.0.view().contains_key(key)
                && split.0.view()[key] == event,
        split.1@.len() == event_count,
        forall|event: int|
            0 <= event < event_count ==> (#[trigger] split.1@[event] <==> disputed(
                states@,
                event as usize,
            )),
{
    let mut agreed: StateMap<usize> = StateMap::new();
    let mut marks: Vec<bool> = Vec::new();
    while marks.len() < event_count
        invariant
            marks@.len() <= event_count,
            forall|i: int| 0 <= i < marks@.len() ==> !#[trigger] marks@[i],
        decreases event_count - marks.len(),
    {
        marks.push(false);
    }
    let mut index: usize = 0;
    while index < states.len()
        invariant
            index <= states.len(),
            states@.len() > 0,
            forall|i: int| 0 <= i < states@.len() ==> (#[trigger] states@[i]).wf(),
            forall|i: int, key: KeyText|
                0 <= i < states@.len() && #[trigger] states@[i].view().contains_key(key)
                    ==> states@[i].view()[key] < event_count,
            agreed.wf(),
            forall|key: KeyText| #[trigger]
                agreed.view().contains_key(key) ==> unanimous(
                    states@,
                    key,
                    agreed.view()[key],
                ),
            forall|i: int, key: KeyText|
                0 <= i < index && #[trigger] states@[i].view().contains_key(key) && unanimous(
                    states@,
                    key,
                    states@[i].view()[key],
                ) ==> agreed.view().contains_key(key),
            marks@.len() == event_count,
            forall|event: int|
                0 <= event < event_count && #[trigger] marks@[event] ==> disputed(
                    states@,
                    event as usize,
                ),
            forall|i: int, key: KeyText|
                0 <= i < index && #[trigger] states@[i].view().contains_key(key) && !unanimous(
                    states@,
                    key,
                    states@[i].view()[key],
                ) ==> marks@[states@[i].view()[key] as int],
        decreases states.len() - index,
    {
        let state: &StateMap<usize> = &states[index];
        proof {
            assert forall|j: int| 0 <= j < state.entries@.len() implies (
            #[trigger] state.entries@[j]).1 < event_count by {
                state.entry_facts(j);
                assert(states@[index as int].view().contains_key(state.entries@[j].0@));
            }
        }
        let mut place: usize = 0;
        while place < state.entries.len()
            invariant
                index < states.len(),
                *state == states@[index as int],
                place <= state.entries.len(),
                states@.len() > 0,
                forall|i: int| 0 <= i < states@.len() ==> (#[trigger] states@[i]).wf(),
                forall|i: int, key: KeyText|
                    0 <= i < states@.len() && #[trigger] states@[i].view().contains_key(key)
                        ==> states@[i].view()[key] < event_count,
                agreed.wf(),
                forall|key: KeyText| #[trigger]
                    agreed.view().contains_key(key) ==> unanimous(
                        states@,
                        key,
                        agreed.view()[key],
                    ),
                forall|i: int, key: KeyText|
                    0 <= i < index && #[trigger] states@[i].view().contains_key(key) && unanimous(
                        states@,
                        key,
                        states@[i].view()[key],
                    ) ==> agreed.view().contains_key(key),
                forall|j: int|
                    0 <= j < place && unanimous(
                        states@,
                        (#[trigger] state.entries@[j]).0@,
                        state.entries@[j].1,
                    ) ==> agreed.view().contains_key(state.entries@[j].0@),
                marks@.len() == event_count,
                forall|event: int|
                    0 <= event < event_count && #[trigger] marks@[event] ==> disputed(
                        states@,
                        event as usize,
                    ),
                forall|i: int, key: KeyText|
                    0 <= i < index && #[trigger] states@[i].view().contains_key(key) && !unanimous(
                        states@,
                        key,
                        states@[i].view()[key],
                    ) ==> marks@[states@[i].view()[key] as int],
                forall|j: int|
                    0 <= j < place && !unanimous(
                        states@,
                        (#[trigger] state.entries@[j]).0@,
                        state.entries@[j].1,
                    ) ==> marks@[state.entries@[j].1 as int],
                forall|j: int|
                    0 <= j < state.entries@.len() ==> (#[trigger] state.entries@[j]).1
                        < event_count,
            decreases state.entries.len() - place,
        {
            let entry: &(StateKey, usize) = &state.entries[place];
            proof {
                state.entry_facts(place as int);
                assert(states@[index as int].view().contains_key(entry.0@));
            }
            if all_agree(states, &entry.0, entry.1) {
                agreed.insert(copy_key(&entry.0), entry.1);
            } else {
                marks.set(entry.1, true);
            }
            place = place + 1;
        }
        proof {
            assert forall|key: KeyText| #[trigger] states@[index as int].view().contains_key(
                key,
            ) implies (if unanimous(states@, key, states@[index as int].view()[key]) {
                agreed.view().contains_key(key)
            } else {
                marks@[states@[index as int].view()[key] as int]
            }) by {
                let j = key_position(state.entries@, key);
                state.entry_facts(j);
                assert(state.entries@[j].0@ == key);
            }
        }
        index = index + 1;
    }
    proof {
        assert forall|key: KeyText, event: usize|
            #![trigger unanimous(states@, key, event)]
            unanimous(states@, key, event) <==> agreed.view().contains_key(key)
                && agreed.view()[key] == event by {
            if unanimous(states@, key, event) {
                assert(states@[0].view().contains_key(key));
                assert(agreed.view().contains_key(key));
                assert(unanimous(states@, key, agreed.view()[key]));
                assert(states@[0].view()[key] == agreed.view()[key]);
            }
        }
        assert forall|event: int| 0 <= event < event_count implies (#[trigger] marks@[event]
            <==> disputed(states@, event as usize)) by {
            if disputed(states@, event as usize) {
                let (i, key) = choose|i: int, key: KeyText|
                    0 <= i < states@.len() && #[trigger] states@[i].view().contains_key(key)
                        && states@[i].view()[key] == event as usize && !unanimous(
                        states@,
                        key,
                        event as usize,
                    );
                assert(marks@[states@[i].view()[key] as int]);
            }
        }
    }
    (agreed, marks)
}

/// The auth chains of events, as bitmaps over the places of the events.
pub struct AuthGraph {
    pub auth_bitmaps: Vec<roaring::RoaringBitmap>,
}

/// The event at one place is in the auth chain of the event at another: it
/// authorizes that event, or an event of its chain.
pub open spec fn in_chain(successors: Seq<Vec<usize>>, a: int, b: int) -> bool {
    exists|p: int| #[trigger] edge(successors, a, p) && leads(successors, p, b)
}

/// The bitmaps hold the auth chains.
pub open spec fn chains_of(
    graph: AuthGraph,
    events: Seq<(String, LeanEvent)>,
    successors: Seq<Vec<usize>>,
) -> bool {
    &&& links_of(events, Link::Auth, successors)
    &&& graph.auth_bitmaps@.len() == events.len()
    &&& events.len() <= u32::MAX
    &&& forall|a: int, b: u32|
        0 <= a < events.len() ==> (#[trigger] bitmap_set(graph.auth_bitmaps@[a]).contains(b)
            <==> b < events.len() && in_chain(successors, a, b as int))
}

impl AuthGraph {
    /// The auth chains are those of the events.
    pub open spec fn covers(&self, events: Seq<(String, LeanEvent)>) -> bool {
        exists|successors: Seq<Vec<usize>>| #[trigger] chains_of(*self, events, successors)
    }

    /// Computes the auth chain of every event.
    pub fn build(events: &TextMap<LeanEvent>) -> (graph: Self)
        requires
            events_wf(*events),
            events.entries.len() <= u32::MAX,
        ensures
            graph.covers(events.entries@),
    {
        let ghost all = events.entries@;
        let successors: Vec<Vec<usize>> = neighbours(events, Link::Auth);
        let mut auth_bitmaps: Vec<roaring::RoaringBitmap> = Vec::new();
        while auth_bitmaps.len() < events.entries.len()
            invariant
                all == events.entries@,
                all.len() <= u32::MAX,
                links_of(all, Link::Auth, successors@),
                auth_bitmaps@.len() <= all.len(),
                forall|a: int, b: u32|
                    0 <= a < auth_bitmaps@.len() ==> (#[trigger] bitmap_set(
                        auth_bitmaps@[a],
                    ).contains(b) <==> b < all.len() && in_chain(successors@, a, b as int)),
            decreases events.entries.len() - auth_bitmaps.len(),
        {
            let at: usize = auth_bitmaps.len();
            let next: &Vec<usize> = &successors[at];
            proof {
                assert forall|j: int| 0 <= j < next@.len() implies #[trigger] next@[j]
                    < successors.len() by {
                    assert(successors@[at as int]@[j] < successors@.len());
                }
            }
            let marks: Vec<bool> = reach(&successors, next.as_slice());
            let mut bitmap: roaring::RoaringBitmap = bitmap_new();
            let mut place: usize = 0;
            while place < marks.len()
                invariant
                    marks@.len() == all.len(),
                    all.len() <= u32::MAX,
                    place <= marks.len(),
                    forall|b: u32| #[trigger]
                        bitmap_set(bitmap).contains(b) <==> b < place && marks@[b as int],
                decreases marks.len() - place,
            {
                if marks[place] {
                    let _absent: bool = bitmap_insert(&mut bitmap, place as u32);
                }
                place = place + 1;
            }
            let ghost earlier = auth_bitmaps@;
            proof {
                assert forall|b: u32| #[trigger] bitmap_set(bitmap).contains(b) <==> b < all.len()
                    && in_chain(successors@, at as int, b as int) by {
                    if b < all.len() {
                        assert(marks@[b as int] <==> exists|i: int|
                            0 <= i < next@.len() && leads(
                                successors@,
                                #[trigger] next@[i] as int,
                                b as int,
                            ));
                        if marks@[b as int] {
                            let i = choose|i: int|
                                0 <= i < next@.len() && leads(
                                    successors@,
                                    #[trigger] next@[i] as int,
                                    b as int,
                                );
                            assert(successors@[at as int]@[i] < successors@.len());
                            assert(successors@[at as int]@.contains(next@[i]));
                            assert(edge(successors@, at as int, next@[i] as int));
                        }
                        if in_chain(successors@, at as int, b as int) {
                            let p = choose|p: int| #[trigger]
                                edge(successors@, at as int, p) && leads(
                                    successors@,
                                    p,
                                    b as int,
                                );
                            let i = choose|i: int|
                                0 <= i < next@.len() && next@[i] == p as usize;
                            assert(leads(successors@, next@[i] as int, b as int));
                        }
                    }
                }
            }
            auth_bitmaps.push(bitmap);
            proof {
                assert forall|a: int, b: u32|
                    0 <= a < auth_bitmaps@.len() implies (#[trigger] bitmap_set(
                    auth_bitmaps@[a],
                ).contains(b) <==> b < all.len() && in_chain(successors@, a, b as int)) by {
                    if a < earlier.len() {
                        assert(bitmap_set(earlier[a]).contains(b) <==> b < all.len() && in_chain(
                            successors@,
                            a,
                            b as int,
                        ));
                    }
                }
            }
        }
        let graph: AuthGraph = AuthGraph { auth_bitmaps };
        proof {
            assert(chains_of(graph, all, successors@));
        }
        graph
    }

    /// The places of the events that are in the auth chain of at least one of
    /// the given events, but not of all of them, in ascending order.
    pub fn auth_difference(&self, places: &[usize]) -> (difference: Vec<u32>)
        requires
            forall|i: int|
                0 <= i < places@.len() ==> #[trigger] places@[i] < self.auth_bitmaps@.len(),
        ensures
            forall|i: int, j: int|
                0 <= i < j < difference@.len() ==> #[trigger] difference@[i]
                    < #[trigger] difference@[j],
            forall|b: u32| #[trigger]
                difference@.contains(b) <==> {
                    &&& exists|i: int|
                        0 <= i < places@.len() && bitmap_set(
                            self.auth_bitmaps@[#[trigger] places@[i] as int],
                        ).contains(b)
                    &&& exists|i: int|
                        0 <= i < places@.len() && !bitmap_set(
                            self.auth_bitmaps@[#[trigger] places@[i] as int],
                        ).contains(b)
                },
    {
        let mut union: roaring::RoaringBitmap = bitmap_new();
        let mut intersection: roaring::RoaringBitmap = bitmap_new();
        let mut index: usize = 0;
        while index < places.len()
            invariant
                index <= places.len(),
                forall|i: int|
                    0 <= i < places@.len() ==> #[trigger] places@[i] < self.auth_bitmaps@.len(),
                forall|b: u32| #[trigger]
                    bitmap_set(union).contains(b) <==> exists|i: int|
                        0 <= i < index && bitmap_set(
                            self.auth_bitmaps@[#[trigger] places@[i] as int],
                        ).contains(b),
                forall|b: u32| #[trigger]
                    bitmap_set(intersection).contains(b) <==> index > 0 && forall|i: int|
                        0 <= i < index ==> bitmap_set(
                            self.auth_bitmaps@[#[trigger] places@[i] as int],
                        ).contains(b),
            decreases places.len() - index,
        {
            let chain: &roaring::RoaringBitmap = &self.auth_bitmaps[places[index]];
            let ghost held = bitmap_set(*chain);
            let ghost before = bitmap_set(union);
            let ghost common = bitmap_set(intersection);
            bitmap_unite(&mut union, chain);
            if index == 0 {
                bitmap_unite(&mut intersection, chain);
            } else {
                bitmap_intersect(&mut intersection, chain);
            }
            proof {
                assert forall|b: u32| #[trigger]
                    bitmap_set(union).contains(b) <==> exists|i: int|
                        0 <= i < index + 1 && bitmap_set(
                            self.auth_bitmaps@[#[trigger] places@[i] as int],
                        ).contains(b) by {
                    assert(before.contains(b) <==> exists|i: int|
                        0 <= i < index && bitmap_set(
                            self.auth_bitmaps@[#[trigger] places@[i] as int],
                        ).contains(b));
                    if held.contains(b) {
                        assert(bitmap_set(
                            self.auth_bitmaps@[places@[index as int] as int],
                        ).contains(b));
                    }
                }
                assert forall|b: u32| #[trigger]
                    bitmap_set(intersection).contains(b) <==> forall|i: int|
                        0 <= i < index + 1 ==> bitmap_set(
                            self.auth_bitmaps@[#[trigger] places@[i] as int],
                        ).contains(b) by {
                    assert(common.contains(b) <==> index > 0 && forall|i: int|
                        0 <= i < index ==> bitmap_set(
                            self.auth_bitmaps@[#[trigger] places@[i] as int],
                        ).contains(b));
                    if forall|i: int|
                        0 <= i < index + 1 ==> bitmap_set(
                            self.auth_bitmaps@[#[trigger] places@[i] as int],
                        ).contains(b) {
                        assert(places@[index as int] == places@[index as int]);
                        assert(held.contains(b));
                    }
                }
            }
            index = index + 1;
        }
        bitmap_subtract(&mut union, &intersection);
        bitmap_values(&union)
    }

    /// The places of the events that are in the auth chain of one of the given
    /// events, in ascending order.
    pub fn auth_chain(&self, places: &[usize]) -> (chain: Vec<u32>)
        requires
            forall|i: int|
                0 <= i < places@.len() ==> #[trigger] places@[i] < self.auth_bitmaps@.len(),
        ensures
            forall|i: int, j: int|
                0 <= i < j < chain@.len() ==> #[trigger] chain@[i] < #[trigger] chain@[j],
            forall|b: u32| #[trigger]
                chain@.contains(b) <==> exists|i: int|
                    0 <= i < places@.len() && bitmap_set(
                        self.auth_bitmaps@[#[trigger] places@[i] as int],
                    ).contains(b),
    {
        let mut union: roaring::RoaringBitmap = bitmap_new();
        let mut index: usize = 0;
        while index < places.len()
            invariant
                index <= places.len(),
                forall|i: int|
                    0 <= i < places@.len() ==> #[trigger] places@[i] < self.auth_bitmaps@.len(),
                forall|b: u32| #[trigger]
                    bitmap_set(union).contains(b) <==> exists|i: int|
                        0 <= i < index && bitmap_set(
                            self.auth_bitmaps@[#[trigger] places@[i] as int],
                        ).contains(b),
            decreases places.len() - index,
        {
            let chain: &roaring::RoaringBitmap = &self.auth_bitmaps[places[index]];
            let ghost held = bitmap_set(*chain);
            let ghost before = bitmap_set(union);
            bitmap_unite(&mut union, chain);
            proof {
                assert forall|b: u32| #[trigger]
                    bitmap_set(union).contains(b) <==> exists|i: int|
                        0 <= i < index + 1 && bitmap_set(
                            self.auth_bitmaps@[#[trigger] places@[i] as int],
                        ).contains(b) by {
                    assert(before.contains(b) <==> exists|i: int|
                        0 <= i < index && bitmap_set(
                            self.auth_bitmaps@[#[trigger] places@[i] as int],
                        ).contains(b));
                    if held.contains(b) {
                        assert(bitmap_set(
                            self.auth_bitmaps@[places@[index as int] as int],
                        ).contains(b));
                    }
                }
            }
            index = index + 1;
        }
        bitmap_values(&union)
    }
}

/// The event at a place is the first of those that it is connected to: by depth,
/// then by id.
pub open spec fn component_root(
    events: Seq<(String, LeanEvent)>,
    successors: Seq<Vec<usize>>,
    i: int,
) -> bool {
    forall|j: int|
        0 <= j < events.len() && j != i && #[trigger] connected(successors, i, j) ==> later(
            events[j].1,
            events[i].1,
        )
}

/// The places of the first event of each connected part of the graph, in
/// ascending order.
pub fn component_roots(events: &TextMap<LeanEvent>) -> (roots: Vec<usize>)
    requires
        events_wf(*events),
    ensures
        forall|i: int, j: int|
            0 <= i < j < roots@.len() ==> #[trigger] roots@[i] < #[trigger] roots@[j],
        forall|i: int| 0 <= i < roots@.len() ==> #[trigger] roots@[i] < events.entries@.len(),
        exists|successors: Seq<Vec<usize>>| #[trigger]
            links_of(events.entries@, Link::Prev, successors) && forall|i: usize|
                i < events.entries@.len() ==> (#[trigger] roots@.contains(i) <==> component_root(
                    events.entries@,
                    successors,
                    i as int,
                )),
{
    let ghost all = events.entries@;
    let successors: Vec<Vec<usize>> = neighbours(events, Link::Prev);
    let labels: Vec<usize> = components(&successors);
    let mut first: Vec<Option<usize>> = Vec::new();
    while first.len() < labels.len()
        invariant
            first@.len() <= labels@.len(),
            forall|l: int| 0 <= l < first@.len() ==> #[trigger] first@[l] is None,
        decreases labels.len() - first.len(),
    {
        first.push(None);
    }
    let mut place: usize = 0;
    while place < labels.len()
        invariant
            events_wf(*events),
            all == events.entries@,
            labels@.len() == all.len(),
            first@.len() == labels@.len(),
            place <= labels.len(),
            forall|a: int| 0 <= a < labels@.len() ==> #[trigger] labels@[a] < labels@.len(),
            forall|l: int|
                0 <= l < first@.len() ==> first_of(all, labels@, place as int, l, #[trigger] first@[l]),
        decreases labels.len() - place,
    {
        let label: usize = labels[place];
        let ghost before = first@;
        let ghost p = place as int;
        let earlier: bool = match first[label] {
            Some(held) => {
                proof {
                    assert(first_of(all, labels@, p, label as int, before[label as int]));
                }
                events.entries[place].1.depth < events.entries[held].1.depth
            },
            None => true,
        };
        if earlier {
            first.set(label, Some(place));
        }
        proof {
            assert forall|l: int| 0 <= l < first@.len() implies first_of(
                all,
                labels@,
                p + 1,
                l,
                #[trigger] first@[l],
            ) by {
                assert(first_of(all, labels@, p, l, before[l]));
                if l == label {
                    match before[l] {
                        Some(held) => {
                            let h = held as int;
                            assert(text_less(all[h].0@, all[p].0@));
                            if earlier {
                                assert forall|j: int|
                                    0 <= j < p + 1 && j != p && #[trigger] labels@[j]
                                        == l implies later(all[j].1, all[p].1) by {
                                    if j != h {
                                        assert(later(all[j].1, all[h].1));
                                    }
                                }
                            }
                        },
                        None => {},
                    }
                }
            }
        }
        place = place + 1;
    }
    let mut roots: Vec<usize> = Vec::new();
    let mut at: usize = 0;
    while at < labels.len()
        invariant
            labels@.len() == all.len(),
            first@.len() == labels@.len(),
            at <= labels.len(),
            forall|a: int| 0 <= a < labels@.len() ==> #[trigger] labels@[a] < labels@.len(),
            forall|i: int, j: int|
                0 <= i < j < roots@.len() ==> #[trigger] roots@[i] < #[trigger] roots@[j],
            forall|i: int| 0 <= i < roots@.len() ==> #[trigger] roots@[i] < at,
            forall|i: usize|
                i < at ==> (#[trigger] roots@.contains(i) <==> first@[labels@[i as int] as int]
                    == Some(i)),
        decreases labels.len() - at,
    {
        let ghost before = roots@;
        let chosen: bool = match first[labels[at]] {
            Some(held) => held == at,
            None => false,
        };
        if chosen {
            roots.push(at);
        }
        proof {
            assert forall|i: usize| i < at + 1 implies (#[trigger] roots@.contains(i)
                <==> first@[labels@[i as int] as int] == Some(i)) by {
                if i < at {
                    assert(before.contains(i) <==> first@[labels@[i as int] as int] == Some(i));
                    if before.contains(i) {
                        let j = choose|j: int| 0 <= j < before.len() && before[j] == i;
                        assert(roots@[j] == i);
                    }
                    if roots@.contains(i) {
                        let j = choose|j: int| 0 <= j < roots@.len() && roots@[j] == i;
                        assert(before[j] == i);
                    }
                } else {
                    if chosen {
                        assert(roots@[before.len() as int] == i);
                    }
                    if roots@.contains(i) && !chosen {
                        let j = choose|j: int| 0 <= j < roots@.len() && roots@[j] == i;
                        assert(before[j] < at);
                    }
                }
            }
        }
        at = at + 1;
    }
    proof {
        assert forall|i: usize| i < all.len() implies (#[trigger] roots@.contains(i)
            <==> component_root(all, successors@, i as int)) by {
            let p = i as int;
            let l = labels@[p] as int;
            assert(first_of(all, labels@, all.len() as int, l, first@[l]));
            if first@[l] == Some(i) {
                assert forall|j: int|
                    0 <= j < all.len() && j != p && #[trigger] connected(
                        successors@,
                        p,
                        j,
                    ) implies later(all[j].1, all[p].1) by {
                    assert(labels@[p] == labels@[j]);
                }
            } else if component_root(all, successors@, p) {
                match first@[l] {
                    Some(held) => {
                        let h = held as int;
                        assert(labels@[p] == labels@[h]);
                        assert(connected(successors@, p, h));
                        assert(later(all[h].1, all[p].1));
                        assert(later(all[p].1, all[h].1));
                        text_le_total(all[h].1.event_id@, all[p].1.event_id@);
                        if text_le(all[h].1.event_id@, all[p].1.event_id@) && text_le(
                            all[p].1.event_id@,
                            all[h].1.event_id@,
                        ) {
                            text_le_antisymmetric(all[h].1.event_id@, all[p].1.event_id@);
                        }
                    },
                    None => {
                        assert(labels@[p] == l);
                    },
                }
            }
        }
    }
    roots
}

/// The first of the events below a place with a label, if there is one.
spec fn first_of(
    events: Seq<(String, LeanEvent)>,
    labels: Seq<usize>,
    n: int,
    label: int,
    first: Option<usize>,
) -> bool {
    match first {
        Some(held) => {
            &&& held < n
            &&& labels[held as int] == label
            &&& forall|j: int|
                0 <= j < n && j != held && #[trigger] labels[j] == label ==> later(
                    events[j].1,
                    events[held as int].1,
                )
        },
        None => forall|j: int| 0 <= j < n ==> #[trigger] labels[j] != label,
    }
}

/// No event comes before the one in front of it.
pub open spec fn depth_sorted(events: Seq<(String, LeanEvent)>, places: Seq<usize>) -> bool {
    forall|i: int, j: int|
        0 <= i < j < places.len() ==> !later(
            events[#[trigger] places[i] as int].1,
            events[#[trigger] places[j] as int].1,
        )
}

/// Whether one event is deeper than another, or as deep with the larger id.
fn is_later(a: &LeanEvent, b: &LeanEvent) -> (result: bool)
    ensures
        result == later(*a, *b),
{
    proof {
        text_le_total(a.event_id@, b.event_id@);
        text_le_total(b.event_id@, a.event_id@);
        if text_less(b.event_id@, a.event_id@) && text_le(a.event_id@, b.event_id@) {
            text_le_antisymmetric(a.event_id@, b.event_id@);
        }
    }
    if a.depth != b.depth {
        a.depth > b.depth
    } else {
        !text_at_most(a.event_id.as_str(), b.event_id.as_str())
    }
}

/// The order by depth and id carries over.
proof fn not_later_transitive(a: LeanEvent, b: LeanEvent, c: LeanEvent)
    requires
        !later(a, b),
        !later(b, c),
    ensures
        !later(a, c),
{
    if later(a, c) && a.depth == c.depth {
        text_le_total(a.event_id@, b.event_id@);
        text_le_total(b.event_id@, c.event_id@);
        text_less_transitive(b.event_id@, c.event_id@, a.event_id@);
    }
}

/// Sorts events by depth, then by id.
pub fn sort_by_depth(events: &TextMap<LeanEvent>, places: &[usize]) -> (sorted: Vec<usize>)
    requires
        forall|i: int|
            0 <= i < places@.len() ==> #[trigger] places@[i] < events.entries@.len(),
    ensures
        depth_sorted(events.entries@, sorted@),
        sorted@.to_multiset() == places@.to_multiset(),
{
    let ghost all = events.entries@;
    let mut sorted: Vec<usize> = Vec::new();
    let mut index: usize = 0;
    proof {
        assert(sorted@ =~= places@.take(0));
    }
    while index < places.len()
        invariant
            all == events.entries@,
            index <= places.len(),
            sorted@.len() == index,
            forall|i: int|
                0 <= i < places@.len() ==> #[trigger] places@[i] < events.entries@.len(),
            forall|i: int|
                0 <= i < sorted@.len() ==> #[trigger] sorted@[i] < events.entries@.len(),
            depth_sorted(all, sorted@),
            sorted@.to_multiset() == places@.take(index as int).to_multiset(),
        decreases places.len() - index,
    {
        let place: usize = places[index];
        let ghost before = sorted@;
        let mut slot: usize = sorted.len();
        while slot > 0 && is_later(&events.entries[sorted[slot - 1]].1, &events.entries[place].1)
            invariant
                all == events.entries@,
                before == sorted@,
                slot <= sorted.len(),
                place < events.entries@.len(),
                forall|i: int|
                    0 <= i < sorted@.len() ==> #[trigger] sorted@[i] < events.entries@.len(),
                forall|i: int|
                    slot <= i < sorted@.len() ==> later(
                        all[#[trigger] sorted@[i] as int].1,
                        all[place as int].1,
                    ),
            decreases slot,
        {
            slot = slot - 1;
        }
        sorted.insert(slot, place);
        proof {
            let s = slot as int;
            assert(sorted@ =~= before.insert(s, place));
            assert(places@.take(index + 1) =~= places@.take(index as int).push(place));
            to_multiset_insert(before, s, place);
            to_multiset_build(places@.take(index as int), place);
            assert forall|i: int| 0 <= i < sorted@.len() implies #[trigger] sorted@[i]
                < events.entries@.len() by {
                if i < s {
                    assert(sorted@[i] == before[i]);
                } else if i > s {
                    assert(sorted@[i] == before[i - 1]);
                }
            }
            assert forall|i: int, j: int| 0 <= i < j < sorted@.len() implies !later(
                all[#[trigger] sorted@[i] as int].1,
                all[#[trigger] sorted@[j] as int].1,
            ) by {
                if j < s {
                    assert(sorted@[i] == before[i] && sorted@[j] == before[j]);
                } else if j == s {
                    assert(sorted@[i] == before[i]);
                    assert(!later(all[before[s - 1] as int].1, all[place as int].1));
                    if i < s - 1 {
                        assert(!later(all[before[i] as int].1, all[before[s - 1] as int].1));
                        not_later_transitive(
                            all[before[i] as int].1,
                            all[before[s - 1] as int].1,
                            all[place as int].1,
                        );
                    }
                } else if i == s {
                    assert(sorted@[j] == before[j - 1]);
                    assert(later(all[before[j - 1] as int].1, all[place as int].1));
                    later_asymmetric(all[before[j - 1] as int].1, all[place as int].1);
                } else if i < s {
                    assert(sorted@[i] == before[i] && sorted@[j] == before[j - 1]);
                } else {
                    assert(sorted@[i] == before[i - 1] && sorted@[j] == before[j - 1]);
                }
            }
        }
        index = index + 1;
    }
    proof {
        assert(places@.take(index as int) =~= places@);
    }
    sorted
}

proof fn later_asymmetric(a: LeanEvent, b: LeanEvent)
    requires
        later(a, b),
    ensures
        !later(b, a),
{
    if later(b, a) {
        text_le_antisymmetric(a.event_id@, b.event_id@);
    }
}

/// The least and the greatest depth of events, and the place of the first event
/// by depth and id.
pub fn depth_range(events: &TextMap<LeanEvent>) -> (range: Option<(u64, u64, usize)>)
    requires
        events_wf(*events),
    ensures
        match range {
            Some((least, greatest, first)) => {
                &&& first < events.entries@.len()
                &&& events.entries@[first as int].1.depth == least
                &&& exists|i: int|
                    0 <= i < events.entries@.len() && (
                    #[trigger] events.entries@[i]).1.depth == greatest
                &&& forall|i: int|
                    0 <= i < events.entries@.len() ==> least <= (
                    #[trigger] events.entries@[i]).1.depth <= greatest && (i != first ==> later(
                        events.entries@[i].1,
                        events.entries@[first as int].1,
                    ))
            },
            None => events.entries@.len() == 0,
        },
{
    if events.entries.len() == 0 {
        return None;
    }
    let ghost all = events.entries@;
    let mut first: usize = 0;
    let mut greatest: u64 = events.entries[0].1.depth;
    let mut index: usize = 1;
    while index < events.entries.len()
        invariant
            events_wf(*events),
            all == events.entries@,
            1 <= index <= events.entries.len(),
            first < index,
            exists|i: int| 0 <= i < index && (#[trigger] all[i]).1.depth == greatest,
            forall|i: int|
                0 <= i < index ==> all[first as int].1.depth <= (#[trigger] all[i]).1.depth
                    <= greatest && (i != first ==> later(all[i].1, all[first as int].1)),
        decreases events.entries.len() - index,
    {
        let depth: u64 = events.entries[index].1.depth;
        proof {
            assert(text_less(all[first as int].0@, all[index as int].0@));
            let i = choose|i: int| 0 <= i < index && (#[trigger] all[i]).1.depth == greatest;
            assert(all[i].1.depth == greatest);
            assert(all[index as int].1.depth == depth);
        }
        if depth < events.entries[first].1.depth {
            first = index;
        }
        if depth > greatest {
            greatest = depth;
        }
        index = index + 1;
    }
    let least: u64 = events.entries[first].1.depth;
    Some((least, greatest, first))
}

} // verus!
