//! What resolution starts from: the heads of a room, what their states agree on,
//! and which events are in conflict.

use vstd::prelude::*;
use vstd::string::StringExecFns;
use crate::bitmaps::bitmap_set;
use crate::collections::{text_less, TextMap};
use crate::events::{events_wf, LeanEvent, StateResVersion};
use crate::room::{
    auto_heads, chains_of, disputed, head_state, head_states, id_texts, in_chain, latest, links_of,
    split_states, state_after, unanimous, unmentioned, AuthGraph, Link,
};
use crate::state_map::{KeyText, StateMap};
use crate::summary::{conflict_marks, conflicted_events};

verus! {

/// What resolution starts from.
pub struct Preparation {
    pub heads: Vec<String>,
    /// What the states at all heads agree on, by the places of the events.
    pub agreed: StateMap<usize>,
    /// The events that the states at the heads disagree on.
    pub disputed: Vec<bool>,
    /// The places of the events in some, but not all, of the heads' auth chains.
    pub difference: Vec<u32>,
    pub graph: AuthGraph,
}

/// The heads that were given or, where none were, those of the graph.
pub open spec fn chosen_heads(
    events: Seq<(String, LeanEvent)>,
    given: Seq<Seq<char>>,
) -> Seq<Seq<char>> {
    if given.len() == 0 {
        unmentioned(events)
    } else {
        given
    }
}

/// The states at the heads: with no head at all, the one after every event.
pub open spec fn states_at(
    events: Seq<(String, LeanEvent)>,
    prev: Seq<Vec<usize>>,
    heads: Seq<Seq<char>>,
    states: Seq<StateMap<usize>>,
) -> bool {
    &&& states.len() == (if heads.len() == 0 {
        1
    } else {
        heads.len()
    })
    &&& forall|i: int|
        0 <= i < states.len() ==> head_state(
            events,
            prev,
            if heads.len() == 0 {
                None
            } else {
                Some(heads[i])
            },
            (#[trigger] states[i]).view(),
        )
}

/// A map and marks split states into what they agree on and what they dispute.
pub open spec fn splits(
    states: Seq<StateMap<usize>>,
    agreed: Map<KeyText, usize>,
    marks: Seq<bool>,
) -> bool {
    &&& forall|key: KeyText, event: usize|
        #![trigger unanimous(states, key, event)]
        unanimous(states, key, event) <==> agreed.contains_key(key) && agreed[key] == event
    &&& forall|event: int|
        0 <= event < marks.len() ==> (#[trigger] marks[event] <==> disputed(
            states,
            event as usize,
        ))
}

/// The event at a place is one of the heads.
pub open spec fn is_head(
    events: Seq<(String, LeanEvent)>,
    heads: Seq<Seq<char>>,
    place: int,
) -> bool {
    0 <= place < events.len() && heads.contains(events[place].0@)
}

/// The event at a place is in the auth chain of some head, but not of every one.
pub open spec fn chains_differ(
    events: Seq<(String, LeanEvent)>,
    auth: Seq<Vec<usize>>,
    heads: Seq<Seq<char>>,
    place: int,
) -> bool {
    &&& exists|a: int| #[trigger] is_head(events, heads, a) && in_chain(auth, a, place)
    &&& exists|a: int| #[trigger] is_head(events, heads, a) && !in_chain(auth, a, place)
}

/// The places of the heads that are known, in the order of the heads.
fn head_places(events: &TextMap<LeanEvent>, heads: &Vec<String>) -> (places: Vec<usize>)
    requires
        events_wf(*events),
    ensures
        forall|a: int|
            (exists|i: int| 0 <= i < places@.len() && #[trigger] places@[i] == a) <==> (
            #[trigger] is_head(events.entries@, id_texts(heads@), a)),
{
    let ghost all = events.entries@;
    let ghost ids = id_texts(heads@);
    let mut places: Vec<usize> = Vec::new();
    let mut index: usize = 0;
    while index < heads.len()
        invariant
            all == events.entries@,
            ids == id_texts(heads@),
            events_wf(*events),
            index <= heads.len(),
            forall|i: int|
                0 <= i < places@.len() ==> is_head(all, ids, #[trigger] places@[i] as int),
            forall|a: int, k: int|
                0 <= a < all.len() && 0 <= k < index && (#[trigger] all[a]).0@
                    == #[trigger] ids[k] ==> places@.contains(a as usize),
        decreases heads.len() - index,
    {
        let ghost before = places@;
        match events.find(heads[index].as_str()) {
            Some(place) => {
                places.push(place);
                proof {
                    assert(ids[index as int] == all[place as int].0@);
                    assert(is_head(all, ids, place as int));
                    assert(places@[before.len() as int] == place);
                    assert forall|a: int, k: int|
                        0 <= a < all.len() && 0 <= k < index + 1 && (#[trigger] all[a]).0@
                            == #[trigger] ids[k] implies places@.contains(a as usize) by {
                        if k < index {
                            assert(before.contains(a as usize));
                            let i = choose|i: int|
                                0 <= i < before.len() && before[i] == a as usize;
                            assert(places@[i] == a as usize);
                        } else if a < place {
                            assert(text_less(all[a].0@, all[place as int].0@));
                        } else if place < a {
                            assert(text_less(all[place as int].0@, all[a].0@));
                        }
                    }
                }
            },
            None => {
                proof {
                    assert forall|a: int, k: int|
                        0 <= a < all.len() && 0 <= k < index + 1 && (#[trigger] all[a]).0@
                            == #[trigger] ids[k] implies places@.contains(a as usize) by {
                        if k == index {
                            events.entry_facts(a);
                        }
                    }
                }
            },
        }
        index = index + 1;
    }
    proof {
        assert forall|a: int|
            (exists|i: int| 0 <= i < places@.len() && #[trigger] places@[i] == a) <==> (
            #[trigger] is_head(all, ids, a)) by {
            if is_head(all, ids, a) {
                let k = choose|k: int| 0 <= k < ids.len() && ids[k] == all[a].0@;
                assert(a < events.entries.len());
                assert(places@.contains(a as usize));
                let i = choose|i: int| 0 <= i < places@.len() && places@[i] == a as usize;
                assert(places@[i] == a);
            }
        }
    }
    places
}

/// A copy of a list of identifiers.
fn copy_heads(ids: &[String]) -> (copy: Vec<String>)
    ensures
        id_texts(copy@) == id_texts(ids@),
{
    let mut copy: Vec<String> = Vec::new();
    while copy.len() < ids.len()
        invariant
            copy@.len() <= ids@.len(),
            forall|i: int| 0 <= i < copy@.len() ==> (#[trigger] copy@[i])@ == ids@[i]@,
        decreases ids.len() - copy.len(),
    {
        let id: String = String::from_str(ids[copy.len()].as_str());
        copy.push(id);
    }
    proof {
        assert(id_texts(copy@) =~= id_texts(ids@));
    }
    copy
}

/// What resolution starts from, for events and given heads.
pub open spec fn prepares(
    events: Seq<(String, LeanEvent)>,
    given: Seq<Seq<char>>,
    prepared: Preparation,
) -> bool {
    let heads = id_texts(prepared.heads@);
    &&& heads == chosen_heads(events, given)
    &&& prepared.agreed.wf()
    &&& prepared.disputed@.len() == events.len()
    &&& exists|prev: Seq<Vec<usize>>, states: Seq<StateMap<usize>>|
        #![trigger states_at(events, prev, heads, states)]
        {
            &&& links_of(events, Link::Prev, prev)
            &&& states_at(events, prev, heads, states)
            &&& splits(states, prepared.agreed.view(), prepared.disputed@)
        }
    &&& exists|auth: Seq<Vec<usize>>| #[trigger]
        chains_of(prepared.graph, events, auth) && forall|b: u32| #[trigger]
            prepared.difference@.contains(b) <==> b < events.len() && chains_differ(
                events,
                auth,
                heads,
                b as int,
            )
    &&& forall|i: int, j: int|
        0 <= i < j < prepared.difference@.len() ==> #[trigger] prepared.difference@[i]
            < #[trigger] prepared.difference@[j]
}

/// Works out what resolution starts from. Where no heads are given, those of the
/// graph are taken.
pub fn prepare(events: &TextMap<LeanEvent>, given_heads: &[String]) -> (prepared: Preparation)
    requires
        events_wf(*events),
        events.entries.len() <= u32::MAX,
    ensures
        prepares(events.entries@, id_texts(given_heads@), prepared),
{
    let ghost all = events.entries@;
    let heads: Vec<String> = if given_heads.len() == 0 {
        auto_heads(events)
    } else {
        copy_heads(given_heads)
    };
    let ghost ids = id_texts(heads@);
    let states: Vec<StateMap<usize>> = head_states(events, heads.as_slice());
    let ghost prev = choose|successors: Seq<Vec<usize>>| #[trigger]
        links_of(all, Link::Prev, successors) && forall|i: int|
            0 <= i < states@.len() ==> (#[trigger] states@[i]).wf() && head_state(
                all,
                successors,
                if heads@.len() == 0 {
                    None
                } else {
                    Some(heads@[i]@)
                },
                states@[i].view(),
            );
    proof {
        assert forall|i: int, key: KeyText|
            0 <= i < states@.len() && #[trigger] states@[i].view().contains_key(key) implies
            states@[i].view()[key] < all.len() by {
            let state = states@[i].view();
            let head = if heads@.len() == 0 {
                None
            } else {
                Some(heads@[i]@)
            };
            assert(head_state(all, prev, head, state));
            let marks = choose|marks: Seq<bool>|
                {
                    &&& marks.len() == all.len()
                    &&& forall|b: int|
                        0 <= b < marks.len() ==> (#[trigger] marks[b] <==> match head {
                            Some(head) => crate::room::before_head(all, prev, head, b),
                            None => true,
                        })
                    &&& #[trigger] state_after(state, all, marks, all.len() as int)
                };
            assert(latest(all, marks, all.len() as int, key, state[key] as int));
        }
        assert(states_at(all, prev, ids, states@)) by {
            assert forall|i: int| 0 <= i < states@.len() implies head_state(
                all,
                prev,
                if ids.len() == 0 {
                    None
                } else {
                    Some(ids[i])
                },
                (#[trigger] states@[i]).view(),
            ) by {
                assert(states@[i].wf());
            }
        }
    }
    let (agreed, marks) = split_states(&states, events.entries.len());
    let graph: AuthGraph = AuthGraph::build(events);
    let places: Vec<usize> = head_places(events, &heads);
    proof {
        assert forall|i: int| 0 <= i < places@.len() implies #[trigger] places@[i]
            < graph.auth_bitmaps@.len() by {
            assert(places@[i] == places@[i] as int);
            assert(is_head(all, ids, places@[i] as int));
        }
    }
    let difference: Vec<u32> = graph.auth_difference(places.as_slice());
    proof {
        let auth = choose|auth: Seq<Vec<usize>>| #[trigger] chains_of(graph, all, auth);
        assert forall|b: u32| #[trigger] difference@.contains(b) <==> b < all.len()
            && chains_differ(all, auth, ids, b as int) by {
            if difference@.contains(b) {
                let i = choose|i: int|
                    0 <= i < places@.len() && bitmap_set(
                        graph.auth_bitmaps@[#[trigger] places@[i] as int],
                    ).contains(b);
                let j = choose|j: int|
                    0 <= j < places@.len() && !bitmap_set(
                        graph.auth_bitmaps@[#[trigger] places@[j] as int],
                    ).contains(b);
                assert(places@[i] == places@[i] as int && places@[j] == places@[j] as int);
                assert(is_head(all, ids, places@[i] as int));
                assert(is_head(all, ids, places@[j] as int));
            }
            if b < all.len() && chains_differ(all, auth, ids, b as int) {
                let x = choose|a: int| #[trigger]
                    is_head(all, ids, a) && in_chain(auth, a, b as int);
                let y = choose|a: int| #[trigger]
                    is_head(all, ids, a) && !in_chain(auth, a, b as int);
                let i = choose|i: int| 0 <= i < places@.len() && #[trigger] places@[i] == x;
                let j = choose|j: int| 0 <= j < places@.len() && #[trigger] places@[j] == y;
                assert(bitmap_set(graph.auth_bitmaps@[places@[i] as int]).contains(b));
                assert(!bitmap_set(graph.auth_bitmaps@[places@[j] as int]).contains(b));
            }
        }
    }
    let prepared: Preparation = Preparation { heads, agreed, disputed: marks, difference, graph };
    proof {
        assert(splits(states@, prepared.agreed.view(), prepared.disputed@));
        assert(states_at(all, prev, id_texts(prepared.heads@), states@));
        let auth = choose|auth: Seq<Vec<usize>>| #[trigger] chains_of(graph, all, auth);
        assert(chains_of(prepared.graph, all, auth));
    }
    prepared
}

impl Preparation {
    /// The events that resolution works on. `subgraph` holds the places of the
    /// events between conflicting ones, which some versions take in.
    pub fn conflicted(&self, subgraph: &Vec<usize>, version: StateResVersion) -> (marks: Vec<bool>)
        requires
            forall|i: int|
                0 <= i < self.difference@.len() ==> (#[trigger] self.difference@[i])
                    < self.disputed@.len(),
            forall|i: int|
                0 <= i < subgraph@.len() ==> (#[trigger] subgraph@[i]) < self.disputed@.len(),
        ensures
            conflict_marks(
                self.disputed@,
                self.difference@,
                subgraph@,
                version,
                marks@,
            ),
    {
        conflicted_events(&self.disputed, &self.difference, subgraph, version)
    }
}

} // verus!
