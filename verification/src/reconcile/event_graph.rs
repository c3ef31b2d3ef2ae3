//! A forward graph that is held in memory.

use vstd::prelude::*;
use vstd::string::StringExecFns;
use crate::collections::{has_key, key_position, TextMap, TextSet};
use super::algebraic::{AlgebraicError, ElementHash, EventIdFormat};
use super::frame::{finite_graph, holds_children, identifier_hash, texts_of, ForwardGraph};

verus! {

/// Forward edges between events, the events that are known, and element hashes
/// that are at hand.
pub struct EventGraph {
    known_events: TextSet,
    forward_edges: TextMap<Vec<String>>,
    hashes: TextMap<ElementHash>,
    format: EventIdFormat,
}

impl EventGraph {
    #[verifier::type_invariant]
    spec fn ordered(&self) -> bool {
        self.known_events.wf() && self.forward_edges.wf() && self.hashes.wf()
    }

    /// The children of an event, in the order in which they were added.
    pub closed spec fn children_of(&self, id: Seq<char>) -> Seq<Seq<char>> {
        if self.forward_edges.view().contains_key(id) {
            texts_of(self.forward_edges.view()[id]@)
        } else {
            Seq::empty()
        }
    }

    /// The event is known.
    pub closed spec fn knows(&self, id: Seq<char>) -> bool {
        self.known_events.view().contains(id)
    }

    /// The element hash that is at hand for an event.
    pub closed spec fn hash_at_hand(&self, id: Seq<char>) -> Option<ElementHash> {
        if self.hashes.view().contains_key(id) {
            Some(self.hashes.view()[id])
        } else {
            None
        }
    }

    /// The format of every event's identifier.
    pub closed spec fn id_format(&self) -> EventIdFormat {
        self.format
    }

    /// A graph without events.
    pub fn new(format: EventIdFormat) -> (graph: Self)
        ensures
            forall|id: Seq<char>| #[trigger] graph.children_of(id) == Seq::<Seq<char>>::empty(),
            forall|id: Seq<char>| !#[trigger] graph.knows(id),
            forall|id: Seq<char>| #[trigger] graph.hash_at_hand(id) is None,
            graph.id_format() == format,
    {
        EventGraph {
            known_events: TextSet::new(),
            forward_edges: TextMap::new(),
            hashes: TextMap::new(),
            format,
        }
    }

    /// The graph with one more known event.
    pub fn with_event(self, id: &str) -> (graph: Self)
        ensures
            forall|other: Seq<char>| #[trigger]
                graph.knows(other) <==> self.knows(other) || other == id@,
            forall|other: Seq<char>| #[trigger]
                graph.children_of(other) == self.children_of(other),
            forall|other: Seq<char>| #[trigger]
                graph.hash_at_hand(other) == self.hash_at_hand(other),
            graph.id_format() == self.id_format(),
    {
        proof {
            use_type_invariant(&self);
        }
        let EventGraph { known_events, forward_edges, hashes, format } = self;
        let mut known: TextSet = known_events;
        let _new: bool = known.insert(String::from_str(id));
        EventGraph { known_events: known, forward_edges, hashes, format }
    }

    /// The graph with one more child of an event. Both are known.
    pub fn with_edge(self, parent: &str, child: &str) -> (graph: Self)
        ensures
            forall|other: Seq<char>| #[trigger]
                graph.knows(other) <==> self.knows(other) || other == parent@ || other
                    == child@,
            forall|other: Seq<char>| #[trigger]
                graph.children_of(other) == (if other == parent@ {
                    self.children_of(other).push(child@)
                } else {
                    self.children_of(other)
                }),
            forall|other: Seq<char>| #[trigger]
                graph.hash_at_hand(other) == self.hash_at_hand(other),
            graph.id_format() == self.id_format(),
    {
        proof {
            use_type_invariant(&self);
        }
        let ghost before = self;
        let EventGraph { known_events, forward_edges, hashes, format } = self;
        let mut edges: TextMap<Vec<String>> = forward_edges;
        let mut known: TextSet = known_events;
        let mut children: Vec<String> = match edges.get(parent) {
            Some(held) => copy_ids(held),
            None => Vec::new(),
        };
        let ghost held = texts_of(children@);
        children.push(String::from_str(child));
        proof {
            assert(texts_of(children@) =~= held.push(child@));
            assert(held =~= before.children_of(parent@));
        }
        edges.insert(String::from_str(parent), children);
        let _parent: bool = known.insert(String::from_str(parent));
        let _child: bool = known.insert(String::from_str(child));
        EventGraph { known_events: known, forward_edges: edges, hashes, format }
    }

    /// The graph with an element hash at hand for an event.
    pub fn with_hash(self, id: &str, hash: ElementHash) -> (graph: Self)
        ensures
            forall|other: Seq<char>| #[trigger]
                graph.hash_at_hand(other) == (if other == id@ {
                    Some(hash)
                } else {
                    self.hash_at_hand(other)
                }),
            forall|other: Seq<char>| #[trigger]
                graph.children_of(other) == self.children_of(other),
            forall|other: Seq<char>| #[trigger]
                graph.knows(other) == self.knows(other),
            graph.id_format() == self.id_format(),
    {
        proof {
            use_type_invariant(&self);
        }
        let EventGraph { known_events, forward_edges, hashes, format } = self;
        let mut given: TextMap<ElementHash> = hashes;
        given.insert(String::from_str(id), hash);
        EventGraph { known_events, forward_edges, hashes: given, format }
    }
}

/// A copy of a list of identifiers.
fn copy_ids(ids: &Vec<String>) -> (copy: Vec<String>)
    ensures
        texts_of(copy@) == texts_of(ids@),
{
    let mut copy: Vec<String> = Vec::new();
    while copy.len() < ids.len()
        invariant
            copy@.len() <= ids@.len(),
            forall|i: int| 0 <= i < copy@.len() ==> (#[trigger] copy@[i])@ == ids@[i]@,
        decreases ids.len() - copy.len(),
    {
        let id: String = String::from_str(ids[copy.len()].as_str());
        copy.push(id);
    }
    proof {
        assert(texts_of(copy@) =~= texts_of(ids@));
    }
    copy
}

impl ForwardGraph<String> for EventGraph {
    open spec fn child_texts(&self, id: Seq<char>) -> Seq<Seq<char>> {
        self.children_of(id)
    }

    open spec fn known(&self, id: Seq<char>) -> bool {
        self.knows(id)
    }

    open spec fn format_of(&self, id: Seq<char>) -> EventIdFormat {
        self.id_format()
    }

    open spec fn hash_of(&self, id: Seq<char>) -> Result<ElementHash, AlgebraicError> {
        match self.hash_at_hand(id) {
            Some(hash) => Ok(hash),
            None => identifier_hash(id, self.id_format()),
        }
    }

    fn children(&self, id: &String) -> (children: Vec<String>) {
        proof {
            use_type_invariant(self);
        }
        let children: Vec<String> = match self.forward_edges.get(id.as_str()) {
            Some(held) => copy_ids(held),
            None => Vec::new(),
        };
        proof {
            assert(texts_of(children@) =~= self.children_of(id@));
        }
        children
    }

    fn is_known(&self, id: &String) -> (result: bool) {
        proof {
            use_type_invariant(self);
        }
        self.known_events.contains(id.as_str())
    }

    fn event_id_str(&self, id: &String) -> (result: Option<String>) {
        Some(String::from_str(id.as_str()))
    }

    fn event_format(&self, _id: &String) -> (format: EventIdFormat) {
        self.format
    }

    fn event_hash(&self, id: &String) -> (result: Result<ElementHash, AlgebraicError>) {
        proof {
            use_type_invariant(self);
        }
        match self.hashes.get(id.as_str()) {
            Some(hash) => Ok(*hash),
            None => ElementHash::from_matrix_event_id(id.as_str(), self.format),
        }
    }
}

/// The children of the first entries make up a finite set.
proof fn children_finite(edges: Seq<(String, Vec<String>)>, n: nat) -> (events: Set<Seq<char>>)
    requires
        n <= edges.len(),
    ensures
        events.finite(),
        forall|i: int, j: int|
            0 <= i < n && 0 <= j < edges[i].1@.len() ==> events.contains(
                #[trigger] texts_of(edges[i].1@)[j],
            ),
    decreases n,
{
    if n == 0 {
        Set::empty()
    } else {
        let before = children_finite(edges, (n - 1) as nat);
        let last = texts_of(edges[n - 1].1@);
        assert(last.to_set().finite()) by {
            broadcast use vstd::seq_lib::seq_to_set_is_finite;
        }
        let events = before.union(last.to_set());
        assert forall|i: int, j: int| 0 <= i < n && 0 <= j < edges[i].1@.len() implies events.contains(
            #[trigger] texts_of(edges[i].1@)[j],
        ) by {
            if i == n - 1 {
                assert(last.contains(last[j]));
            } else {
                assert(before.contains(texts_of(edges[i].1@)[j]));
            }
        }
        events
    }
}

/// A graph that is held in memory has finitely many events.
pub proof fn event_graph_finite(graph: &EventGraph)
    ensures
        finite_graph::<String, EventGraph>(graph),
{
    let edges = graph.forward_edges.entries@;
    let events = children_finite(edges, edges.len());
    assert(holds_children::<String, EventGraph>(graph, events)) by {
        assert forall|id: Seq<char>, i: int| 0 <= i < graph.child_texts(id).len() implies events.contains(
            #[trigger] graph.child_texts(id)[i],
        ) by {
            assert(graph.forward_edges.view().contains_key(id));
            assert(has_key(edges, id));
            let place = key_position(edges, id);
            assert(graph.child_texts(id) == texts_of(edges[place].1@));
            assert(events.contains(texts_of(edges[place].1@)[i]));
        }
    }
}

} // verus!
