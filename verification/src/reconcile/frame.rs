//! The digest of a negotiated frame of the event graph.

use vstd::prelude::*;
use crate::bytes::be_value;
use crate::collections::TextSet;
use super::algebraic::{
    event_digest, short_identifier, with_element, AlgebraicError, ElementHash, EventIdFormat,
    RoomAccumulator,
};

verus! {

/// An event identifier, determined by its text.
pub trait EventId: Sized {
    /// The text of the identifier.
    spec fn text(&self) -> Seq<char>;

    /// Writes the identifier out.
    fn to_text(&self) -> (text: String)
        ensures
            text@ == self.text(),
    ;

    /// Copies the identifier.
    fn duplicate(&self) -> (copy: Self)
        ensures
            copy.text() == self.text(),
    ;
}

impl EventId for String {
    open spec fn text(&self) -> Seq<char> {
        self@
    }

    fn to_text(&self) -> (text: String) {
        self.clone()
    }

    fn duplicate(&self) -> (copy: Self) {
        self.clone()
    }
}

/// The texts of a list of identifiers.
pub open spec fn texts_of<Id: EventId>(ids: Seq<Id>) -> Seq<Seq<char>> {
    Seq::new(ids.len(), |i: int| ids[i].text())
}

/// Abstraction for forward traversal through the room DAG.
///
/// Homeservers typically traverse backwards via `prev_events`. To bound a
/// frame, traversal goes *forwards* and collects all topological descendants
/// of the frame anchors.
pub trait ForwardGraph<Id: EventId> {
    /// The texts of an event's children.
    spec fn child_texts(&self, id: Seq<char>) -> Seq<Seq<char>>;

    /// The event is known to the server.
    spec fn known(&self, id: Seq<char>) -> bool;

    /// The format of an event's identifier.
    spec fn format_of(&self, id: Seq<char>) -> EventIdFormat;

    /// The element hash of an event.
    spec fn hash_of(&self, id: Seq<char>) -> Result<ElementHash, AlgebraicError>;

    /// Returns the children of the given event ID.
    /// This represents the forward edges in the causal graph (where a child's
    /// `prev_events` contains `id`).
    fn children(&self, id: &Id) -> (children: Vec<Id>)
        ensures
            texts_of(children@) == self.child_texts(id.text()),
    ;

    /// Checks if a given event ID is known to the server.
    /// A known event can be either fully accepted, or rejected (a tombstone).
    /// Rejected events are strictly required to take part.
    fn is_known(&self, id: &Id) -> (result: bool)
        ensures
            result == self.known(id.text()),
    ;

    /// Returns the string representation of an event ID if it is at hand.
    /// Defaults to `None`, falling back to [`EventId::to_text`].
    fn event_id_str(&self, _id: &Id) -> (result: Option<String>)
        ensures
            result matches Some(text) ==> text@ == _id.text(),
    {
        None
    }

    /// Returns the event ID format for a given known event, used to compute
    /// its algebraic digest.
    ///
    /// Implementations MUST return the correct format even for rejected
    /// events (tombstones). If a rejected event's format is misidentified,
    /// its hash will be incorrect and will silently desync the reconciliation set.
    fn event_format(&self, id: &Id) -> (format: EventIdFormat)
        ensures
            format == self.format_of(id.text()),
    ;

    /// Returns the computed `ElementHash` for a given event ID.
    ///
    /// Implementations that have nothing faster return [`matrix_event_hash`].
    ///
    /// # Errors
    /// Returns an error if the event ID format is invalid or hashing fails.
    fn event_hash(&self, id: &Id) -> (result: Result<ElementHash, AlgebraicError>)
        ensures
            result == self.hash_of(id.text()),
    ;
}

/// The two truncations of a digest.
pub open spec fn hash_from_digest(digest: Seq<u8>) -> ElementHash {
    ElementHash { h128: be_value(digest.take(16)) as u128, h64: short_identifier(digest, 0) as u64 }
}

/// The element hash of an event identifier in a format.
pub open spec fn identifier_hash(id: Seq<char>, format: EventIdFormat) -> Result<
    ElementHash,
    AlgebraicError,
> {
    match event_digest(id, format) {
        Ok(digest) => Ok(hash_from_digest(digest)),
        Err(error) => Err(error),
    }
}

/// Derives an event's element hash from its identifier and format.
///
/// # Errors
/// Returns an error if the event ID format is invalid.
pub fn matrix_event_hash<Id: EventId, G: ForwardGraph<Id>>(graph: &G, id: &Id) -> (result: Result<
    ElementHash,
    AlgebraicError,
>)
    ensures
        result == identifier_hash(id.text(), graph.format_of(id.text())),
{
    let format: EventIdFormat = graph.event_format(id);
    let text: String = match graph.event_id_str(id) {
        Some(text) => text,
        None => id.to_text(),
    };
    ElementHash::from_matrix_event_id(text.as_str(), format)
}

/// The graph has finitely many events: some finite set holds every child.
pub open spec fn finite_graph<Id: EventId, G: ForwardGraph<Id>>(graph: &G) -> bool {
    exists|events: Set<Seq<char>>| #[trigger] holds_children::<Id, G>(graph, events)
}

/// A finite set that holds every child.
pub open spec fn holds_children<Id: EventId, G: ForwardGraph<Id>>(
    graph: &G,
    events: Set<Seq<char>>,
) -> bool {
    events.finite() && forall|id: Seq<char>, i: int|
        0 <= i < graph.child_texts(id).len() ==> events.contains(
            #[trigger] graph.child_texts(id)[i],
        )
}

/// The identifier is a known anchor.
pub open spec fn known_anchor<Id: EventId, G: ForwardGraph<Id>>(
    graph: &G,
    anchors: Seq<Seq<char>>,
    id: Seq<char>,
) -> bool {
    graph.known(id) && anchors.contains(id)
}

/// A path of known events that starts at an anchor.
pub open spec fn frame_path<Id: EventId, G: ForwardGraph<Id>>(
    graph: &G,
    anchors: Seq<Seq<char>>,
    path: Seq<Seq<char>>,
) -> bool {
    &&& path.len() > 0
    &&& anchors.contains(path[0])
    &&& forall|i: int| 0 <= i < path.len() ==> graph.known(#[trigger] path[i])
    &&& forall|i: int|
        0 <= i < path.len() - 1 ==> graph.child_texts(#[trigger] path[i]).contains(path[i + 1])
}

/// The event can be reached from an anchor through known events.
pub open spec fn reached<Id: EventId, G: ForwardGraph<Id>>(
    graph: &G,
    anchors: Seq<Seq<char>>,
    id: Seq<char>,
) -> bool {
    exists|path: Seq<Seq<char>>| #[trigger]
        frame_path::<Id, G>(graph, anchors, path) && path.last() == id
}

/// The event belongs to the frame: it is a known descendant of an anchor, and
/// no anchor itself.
pub open spec fn in_frame<Id: EventId, G: ForwardGraph<Id>>(
    graph: &G,
    anchors: Seq<Seq<char>>,
    id: Seq<char>,
) -> bool {
    reached::<Id, G>(graph, anchors, id) && !known_anchor::<Id, G>(graph, anchors, id)
}

/// The accumulator of a list of events.
pub open spec fn accumulated<Id: EventId, G: ForwardGraph<Id>>(
    graph: &G,
    events: Seq<Seq<char>>,
) -> RoomAccumulator
    decreases events.len(),
{
    if events.len() == 0 {
        RoomAccumulator { digest: 0, count: 0 }
    } else {
        with_element(
            accumulated::<Id, G>(graph, events.drop_last()),
            graph.hash_of(events.last())->Ok_0,
        )
    }
}

/// A list of all events of the frame, each once.
pub open spec fn frame_events<Id: EventId, G: ForwardGraph<Id>>(
    graph: &G,
    anchors: Seq<Seq<char>>,
    events: Seq<Seq<char>>,
) -> bool {
    &&& events.no_duplicates()
    &&& forall|id: Seq<char>| #[trigger]
        events.contains(id) <==> in_frame::<Id, G>(graph, anchors, id)
}

/// The anchors that are known to the server.
pub open spec fn known_anchors<Id: EventId, G: ForwardGraph<Id>>(
    graph: &G,
    anchors: Seq<Seq<char>>,
) -> Seq<Seq<char>> {
    anchors.filter(|id: Seq<char>| graph.known(id))
}

/// A walk over the children from the `n`th on of the queued events from `head` on
/// that ends within a number of steps: with the events it has counted, or with the
/// first error of an event's hash. Events met for the first time are queued and
/// counted where they are known.
pub open spec fn walk_runs<Id: EventId, G: ForwardGraph<Id>>(
    graph: &G,
    queue: Seq<Seq<char>>,
    head: nat,
    n: nat,
    visited: Set<Seq<char>>,
    counted: Seq<Seq<char>>,
    end: Result<Seq<Seq<char>>, AlgebraicError>,
    steps: nat,
) -> bool
    decreases steps,
{
    if head >= queue.len() {
        end == Ok::<Seq<Seq<char>>, AlgebraicError>(counted)
    } else if steps == 0 {
        false
    } else {
        let left = (steps - 1) as nat;
        let children = graph.child_texts(queue[head as int]);
        let child = children[n as int];
        if n >= children.len() {
            walk_runs::<Id, G>(graph, queue, head + 1, 0, visited, counted, end, left)
        } else if visited.contains(child) || !graph.known(child) {
            walk_runs::<Id, G>(
                graph,
                queue,
                head,
                n + 1,
                visited.insert(child),
                counted,
                end,
                left,
            )
        } else {
            match graph.hash_of(child) {
                Err(error) => end == Err::<Seq<Seq<char>>, AlgebraicError>(error),
                Ok(_) => walk_runs::<Id, G>(
                    graph,
                    queue.push(child),
                    head,
                    n + 1,
                    visited.insert(child),
                    counted.push(child),
                    end,
                    left,
                ),
            }
        }
    }
}

/// How a breadth-first walk from the known anchors ends.
pub open spec fn breadth_first<Id: EventId, G: ForwardGraph<Id>>(
    graph: &G,
    anchors: Seq<Seq<char>>,
    end: Result<Seq<Seq<char>>, AlgebraicError>,
) -> bool {
    let first = known_anchors::<Id, G>(graph, anchors);
    exists|steps: nat| #[trigger]
        walk_runs::<Id, G>(graph, first, 0, 0, first.to_set(), Seq::empty(), end, steps)
}

/// How a walk ends from a state is how it ends from the known anchors.
spec fn leads_to<Id: EventId, G: ForwardGraph<Id>>(
    graph: &G,
    anchors: Seq<Seq<char>>,
    queue: Seq<Seq<char>>,
    head: nat,
    n: nat,
    visited: Set<Seq<char>>,
    counted: Seq<Seq<char>>,
) -> bool {
    forall|end: Result<Seq<Seq<char>>, AlgebraicError>, steps: nat| #[trigger]
        walk_runs::<Id, G>(graph, queue, head, n, visited, counted, end, steps)
            ==> breadth_first::<Id, G>(graph, anchors, end)
}

proof fn walk_starts<Id: EventId, G: ForwardGraph<Id>>(
    graph: &G,
    anchors: Seq<Seq<char>>,
    visited: Set<Seq<char>>,
)
    requires
        visited == known_anchors::<Id, G>(graph, anchors).to_set(),
    ensures
        leads_to::<Id, G>(
            graph,
            anchors,
            known_anchors::<Id, G>(graph, anchors),
            0,
            0,
            visited,
            Seq::empty(),
        ),
{
}

/// Behind the last child of an event comes the next event.
proof fn walk_moves_on<Id: EventId, G: ForwardGraph<Id>>(
    graph: &G,
    anchors: Seq<Seq<char>>,
    queue: Seq<Seq<char>>,
    head: nat,
    n: nat,
    visited: Set<Seq<char>>,
    counted: Seq<Seq<char>>,
)
    requires
        leads_to::<Id, G>(graph, anchors, queue, head, n, visited, counted),
        head < queue.len(),
        n >= graph.child_texts(queue[head as int]).len(),
    ensures
        leads_to::<Id, G>(graph, anchors, queue, head + 1, 0, visited, counted),
{
    assert forall|end: Result<Seq<Seq<char>>, AlgebraicError>, steps: nat| #[trigger]
        walk_runs::<Id, G>(
            graph,
            queue,
            head + 1,
            0,
            visited,
            counted,
            end,
            steps,
        ) implies breadth_first::<Id, G>(graph, anchors, end) by {
        assert(walk_runs::<Id, G>(graph, queue, head, n, visited, counted, end, steps + 1));
    }
}

/// A child that was met before, or is unknown, is passed over.
proof fn walk_skips<Id: EventId, G: ForwardGraph<Id>>(
    graph: &G,
    anchors: Seq<Seq<char>>,
    queue: Seq<Seq<char>>,
    head: nat,
    n: nat,
    visited: Set<Seq<char>>,
    counted: Seq<Seq<char>>,
)
    requires
        leads_to::<Id, G>(graph, anchors, queue, head, n, visited, counted),
        head < queue.len(),
        n < graph.child_texts(queue[head as int]).len(),
        visited.contains(graph.child_texts(queue[head as int])[n as int]) || !graph.known(
            graph.child_texts(queue[head as int])[n as int],
        ),
    ensures
        leads_to::<Id, G>(
            graph,
            anchors,
            queue,
            head,
            n + 1,
            visited.insert(graph.child_texts(queue[head as int])[n as int]),
            counted,
        ),
{
    let child = graph.child_texts(queue[head as int])[n as int];
    assert forall|end: Result<Seq<Seq<char>>, AlgebraicError>, steps: nat| #[trigger]
        walk_runs::<Id, G>(
            graph,
            queue,
            head,
            n + 1,
            visited.insert(child),
            counted,
            end,
            steps,
        ) implies breadth_first::<Id, G>(graph, anchors, end) by {
        assert(walk_runs::<Id, G>(graph, queue, head, n, visited, counted, end, steps + 1));
    }
}

/// A known child that is met for the first time is counted, or ends the walk.
proof fn walk_counts<Id: EventId, G: ForwardGraph<Id>>(
    graph: &G,
    anchors: Seq<Seq<char>>,
    queue: Seq<Seq<char>>,
    head: nat,
    n: nat,
    visited: Set<Seq<char>>,
    counted: Seq<Seq<char>>,
)
    requires
        leads_to::<Id, G>(graph, anchors, queue, head, n, visited, counted),
        head < queue.len(),
        n < graph.child_texts(queue[head as int]).len(),
        !visited.contains(graph.child_texts(queue[head as int])[n as int]),
        graph.known(graph.child_texts(queue[head as int])[n as int]),
    ensures
        ({
            let child = graph.child_texts(queue[head as int])[n as int];
            match graph.hash_of(child) {
                Ok(_) => leads_to::<Id, G>(
                    graph,
                    anchors,
                    queue.push(child),
                    head,
                    n + 1,
                    visited.insert(child),
                    counted.push(child),
                ),
                Err(error) => breadth_first::<Id, G>(graph, anchors, Err(error)),
            }
        }),
{
    let child = graph.child_texts(queue[head as int])[n as int];
    match graph.hash_of(child) {
        Ok(_) => {
            assert forall|end: Result<Seq<Seq<char>>, AlgebraicError>, steps: nat| #[trigger]
                walk_runs::<Id, G>(
                    graph,
                    queue.push(child),
                    head,
                    n + 1,
                    visited.insert(child),
                    counted.push(child),
                    end,
                    steps,
                ) implies breadth_first::<Id, G>(graph, anchors, end) by {
                assert(walk_runs::<Id, G>(graph, queue, head, n, visited, counted, end, steps + 1));
            }
        },
        Err(error) => {
            assert(walk_runs::<Id, G>(graph, queue, head, n, visited, counted, Err(error), 1));
        },
    }
}

proof fn path_extends<Id: EventId, G: ForwardGraph<Id>>(
    graph: &G,
    anchors: Seq<Seq<char>>,
    id: Seq<char>,
    child: Seq<char>,
)
    requires
        reached::<Id, G>(graph, anchors, id),
        graph.child_texts(id).contains(child),
        graph.known(child),
    ensures
        reached::<Id, G>(graph, anchors, child),
{
    let path = choose|path: Seq<Seq<char>>| #[trigger]
        frame_path::<Id, G>(graph, anchors, path) && path.last() == id;
    let longer = path.push(child);
    assert forall|i: int| 0 <= i < longer.len() - 1 implies graph.child_texts(
        #[trigger] longer[i],
    ).contains(longer[i + 1]) by {
        if i < path.len() - 1 {
            assert(longer[i] == path[i] && longer[i + 1] == path[i + 1]);
        }
    }
    assert forall|i: int| 0 <= i < longer.len() implies graph.known(#[trigger] longer[i]) by {
        if i < path.len() {
            assert(longer[i] == path[i]);
        }
    }
    assert(longer[0] == path[0]);
    assert(frame_path::<Id, G>(graph, anchors, longer));
}

/// A set that holds the known anchors and all children of its known members
/// holds everything that can be reached.
proof fn closed_holds_reached<Id: EventId, G: ForwardGraph<Id>>(
    graph: &G,
    anchors: Seq<Seq<char>>,
    held: Set<Seq<char>>,
    path: Seq<Seq<char>>,
    n: nat,
)
    requires
        frame_path::<Id, G>(graph, anchors, path),
        forall|id: Seq<char>| #[trigger]
            known_anchor::<Id, G>(graph, anchors, id) ==> held.contains(id),
        forall|id: Seq<char>, i: int|
            graph.known(id) && held.contains(id) && 0 <= i < graph.child_texts(id).len()
                ==> held.contains(#[trigger] graph.child_texts(id)[i]),
        n < path.len(),
    ensures
        held.contains(path[n as int]),
    decreases n,
{
    if n == 0 {
        assert(known_anchor::<Id, G>(graph, anchors, path[0]));
    } else {
        closed_holds_reached::<Id, G>(graph, anchors, held, path, (n - 1) as nat);
        let id = path[n - 1];
        assert(graph.known(id));
        assert(graph.child_texts(id).contains(path[n - 1 + 1]));
        let i = choose|i: int|
            0 <= i < graph.child_texts(id).len() && graph.child_texts(id)[i] == path[n as int];
        assert(held.contains(graph.child_texts(id)[i]));
    }
}

/// The state of the traversal: what has been seen, queued and counted.
spec fn traversal<Id: EventId, G: ForwardGraph<Id>>(
    graph: &G,
    anchors: Seq<Seq<char>>,
    visited: Set<Seq<char>>,
    queue: Seq<Seq<char>>,
    counted: Seq<Seq<char>>,
) -> bool {
    &&& forall|id: Seq<char>| #[trigger]
        known_anchor::<Id, G>(graph, anchors, id) ==> visited.contains(id)
    &&& forall|i: int|
        0 <= i < queue.len() ==> visited.contains(#[trigger] queue[i]) && reached::<Id, G>(
            graph,
            anchors,
            queue[i],
        )
    &&& forall|id: Seq<char>| #[trigger]
        visited.contains(id) && graph.known(id) ==> queue.contains(id)
    &&& counted.no_duplicates()
    &&& forall|i: int|
        0 <= i < counted.len() ==> visited.contains(#[trigger] counted[i]) && in_frame::<Id, G>(
            graph,
            anchors,
            counted[i],
        ) && graph.hash_of(counted[i]) is Ok
    &&& forall|id: Seq<char>| #[trigger]
        visited.contains(id) && graph.known(id) && !known_anchor::<Id, G>(graph, anchors, id)
            ==> counted.contains(id)
}

/// The children of the first `n` queued events have been seen.
spec fn expanded<Id: EventId, G: ForwardGraph<Id>>(
    graph: &G,
    visited: Set<Seq<char>>,
    queue: Seq<Seq<char>>,
    n: int,
) -> bool {
    forall|k: int, i: int|
        0 <= k < n && 0 <= i < graph.child_texts(queue[k]).len() ==> visited.contains(
            #[trigger] graph.child_texts(queue[k])[i],
        )
}

proof fn traversal_complete<Id: EventId, G: ForwardGraph<Id>>(
    graph: &G,
    anchors: Seq<Seq<char>>,
    visited: Set<Seq<char>>,
    queue: Seq<Seq<char>>,
    counted: Seq<Seq<char>>,
)
    requires
        traversal::<Id, G>(graph, anchors, visited, queue, counted),
        expanded::<Id, G>(graph, visited, queue, queue.len() as int),
    ensures
        frame_events::<Id, G>(graph, anchors, counted),
{
    assert forall|id: Seq<char>, i: int|
        graph.known(id) && visited.contains(id) && 0 <= i < graph.child_texts(
            id,
        ).len() implies visited.contains(#[trigger] graph.child_texts(id)[i]) by {
        assert(queue.contains(id));
        let k = choose|k: int| 0 <= k < queue.len() && queue[k] == id;
        assert(visited.contains(graph.child_texts(queue[k])[i]));
    }
    assert forall|id: Seq<char>| #[trigger] counted.contains(id) <==> in_frame::<Id, G>(
        graph,
        anchors,
        id,
    ) by {
        if counted.contains(id) {
            let i = choose|i: int| 0 <= i < counted.len() && counted[i] == id;
            assert(in_frame::<Id, G>(graph, anchors, counted[i]));
        }
        if in_frame::<Id, G>(graph, anchors, id) {
            let path = choose|path: Seq<Seq<char>>| #[trigger]
                frame_path::<Id, G>(graph, anchors, path) && path.last() == id;
            closed_holds_reached::<Id, G>(
                graph,
                anchors,
                visited,
                path,
                (path.len() - 1) as nat,
            );
            assert(graph.known(path[path.len() - 1]));
        }
    }
}

/// What digesting a frame returns: the accumulator of its events, or the error of
/// the first event, breadth first from the anchors, that has no hash.
pub open spec fn frame_outcome<Id: EventId, G: ForwardGraph<Id>>(
    graph: &G,
    anchors: Seq<Seq<char>>,
    result: Result<RoomAccumulator, AlgebraicError>,
) -> bool {
    match result {
        Ok(digest) => exists|events: Seq<Seq<char>>| #[trigger]
            frame_events::<Id, G>(graph, anchors, events) && digest == accumulated::<Id, G>(
                graph,
                events,
            ) && breadth_first::<Id, G>(graph, anchors, Ok(events)) && forall|i: int|
                0 <= i < events.len() ==> graph.hash_of(#[trigger] events[i]) is Ok,
        Err(error) => breadth_first::<Id, G>(graph, anchors, Err(error)) && exists|id: Seq<char>|
            #[trigger]
            in_frame::<Id, G>(graph, anchors, id) && graph.hash_of(id) == Err::<
                ElementHash,
                AlgebraicError,
            >(error),
    }
}

/// Computes the room digest over a negotiated frame.
///
/// The frame is mathematically bounded by the causal graph. The digested
/// population includes only the known events that **causally succeed** (are
/// topological descendants of) the anchor antichain. Events that causally
/// precede the anchor, such as pre-join history, are excluded.
///
/// # Errors
/// Returns an error if any frame event IDs violate format rules or element
/// hashing limits: that of the first such event, breadth first.
pub fn compute_frame_digest<Id: EventId, G: ForwardGraph<Id>>(
    graph: &G,
    frame_anchors: &[Id],
) -> (result: Result<RoomAccumulator, AlgebraicError>)
    requires
        finite_graph::<Id, G>(graph),
    ensures
        frame_outcome::<Id, G>(graph, texts_of(frame_anchors@), result),
{
    let ghost anchors = texts_of(frame_anchors@);
    let ghost events = choose|events: Set<Seq<char>>| #[trigger]
        holds_children::<Id, G>(graph, events);
    let mut accumulator: RoomAccumulator = RoomAccumulator::new();
    let mut queue: Vec<Id> = Vec::new();
    let mut visited: TextSet = TextSet::new();
    let mut place: usize = 0;
    proof {
        reveal(Seq::filter);
        assert(texts_of(queue@) =~= known_anchors::<Id, G>(graph, anchors.take(0)));
    }
    while place < frame_anchors.len()
        invariant
            place <= frame_anchors.len(),
            anchors == texts_of(frame_anchors@),
            visited.wf(),
            forall|id: Seq<char>| #[trigger]
                visited@.contains(id) <==> graph.known(id) && exists|i: int|
                    0 <= i < place && #[trigger] anchors[i] == id,
            forall|i: int|
                0 <= i < queue.len() ==> known_anchor::<Id, G>(
                    graph,
                    anchors,
                    #[trigger] texts_of(queue@)[i],
                ) && visited@.contains(texts_of(queue@)[i]),
            forall|id: Seq<char>| #[trigger]
                visited@.contains(id) ==> texts_of(queue@).contains(id),
            texts_of(queue@) == known_anchors::<Id, G>(graph, anchors.take(place as int)),
        decreases frame_anchors.len() - place,
    {
        let anchor: &Id = &frame_anchors[place];
        let ghost text = anchor.text();
        let ghost seen = visited@;
        proof {
            assert(anchors[place as int] == text);
        }
        if graph.is_known(anchor) {
            let ghost before = texts_of(queue@);
            queue.push(anchor.duplicate());
            visited.insert(anchor.to_text());
            proof {
                assert(texts_of(queue@) =~= before.push(text));
                assert forall|id: Seq<char>| #[trigger] visited@.contains(id) implies texts_of(
                    queue@,
                ).contains(id) by {
                    if id == text {
                        assert(texts_of(queue@)[before.len() as int] == id);
                    } else {
                        assert(seen.contains(id));
                        assert(before.contains(id));
                        let k = choose|k: int| 0 <= k < before.len() && before[k] == id;
                        assert(texts_of(queue@)[k] == id);
                    }
                }
                assert forall|i: int| 0 <= i < queue.len() implies known_anchor::<Id, G>(
                    graph,
                    anchors,
                    #[trigger] texts_of(queue@)[i],
                ) && visited@.contains(texts_of(queue@)[i]) by {
                    if i < before.len() {
                        assert(texts_of(queue@)[i] == before[i]);
                        assert(seen.contains(before[i]));
                    }
                }
            }
        }
        proof {
            reveal(Seq::filter);
            assert(anchors.take(place + 1).drop_last() =~= anchors.take(place as int));
            assert forall|id: Seq<char>| #[trigger] visited@.contains(id) <==> graph.known(id)
                && exists|i: int| 0 <= i < place + 1 && #[trigger] anchors[i] == id by {
                assert(seen.contains(id) <==> graph.known(id) && exists|i: int|
                    0 <= i < place && #[trigger] anchors[i] == id);
                if seen.contains(id) {
                    let i = choose|i: int| 0 <= i < place && #[trigger] anchors[i] == id;
                    assert(anchors[i] == id);
                }
                if id == text && graph.known(id) {
                    assert(anchors[place as int] == id);
                }
            }
        }
        place = place + 1;
    }
    let ghost mut counted: Seq<Seq<char>> = Seq::empty();
    let ghost anchored = queue@.len();
    proof {
        assert forall|id: Seq<char>| #[trigger] known_anchor::<Id, G>(
            graph,
            anchors,
            id,
        ) implies visited@.contains(id) by {
            let i = choose|i: int| 0 <= i < anchors.len() && anchors[i] == id;
            assert(anchors[i] == id);
        }
        assert forall|i: int| 0 <= i < queue.len() implies reached::<Id, G>(
            graph,
            anchors,
            #[trigger] texts_of(queue@)[i],
        ) by {
            let path = seq![texts_of(queue@)[i]];
            assert(frame_path::<Id, G>(graph, anchors, path));
        }
        assert forall|id: Seq<char>| #[trigger] visited@.contains(id) && graph.known(
            id,
        ) && !known_anchor::<Id, G>(graph, anchors, id) implies counted.contains(id) by {
            let i = choose|i: int| 0 <= i < place && #[trigger] anchors[i] == id;
            assert(anchors.contains(anchors[i]));
        }
        assert(traversal::<Id, G>(graph, anchors, visited@, texts_of(queue@), counted));
        assert(anchors.take(place as int) =~= anchors);
        assert(visited@ =~= texts_of(queue@).to_set());
        walk_starts::<Id, G>(graph, anchors, visited@);
    }
    let mut head: usize = 0;
    while head < queue.len()
        invariant
            head <= queue.len(),
            anchors == texts_of(frame_anchors@),
            holds_children::<Id, G>(graph, events),
            visited.wf(),
            traversal::<Id, G>(graph, anchors, visited@, texts_of(queue@), counted),
            expanded::<Id, G>(graph, visited@, texts_of(queue@), head as int),
            leads_to::<Id, G>(
                graph,
                anchors,
                texts_of(queue@),
                head as nat,
                0,
                visited@,
                counted,
            ),
            accumulator == accumulated::<Id, G>(graph, counted),
            accumulator.count == counted.len(),
            counted.len() + anchored == queue@.len(),
            head < queue.len() ==> anchored > 0,
        decreases events.difference(visited@).len(), queue.len() - head,
    {
        let ghost current = queue@[head as int].text();
        let ghost start_visited = visited@;
        let ghost start_queue = queue@.len();
        let children: Vec<Id> = graph.children(&queue[head]);
        proof {
            assert(texts_of(queue@)[head as int] == current);
            assert(events.difference(visited@).finite());
        }
        let mut index: usize = 0;
        while index < children.len()
            invariant
                index <= children.len(),
                head < queue.len(),
                anchored > 0,
                anchors == texts_of(frame_anchors@),
                texts_of(queue@)[head as int] == current,
                texts_of(children@) == graph.child_texts(current),
                holds_children::<Id, G>(graph, events),
                visited.wf(),
                start_visited.subset_of(visited@),
                start_queue <= queue@.len(),
                visited@ != start_visited ==> events.difference(visited@).len()
                    < events.difference(start_visited).len(),
                visited@ == start_visited ==> queue@.len() == start_queue,
                traversal::<Id, G>(graph, anchors, visited@, texts_of(queue@), counted),
                expanded::<Id, G>(graph, visited@, texts_of(queue@), head as int),
                leads_to::<Id, G>(
                    graph,
                    anchors,
                    texts_of(queue@),
                    head as nat,
                    index as nat,
                    visited@,
                    counted,
                ),
                forall|i: int|
                    0 <= i < index ==> visited@.contains(#[trigger] texts_of(children@)[i]),
                accumulator == accumulated::<Id, G>(graph, counted),
                accumulator.count == counted.len(),
                counted.len() + anchored == queue@.len(),
            decreases children.len() - index,
        {
            let child: &Id = &children[index];
            let ghost text = child.text();
            let ghost seen = visited@;
            let ghost queued = texts_of(queue@);
            proof {
                assert(texts_of(children@)[index as int] == text);
                assert(graph.child_texts(current)[index as int] == text);
                assert(events.contains(text));
            }
            let fresh: bool = visited.insert(child.to_text());
            proof {
                if fresh && graph.known(text) {
                    walk_counts::<Id, G>(
                        graph,
                        anchors,
                        queued,
                        head as nat,
                        index as nat,
                        seen,
                        counted,
                    );
                } else {
                    walk_skips::<Id, G>(
                        graph,
                        anchors,
                        queued,
                        head as nat,
                        index as nat,
                        seen,
                        counted,
                    );
                    assert(visited@ =~= seen.insert(text));
                }
                if fresh {
                    difference_shrinks(events, seen, text);
                    assert(visited@ != start_visited) by {
                        assert(visited@.contains(text) && !start_visited.contains(text));
                    }
                } else {
                    assert(visited@ =~= seen);
                }
            }
            if fresh && graph.is_known(child) {
                proof {
                    assert(!known_anchor::<Id, G>(graph, anchors, text));
                    assert(graph.child_texts(current).contains(text));
                    assert(reached::<Id, G>(graph, anchors, queued[head as int]));
                    path_extends::<Id, G>(graph, anchors, current, text);
                    assert(in_frame::<Id, G>(graph, anchors, text));
                }
                let hash: ElementHash = match graph.event_hash(child) {
                    Ok(hash) => hash,
                    Err(error) => return Err(error),
                };
                match accumulator.insert(hash) {
                    Ok(_) => {},
                    Err(error) => return Err(error),
                }
                queue.push(child.duplicate());
                proof {
                    traversal_grows::<Id, G>(graph, anchors, seen, queued, counted, text);
                    assert(texts_of(queue@) =~= queued.push(text));
                    let earlier = counted;
                    counted = counted.push(text);
                    assert(counted.drop_last() =~= earlier);
                    expanded_grows::<Id, G>(
                        graph,
                        seen,
                        visited@,
                        queued,
                        texts_of(queue@),
                        head as int,
                    );
                }
            } else {
                proof {
                    traversal_skips::<Id, G>(graph, anchors, seen, queued, counted, text);
                    expanded_grows::<Id, G>(graph, seen, visited@, queued, queued, head as int);
                }
            }
            index = index + 1;
        }
        proof {
            walk_moves_on::<Id, G>(
                graph,
                anchors,
                texts_of(queue@),
                head as nat,
                index as nat,
                visited@,
                counted,
            );
            assert forall|k: int, i: int|
                0 <= k < head + 1 && 0 <= i < graph.child_texts(
                    texts_of(queue@)[k],
                ).len() implies visited@.contains(
                #[trigger] graph.child_texts(texts_of(queue@)[k])[i],
            ) by {
                if k == head {
                    assert(visited@.contains(texts_of(children@)[i]));
                }
            }
        }
        head = head + 1;
    }
    proof {
        traversal_complete::<Id, G>(graph, anchors, visited@, texts_of(queue@), counted);
        assert(walk_runs::<Id, G>(
            graph,
            texts_of(queue@),
            head as nat,
            0,
            visited@,
            counted,
            Ok(counted),
            0,
        ));
    }
    Ok(accumulator)
}

proof fn difference_shrinks(events: Set<Seq<char>>, seen: Set<Seq<char>>, text: Seq<char>)
    requires
        events.finite(),
        events.contains(text),
        !seen.contains(text),
    ensures
        events.difference(seen.insert(text)).len() < events.difference(seen).len(),
{
    let a = events.difference(seen);
    let b = events.difference(seen.insert(text));
    assert(b =~= a.remove(text));
    assert(a.contains(text));
}

/// Counting a new known event keeps the traversal in order.
proof fn traversal_grows<Id: EventId, G: ForwardGraph<Id>>(
    graph: &G,
    anchors: Seq<Seq<char>>,
    visited: Set<Seq<char>>,
    queue: Seq<Seq<char>>,
    counted: Seq<Seq<char>>,
    text: Seq<char>,
)
    requires
        traversal::<Id, G>(graph, anchors, visited, queue, counted),
        !visited.contains(text),
        in_frame::<Id, G>(graph, anchors, text),
        graph.hash_of(text) is Ok,
    ensures
        traversal::<Id, G>(
            graph,
            anchors,
            visited.insert(text),
            queue.push(text),
            counted.push(text),
        ),
{
    let v = visited.insert(text);
    let q = queue.push(text);
    let c = counted.push(text);
    assert forall|i: int| 0 <= i < q.len() implies v.contains(#[trigger] q[i]) && reached::<Id, G>(
        graph,
        anchors,
        q[i],
    ) by {
        if i < queue.len() {
            assert(q[i] == queue[i]);
        }
    }
    assert forall|id: Seq<char>| #[trigger] v.contains(id) && graph.known(id) implies q.contains(
        id,
    ) by {
        if id == text {
            assert(q[queue.len() as int] == id);
        } else {
            assert(visited.contains(id));
            let k = choose|k: int| 0 <= k < queue.len() && queue[k] == id;
            assert(q[k] == id);
        }
    }
    assert forall|i: int| 0 <= i < c.len() implies v.contains(#[trigger] c[i]) && in_frame::<Id, G>(
        graph,
        anchors,
        c[i],
    ) && graph.hash_of(c[i]) is Ok by {
        if i < counted.len() {
            assert(c[i] == counted[i]);
        }
    }
    assert(c.no_duplicates()) by {
        assert forall|a: int, b: int| 0 <= a < c.len() && 0 <= b < c.len() && a != b implies c[a]
            != c[b] by {
            if a < counted.len() {
                assert(visited.contains(counted[a]));
            }
            if b < counted.len() {
                assert(visited.contains(counted[b]));
            }
        }
    }
    assert forall|id: Seq<char>| #[trigger] v.contains(id) && graph.known(id)
        && !known_anchor::<Id, G>(graph, anchors, id) implies c.contains(id) by {
        if id == text {
            assert(c[counted.len() as int] == id);
        } else {
            assert(visited.contains(id));
            let k = choose|k: int| 0 <= k < counted.len() && counted[k] == id;
            assert(c[k] == id);
        }
    }
}

/// Seeing an unknown or already seen event keeps the traversal in order.
proof fn traversal_skips<Id: EventId, G: ForwardGraph<Id>>(
    graph: &G,
    anchors: Seq<Seq<char>>,
    visited: Set<Seq<char>>,
    queue: Seq<Seq<char>>,
    counted: Seq<Seq<char>>,
    text: Seq<char>,
)
    requires
        traversal::<Id, G>(graph, anchors, visited, queue, counted),
        visited.contains(text) || !graph.known(text),
    ensures
        traversal::<Id, G>(graph, anchors, visited.insert(text), queue, counted),
{
    let v = visited.insert(text);
    assert forall|id: Seq<char>| #[trigger] v.contains(id) && graph.known(
        id,
    ) implies queue.contains(id) by {
        assert(visited.contains(id));
    }
    assert forall|id: Seq<char>| #[trigger] v.contains(id) && graph.known(id)
        && !known_anchor::<Id, G>(graph, anchors, id) implies counted.contains(id) by {
        assert(visited.contains(id));
    }
}

proof fn expanded_grows<Id: EventId, G: ForwardGraph<Id>>(
    graph: &G,
    visited: Set<Seq<char>>,
    more: Set<Seq<char>>,
    queue: Seq<Seq<char>>,
    longer: Seq<Seq<char>>,
    n: int,
)
    requires
        expanded::<Id, G>(graph, visited, queue, n),
        visited.subset_of(more),
        queue.is_prefix_of(longer),
        n <= queue.len(),
    ensures
        expanded::<Id, G>(graph, more, longer, n),
{
    assert forall|k: int, i: int|
        0 <= k < n && 0 <= i < graph.child_texts(longer[k]).len() implies more.contains(
        #[trigger] graph.child_texts(longer[k])[i],
    ) by {
        assert(longer[k] == queue[k]);
        assert(visited.contains(graph.child_texts(queue[k])[i]));
    }
}

} // verus!
