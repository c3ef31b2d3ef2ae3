//! Which events a frame holds, edge by edge, and what its digest adds up.

use vstd::prelude::*;
use super::algebraic::{wide_sum, AlgebraicError, ElementHash, RoomAccumulator};
use super::frame::{
    accumulated, breadth_first, frame_events, frame_outcome, frame_path, in_frame, known_anchors,
    reached, walk_runs, EventId, ForwardGraph,
};

verus! {

/// The event is one of the anchors, and known.
pub open spec fn anchored<Id: EventId, G: ForwardGraph<Id>>(
    graph: &G,
    anchors: Seq<Seq<char>>,
    id: Seq<char>,
) -> bool {
    graph.known(id) && anchors.contains(id)
}

proof fn reached_child<Id: EventId, G: ForwardGraph<Id>>(
    graph: &G,
    anchors: Seq<Seq<char>>,
    parent: Seq<char>,
    id: Seq<char>,
)
    requires
        reached::<Id, G>(graph, anchors, parent),
        graph.child_texts(parent).contains(id),
        graph.known(id),
    ensures
        reached::<Id, G>(graph, anchors, id),
{
    let path = choose|path: Seq<Seq<char>>| #[trigger]
        frame_path::<Id, G>(graph, anchors, path) && path.last() == parent;
    let longer = path.push(id);
    assert forall|i: int| 0 <= i < longer.len() implies graph.known(#[trigger] longer[i]) by {
        if i < path.len() {
            assert(graph.known(path[i]));
        }
    }
    assert forall|i: int| 0 <= i < longer.len() - 1 implies graph.child_texts(
        #[trigger] longer[i],
    ).contains(longer[i + 1]) by {
        if i < path.len() - 1 {
            assert(graph.child_texts(path[i]).contains(path[i + 1]));
        }
    }
    assert(frame_path::<Id, G>(graph, anchors, longer));
    assert(longer.last() == id);
}

proof fn reached_from<Id: EventId, G: ForwardGraph<Id>>(
    graph: &G,
    anchors: Seq<Seq<char>>,
    path: Seq<Seq<char>>,
)
    requires
        frame_path::<Id, G>(graph, anchors, path),
        path.len() > 1,
    ensures
        frame_path::<Id, G>(graph, anchors, path.drop_last()),
        graph.child_texts(path.drop_last().last()).contains(path.last()),
        graph.known(path.last()),
{
    let shorter = path.drop_last();
    assert forall|i: int| 0 <= i < shorter.len() implies graph.known(#[trigger] shorter[i]) by {
        assert(graph.known(path[i]));
    }
    assert forall|i: int| 0 <= i < shorter.len() - 1 implies graph.child_texts(
        #[trigger] shorter[i],
    ).contains(shorter[i + 1]) by {
        assert(graph.child_texts(path[i]).contains(path[i + 1]));
    }
    assert(graph.child_texts(path[path.len() - 2]).contains(path[path.len() - 1]));
    assert(graph.known(path[path.len() - 1]));
}

/// An event belongs to the frame exactly where it is known, no anchor, and a child of a
/// known anchor or of an event of the frame.
pub proof fn frame_by_edges<Id: EventId, G: ForwardGraph<Id>>(
    graph: &G,
    anchors: Seq<Seq<char>>,
    id: Seq<char>,
)
    ensures
        in_frame::<Id, G>(graph, anchors, id) <==> graph.known(id) && !anchors.contains(id)
            && exists|parent: Seq<char>| #[trigger]
            graph.child_texts(parent).contains(id) && (anchored::<Id, G>(graph, anchors, parent)
                || in_frame::<Id, G>(graph, anchors, parent)),
{
    if in_frame::<Id, G>(graph, anchors, id) {
        let path = choose|path: Seq<Seq<char>>| #[trigger]
            frame_path::<Id, G>(graph, anchors, path) && path.last() == id;
        assert(graph.known(path[path.len() - 1]));
        if path.len() == 1 {
            assert(anchors.contains(path[0]));
        } else {
            reached_from::<Id, G>(graph, anchors, path);
            let parent = path.drop_last().last();
            assert(reached::<Id, G>(graph, anchors, parent));
            assert(graph.child_texts(parent).contains(id));
        }
    }
    if graph.known(id) && !anchors.contains(id) && exists|parent: Seq<char>| #[trigger]
        graph.child_texts(parent).contains(id) && (anchored::<Id, G>(graph, anchors, parent)
            || in_frame::<Id, G>(graph, anchors, parent)) {
        let parent = choose|parent: Seq<char>| #[trigger]
            graph.child_texts(parent).contains(id) && (anchored::<Id, G>(graph, anchors, parent)
                || in_frame::<Id, G>(graph, anchors, parent));
        if anchored::<Id, G>(graph, anchors, parent) {
            let path = seq![parent];
            assert(frame_path::<Id, G>(graph, anchors, path));
            assert(path.last() == parent);
        }
        reached_child::<Id, G>(graph, anchors, parent, id);
    }
}

/// A frame holds no event without need: every set that holds the known children of the
/// known anchors and of its own events, anchors aside, holds the whole frame.
pub proof fn frame_is_least<Id: EventId, G: ForwardGraph<Id>>(
    graph: &G,
    anchors: Seq<Seq<char>>,
    set: Set<Seq<char>>,
    id: Seq<char>,
)
    requires
        forall|parent: Seq<char>, child: Seq<char>| #[trigger]
            graph.child_texts(parent).contains(child) && (anchored::<Id, G>(
                graph,
                anchors,
                parent,
            ) || set.contains(parent)) && graph.known(child) && !anchors.contains(child)
                ==> set.contains(child),
        in_frame::<Id, G>(graph, anchors, id),
    ensures
        set.contains(id),
{
    let path = choose|path: Seq<Seq<char>>| #[trigger]
        frame_path::<Id, G>(graph, anchors, path) && path.last() == id;
    path_is_held::<Id, G>(graph, anchors, set, path);
    assert(graph.known(path[path.len() - 1]));
}

proof fn path_is_held<Id: EventId, G: ForwardGraph<Id>>(
    graph: &G,
    anchors: Seq<Seq<char>>,
    set: Set<Seq<char>>,
    path: Seq<Seq<char>>,
)
    requires
        forall|parent: Seq<char>, child: Seq<char>| #[trigger]
            graph.child_texts(parent).contains(child) && (anchored::<Id, G>(
                graph,
                anchors,
                parent,
            ) || set.contains(parent)) && graph.known(child) && !anchors.contains(child)
                ==> set.contains(child),
        frame_path::<Id, G>(graph, anchors, path),
    ensures
        anchored::<Id, G>(graph, anchors, path.last()) || set.contains(path.last()),
    decreases path.len(),
{
    assert(graph.known(path[path.len() - 1]));
    if path.len() > 1 {
        reached_from::<Id, G>(graph, anchors, path);
        path_is_held::<Id, G>(graph, anchors, set, path.drop_last());
        assert(graph.child_texts(path.drop_last().last()).contains(path.last()));
    } else {
        assert(anchors.contains(path[0]));
    }
}

/// The element hashes of events.
pub open spec fn hashes_of<Id: EventId, G: ForwardGraph<Id>>(
    graph: &G,
    events: Seq<Seq<char>>,
) -> Seq<ElementHash> {
    Seq::new(events.len(), |i: int| graph.hash_of(events[i])->Ok_0)
}

proof fn accumulated_sums<Id: EventId, G: ForwardGraph<Id>>(graph: &G, events: Seq<Seq<char>>)
    ensures
        accumulated::<Id, G>(graph, events).digest == wide_sum(
            hashes_of::<Id, G>(graph, events),
            events.len(),
        ),
        events.len() <= u64::MAX ==> accumulated::<Id, G>(graph, events).count == events.len(),
    decreases events.len(),
{
    if events.len() > 0 {
        let before = events.drop_last();
        accumulated_sums::<Id, G>(graph, before);
        same_sum(
            hashes_of::<Id, G>(graph, before),
            hashes_of::<Id, G>(graph, events),
            before.len(),
        );
    }
}

proof fn same_sum(a: Seq<ElementHash>, b: Seq<ElementHash>, n: nat)
    requires
        forall|i: int| 0 <= i < n ==> #[trigger] a[i] == b[i],
    ensures
        wide_sum(a, n) == wide_sum(b, n),
    decreases n,
{
    if n > 0 {
        same_sum(a, b, (n - 1) as nat);
        assert(a[n - 1] == b[n - 1]);
    }
}

/// The digest of a frame is the sum of the wide hashes of its events, each once, with
/// their number; an error is that of one of them.
pub proof fn digest_by_events<Id: EventId, G: ForwardGraph<Id>>(
    graph: &G,
    anchors: Seq<Seq<char>>,
    result: Result<RoomAccumulator, AlgebraicError>,
)
    requires
        frame_outcome::<Id, G>(graph, anchors, result),
    ensures
        match result {
            Ok(digest) => exists|events: Seq<Seq<char>>|
                {
                    &&& events.no_duplicates()
                    &&& forall|id: Seq<char>| #[trigger]
                        events.contains(id) <==> in_frame::<Id, G>(graph, anchors, id)
                    &&& forall|i: int|
                        0 <= i < events.len() ==> graph.hash_of(#[trigger] events[i]) is Ok
                    &&& digest.digest == wide_sum(
                        #[trigger] hashes_of::<Id, G>(graph, events),
                        events.len(),
                    )
                    &&& events.len() <= u64::MAX ==> digest.count == events.len()
                },
            Err(error) => exists|id: Seq<char>| #[trigger]
                in_frame::<Id, G>(graph, anchors, id) && graph.hash_of(id) == Err::<
                    ElementHash,
                    AlgebraicError,
                >(error),
        },
{
    if let Ok(digest) = result {
        let events = choose|events: Seq<Seq<char>>| #[trigger]
            frame_events::<Id, G>(graph, anchors, events) && digest == accumulated::<Id, G>(
                graph,
                events,
            ) && forall|i: int|
                0 <= i < events.len() ==> graph.hash_of(#[trigger] events[i]) is Ok;
        accumulated_sums::<Id, G>(graph, events);
        assert(hashes_of::<Id, G>(graph, events).len() == events.len());
    }
}

/// The events of a queue stand in the order of a walk by levels: behind the first ones each
/// has a parent before it, which is the first to have it as a child, and the parents of
/// later ones do not come earlier.
pub open spec fn by_levels<Id: EventId, G: ForwardGraph<Id>>(
    graph: &G,
    first: Seq<Seq<char>>,
    events: Seq<Seq<char>>,
    parents: Seq<int>,
) -> bool {
    let queue = first + events;
    &&& parents.len() == events.len()
    &&& forall|i: int|
        0 <= i < events.len() ==> 0 <= #[trigger] parents[i] < first.len() + i
            && graph.child_texts(queue[parents[i]]).contains(events[i])
    &&& forall|i: int, k: int|
        0 <= i < events.len() && 0 <= k < parents[i] ==> !(#[trigger] graph.child_texts(
            queue[k],
        )).contains(#[trigger] events[i])
    &&& forall|i: int, j: int|
        0 <= i < j < events.len() ==> #[trigger] parents[i] <= #[trigger] parents[j]
}

/// The child is unknown, or stands in the queue.
pub open spec fn met<Id: EventId, G: ForwardGraph<Id>>(
    graph: &G,
    queue: Seq<Seq<char>>,
    child: Seq<char>,
) -> bool {
    graph.known(child) ==> queue.contains(child)
}

/// The children of the events before a place, and the first ones of the event there, have
/// been met.
pub open spec fn met_upto<Id: EventId, G: ForwardGraph<Id>>(
    graph: &G,
    queue: Seq<Seq<char>>,
    head: int,
    n: int,
) -> bool {
    forall|k: int, j: int|
        0 <= k < queue.len() && 0 <= j < graph.child_texts(queue[k]).len() && (k < head || k == head
            && j < n) ==> met::<Id, G>(graph, queue, #[trigger] graph.child_texts(queue[k])[j])
}

/// A walk by levels ends with all events behind the first ones, or with the error of the
/// first event that has one: what comes before it has been met and has none.
pub open spec fn level_walk_ends<Id: EventId, G: ForwardGraph<Id>>(
    graph: &G,
    first: Seq<Seq<char>>,
    end: Result<Seq<Seq<char>>, AlgebraicError>,
) -> bool {
    match end {
        Ok(events) => exists|parents: Seq<int>| #[trigger]
            by_levels::<Id, G>(graph, first, events, parents) && met_upto::<Id, G>(
                graph,
                first + events,
                (first + events).len() as int,
                0,
            ),
        Err(error) => exists|events: Seq<Seq<char>>, parents: Seq<int>, head: int, n: int|
            #![trigger by_levels::<Id, G>(graph, first, events, parents), met_upto::<Id, G>(graph, first + events, head, n)]
            {
                let queue = first + events;
                &&& by_levels::<Id, G>(graph, first, events, parents)
                &&& met_upto::<Id, G>(graph, queue, head, n)
                &&& forall|i: int|
                    0 <= i < events.len() ==> graph.hash_of(#[trigger] events[i]) is Ok
                &&& 0 <= head < queue.len()
                &&& 0 <= n < graph.child_texts(queue[head]).len()
                &&& !queue.contains(graph.child_texts(queue[head])[n])
                &&& graph.hash_of(graph.child_texts(queue[head])[n]) == Err::<
                    ElementHash,
                    AlgebraicError,
                >(error)
            },
    }
}

proof fn walk_goes_by_levels<Id: EventId, G: ForwardGraph<Id>>(
    graph: &G,
    first: Seq<Seq<char>>,
    events: Seq<Seq<char>>,
    parents: Seq<int>,
    head: nat,
    n: nat,
    visited: Set<Seq<char>>,
    end: Result<Seq<Seq<char>>, AlgebraicError>,
    steps: nat,
)
    requires
        walk_runs::<Id, G>(graph, first + events, head, n, visited, events, end, steps),
        by_levels::<Id, G>(graph, first, events, parents),
        met_upto::<Id, G>(graph, first + events, head as int, n as int),
        forall|i: int| 0 <= i < events.len() ==> graph.hash_of(#[trigger] events[i]) is Ok,
        forall|i: int| 0 <= i < events.len() ==> #[trigger] parents[i] <= head,
        forall|id: Seq<char>| #[trigger]
            visited.contains(id) && graph.known(id) ==> (first + events).contains(id),
        forall|id: Seq<char>| #[trigger] (first + events).contains(id) ==> visited.contains(id),
        head <= (first + events).len(),
        head < (first + events).len() ==> n <= graph.child_texts(
            (first + events)[head as int],
        ).len(),
        head == (first + events).len() ==> n == 0,
    ensures
        level_walk_ends::<Id, G>(graph, first, end),
    decreases steps,
{
    let queue = first + events;
    if head >= queue.len() {
        assert(met_upto::<Id, G>(graph, first + events, (first + events).len() as int, 0));
        assert(by_levels::<Id, G>(graph, first, events, parents));
        assert(end == Ok::<Seq<Seq<char>>, AlgebraicError>(events));
        if let Ok(listed) = end {
            assert(listed == events);
            assert(by_levels::<Id, G>(graph, first, listed, parents));
            assert(met_upto::<Id, G>(graph, first + listed, (first + listed).len() as int, 0));
        }
    } else {
        let left = (steps - 1) as nat;
        let children = graph.child_texts(queue[head as int]);
        let child = children[n as int];
        if n >= children.len() {
            assert forall|k: int, j: int|
                0 <= k < queue.len() && 0 <= j < graph.child_texts(queue[k]).len() && (k < head + 1
                    || k == head + 1 && j < 0) implies met::<Id, G>(
                graph,
                queue,
                #[trigger] graph.child_texts(queue[k])[j],
            ) by {}
            walk_goes_by_levels::<Id, G>(
                graph,
                first,
                events,
                parents,
                head + 1,
                0,
                visited,
                end,
                left,
            );
        } else if visited.contains(child) || !graph.known(child) {
            assert(met::<Id, G>(graph, queue, child));
            assert forall|k: int, j: int|
                0 <= k < queue.len() && 0 <= j < graph.child_texts(queue[k]).len() && (k < head || k
                    == head && j < n + 1) implies met::<Id, G>(
                graph,
                queue,
                #[trigger] graph.child_texts(queue[k])[j],
            ) by {
                if k == head && j == n {
                    assert(graph.child_texts(queue[k])[j] == child);
                }
            }
            walk_goes_by_levels::<Id, G>(
                graph,
                first,
                events,
                parents,
                head,
                n + 1,
                visited.insert(child),
                end,
                left,
            );
        } else {
            assert(!queue.contains(child));
            match graph.hash_of(child) {
                Err(error) => {
                    assert(end == Err::<Seq<Seq<char>>, AlgebraicError>(error));
                    assert(by_levels::<Id, G>(graph, first, events, parents));
                    assert(met_upto::<Id, G>(graph, first + events, head as int, n as int));
                    assert(graph.hash_of(graph.child_texts((first + events)[head as int])[n as int])
                        == Err::<ElementHash, AlgebraicError>(error));
                    assert(level_walk_ends::<Id, G>(graph, first, end));
                },
                Ok(_) => {
                    let more = events.push(child);
                    let longer = first + more;
                    let roots = parents.push(head as int);
                    assert(longer =~= queue.push(child));
                    assert(children.contains(child));
                    levels_grow::<Id, G>(graph, first, events, parents, head as int, n as int);
                    assert forall|id: Seq<char>| #[trigger] longer.contains(id) <==> queue.contains(
                        id,
                    ) || id == child by {
                        if queue.contains(id) {
                            let i = queue.index_of(id);
                            assert(longer[i] == id);
                        }
                        assert(longer[queue.len() as int] == child);
                    }
                    assert forall|k: int, j: int|
                        0 <= k < longer.len() && 0 <= j < graph.child_texts(longer[k]).len() && (k
                            < head || k == head && j < n + 1) implies met::<Id, G>(
                        graph,
                        longer,
                        #[trigger] graph.child_texts(longer[k])[j],
                    ) by {
                        assert(longer[k] == queue[k]);
                        let other = graph.child_texts(queue[k])[j];
                        if k == head && j == n {
                            assert(other == child);
                        } else {
                            assert(met::<Id, G>(graph, queue, other));
                        }
                    }
                    walk_goes_by_levels::<Id, G>(
                        graph,
                        first,
                        more,
                        roots,
                        head,
                        n + 1,
                        visited.insert(child),
                        end,
                        left,
                    );
                },
            }
        }
    }
}

proof fn levels_grow<Id: EventId, G: ForwardGraph<Id>>(
    graph: &G,
    first: Seq<Seq<char>>,
    events: Seq<Seq<char>>,
    parents: Seq<int>,
    head: int,
    n: int,
)
    requires
        by_levels::<Id, G>(graph, first, events, parents),
        met_upto::<Id, G>(graph, first + events, head, n),
        0 <= head < (first + events).len(),
        0 <= n < graph.child_texts((first + events)[head]).len(),
        forall|i: int| 0 <= i < events.len() ==> #[trigger] parents[i] <= head,
        graph.known(graph.child_texts((first + events)[head])[n]),
        !(first + events).contains(graph.child_texts((first + events)[head])[n]),
    ensures
        ({
            let child = graph.child_texts((first + events)[head])[n];
            by_levels::<Id, G>(graph, first, events.push(child), parents.push(head))
        }),
{
    let queue = first + events;
    let child = graph.child_texts(queue[head])[n];
    let more = events.push(child);
    let longer = first + more;
    let roots = parents.push(head);
    assert forall|i: int| 0 <= i < more.len() implies 0 <= #[trigger] roots[i] < first.len() + i
        && graph.child_texts(longer[roots[i]]).contains(more[i]) by {
        if i < events.len() {
            assert(roots[i] == parents[i]);
            assert(longer[roots[i]] == queue[parents[i]]);
        } else {
            assert(longer[head] == queue[head]);
        }
    }
    assert forall|i: int, k: int| 0 <= i < more.len() && 0 <= k < roots[i] implies !(
    #[trigger] graph.child_texts(longer[k])).contains(#[trigger] more[i]) by {
        assert(longer[k] == queue[k]);
        if i < events.len() {
            assert(more[i] == events[i]);
            assert(!graph.child_texts(queue[k]).contains(events[i]));
        } else if graph.child_texts(queue[k]).contains(child) {
            let j = graph.child_texts(queue[k]).index_of(child);
            assert(met::<Id, G>(graph, queue, graph.child_texts(queue[k])[j]));
        }
    }
    assert forall|i: int, j: int| 0 <= i < j < more.len() implies #[trigger] roots[i]
        <= #[trigger] roots[j] by {
        assert(roots[i] == parents[i]);
        if j < events.len() {
            assert(roots[j] == parents[j]);
        }
    }
}

proof fn anchors_kept<Id: EventId, G: ForwardGraph<Id>>(
    graph: &G,
    anchors: Seq<Seq<char>>,
    id: Seq<char>,
)
    ensures
        known_anchors::<Id, G>(graph, anchors).contains(id) <==> anchors.contains(id)
            && graph.known(id),
    decreases anchors.len(),
{
    reveal(Seq::filter);
    let kept = known_anchors::<Id, G>(graph, anchors);
    if anchors.len() > 0 {
        let rest = anchors.drop_last();
        let before = known_anchors::<Id, G>(graph, rest);
        anchors_kept::<Id, G>(graph, rest, id);
        if graph.known(anchors.last()) {
            assert(kept == before.push(anchors.last()));
            assert(kept[before.len() as int] == anchors.last());
        } else {
            assert(kept == before);
        }
        if before.contains(id) {
            let i = before.index_of(id);
            assert(kept[i] == id);
        }
        if rest.contains(id) {
            let i = rest.index_of(id);
            assert(anchors[i] == id);
        }
        if anchors.contains(id) {
            let i = anchors.index_of(id);
            if i < rest.len() {
                assert(rest[i] == id);
            }
        }
    }
}

/// A walk from the known anchors goes by levels.
pub proof fn frame_goes_by_levels<Id: EventId, G: ForwardGraph<Id>>(
    graph: &G,
    anchors: Seq<Seq<char>>,
    end: Result<Seq<Seq<char>>, AlgebraicError>,
)
    requires
        breadth_first::<Id, G>(graph, anchors, end),
    ensures
        exists|first: Seq<Seq<char>>|
            {
                &&& forall|id: Seq<char>| #[trigger]
                    first.contains(id) <==> anchors.contains(id) && graph.known(id)
                &&& #[trigger] level_walk_ends::<Id, G>(graph, first, end)
            },
{
    let first = known_anchors::<Id, G>(graph, anchors);
    let steps = choose|steps: nat| #[trigger]
        walk_runs::<Id, G>(graph, first, 0, 0, first.to_set(), Seq::empty(), end, steps);
    let events = Seq::<Seq<char>>::empty();
    assert(first + events =~= first);
    assert forall|id: Seq<char>| #[trigger] first.contains(id) <==> anchors.contains(id)
        && graph.known(id) by {
        anchors_kept::<Id, G>(graph, anchors, id);
    }
    walk_goes_by_levels::<Id, G>(
        graph,
        first,
        events,
        Seq::empty(),
        0,
        0,
        first.to_set(),
        end,
        steps,
    );
}

} // verus!
