//! Reachability and connectivity over numbered nodes.

use vstd::prelude::*;

verus! {

/// The successors of each node are nodes.
pub open spec fn graph_wf(successors: Seq<Vec<usize>>) -> bool {
    forall|i: int, j: int|
        0 <= i < successors.len() && 0 <= j < successors[i]@.len()
            ==> #[trigger] successors[i]@[j] < successors.len()
}

/// There is an edge from one node to another.
pub open spec fn edge(successors: Seq<Vec<usize>>, a: int, b: int) -> bool {
    0 <= a < successors.len() && successors[a]@.contains(b as usize) && 0 <= b
        < successors.len()
}

/// The nodes form a path along edges.
pub open spec fn is_path(successors: Seq<Vec<usize>>, path: Seq<int>) -> bool {
    &&& path.len() > 0
    &&& 0 <= path[0] < successors.len()
    &&& forall|i: int|
        0 <= i && i + 1 < path.len() ==> edge(successors, #[trigger] path[i], path[i + 1])
}

/// A path leads from one node to another, perhaps of no edge at all.
pub open spec fn leads(successors: Seq<Vec<usize>>, a: int, b: int) -> bool {
    exists|path: Seq<int>| #[trigger]
        is_path(successors, path) && path[0] == a && path.last() == b
}

/// A path that goes on over an edge.
pub proof fn leads_further(successors: Seq<Vec<usize>>, a: int, b: int, c: int)
    requires
        leads(successors, a, b),
        edge(successors, b, c),
    ensures
        leads(successors, a, c),
{
    let path = choose|path: Seq<int>| #[trigger]
        is_path(successors, path) && path[0] == a && path.last() == b;
    let longer = path.push(c);
    assert forall|i: int| 0 <= i && i + 1 < longer.len() implies edge(
        successors,
        #[trigger] longer[i],
        longer[i + 1],
    ) by {
        if i + 1 < path.len() {
            assert(edge(successors, path[i], path[i + 1]));
        }
    }
    assert(is_path(successors, longer));
}

/// A node leads to itself.
pub proof fn leads_nowhere(successors: Seq<Vec<usize>>, a: int)
    requires
        0 <= a < successors.len(),
    ensures
        leads(successors, a, a),
{
    assert(is_path(successors, seq![a]));
}

/// What has the start and every successor of what it has, has all that the start
/// leads to.
proof fn closed_has_all(successors: Seq<Vec<usize>>, marks: Seq<bool>, path: Seq<int>)
    requires
        marks.len() == successors.len(),
        is_path(successors, path),
        marks[path[0]],
        forall|a: int, b: int|
            0 <= a < marks.len() && marks[a] && #[trigger] edge(successors, a, b) ==> marks[b],
    ensures
        0 <= path.last() < successors.len(),
        marks[path.last()],
    decreases path.len(),
{
    if path.len() > 1 {
        let front = path.drop_last();
        assert forall|i: int| 0 <= i && i + 1 < front.len() implies edge(
            successors,
            #[trigger] front[i],
            front[i + 1],
        ) by {
            assert(edge(successors, path[i], path[i + 1]));
        }
        closed_has_all(successors, marks, front);
        let n = path.len() - 2;
        assert(edge(successors, path[n], path[n + 1]));
        assert(front.last() == path[n]);
        assert(edge(successors, front.last(), path.last()));
    }
}

/// How many marks are missing.
spec fn missing(marks: Seq<bool>) -> nat
    decreases marks.len(),
{
    if marks.len() == 0 {
        0
    } else {
        missing(marks.drop_last()) + if marks.last() {
            0nat
        } else {
            1
        }
    }
}

proof fn missing_less(marks: Seq<bool>, i: int)
    requires
        0 <= i < marks.len(),
        !marks[i],
    ensures
        missing(marks.update(i, true)) + 1 == missing(marks),
    decreases marks.len(),
{
    let after = marks.update(i, true);
    if i == marks.len() - 1 {
        assert(after.drop_last() =~= marks.drop_last());
    } else {
        missing_less(marks.drop_last(), i);
        assert(after.drop_last() =~= marks.drop_last().update(i, true));
        assert(after.last() == marks.last());
    }
}

/// Marks the nodes that the nodes of a list lead to, those of the list among
/// them.
#[verifier::rlimit(40)]
pub fn reach(successors: &Vec<Vec<usize>>, starts: &[usize]) -> (marks: Vec<bool>)
    requires
        graph_wf(successors@),
        forall|i: int| 0 <= i < starts@.len() ==> #[trigger] starts@[i] < successors.len(),
    ensures
        marks@.len() == successors@.len(),
        forall|b: int|
            0 <= b < marks@.len() ==> (#[trigger] marks@[b] <==> exists|i: int|
                0 <= i < starts@.len() && leads(successors@, #[trigger] starts@[i] as int, b)),
{
    let mut marks: Vec<bool> = Vec::new();
    while marks.len() < successors.len()
        invariant
            marks@.len() <= successors@.len(),
            forall|i: int| 0 <= i < marks@.len() ==> !marks@[i],
        decreases successors.len() - marks.len(),
    {
        marks.push(false);
    }
    let mut stack: Vec<usize> = Vec::new();
    let mut index: usize = 0;
    while index < starts.len()
        invariant
            index <= starts.len(),
            stack@ =~= starts@.take(index as int),
        decreases starts.len() - index,
    {
        stack.push(starts[index]);
        index = index + 1;
    }
    proof {
        assert(stack@ =~= starts@);
        assert forall|k: int| 0 <= k < stack@.len() implies #[trigger] started(
            successors@,
            starts@,
            stack@[k] as int,
        ) by {
            leads_nowhere(successors@, starts@[k] as int);
        }
    }
    while stack.len() > 0
        invariant
            graph_wf(successors@),
            marks@.len() == successors@.len(),
            forall|i: int| 0 <= i < starts@.len() ==> #[trigger] starts@[i] < successors.len(),
            forall|k: int|
                0 <= k < stack@.len() ==> #[trigger] started(
                    successors@,
                    starts@,
                    stack@[k] as int,
                ),
            forall|k: int| 0 <= k < stack@.len() ==> #[trigger] stack@[k] < successors@.len(),
            forall|b: int|
                0 <= b < marks@.len() && #[trigger] marks@[b] ==> started(
                    successors@,
                    starts@,
                    b,
                ),
            forall|a: int, b: int|
                0 <= a < marks@.len() && marks@[a] && #[trigger] edge(successors@, a, b)
                    ==> marks@[b] || stack@.contains(b as usize),
            forall|i: int|
                0 <= i < starts@.len() ==> marks@[#[trigger] starts@[i] as int]
                    || stack@.contains(starts@[i]),
        decreases missing(marks@), stack.len(),
    {
        let ghost before = stack@;
        match stack.pop() {
            Some(node) => {
                proof {
                    assert(before[before.len() - 1] == node);
                    assert(started(
                        successors@,
                        starts@,
                        before[before.len() - 1] as int,
                    ));
                    assert forall|x: usize| before.contains(x) && x
                        != node implies #[trigger] stack@.contains(x) by {
                        let k = choose|k: int| 0 <= k < before.len() && before[k] == x;
                        assert(stack@[k] == x);
                    }
                }
                if !marks[node] {
                    proof {
                        missing_less(marks@, node as int);
                    }
                    let ghost old_marks = marks@;
                    marks.set(node, true);
                    let next: &Vec<usize> = &successors[node];
                    let ghost base = stack@;
                    let mut place: usize = 0;
                    while place < next.len()
                        invariant
                            graph_wf(successors@),
                            0 <= node < successors@.len(),
                            *next == successors@[node as int],
                            place <= next.len(),
                            marks@ == old_marks.update(node as int, true),
                            started(successors@, starts@, node as int),
                            stack@ == base + next@.take(place as int),
                            forall|k: int|
                                0 <= k < stack@.len() ==> #[trigger] started(
                                    successors@,
                                    starts@,
                                    stack@[k] as int,
                                ),
                            forall|k: int|
                                0 <= k < stack@.len() ==> #[trigger] stack@[k] < successors@.len(),
                        decreases next.len() - place,
                    {
                        proof {
                            let target = next@[place as int];
                            assert(successors@[node as int]@[place as int] == target);
                            assert(successors@[node as int]@.contains(target));
                            assert(edge(successors@, node as int, target as int));
                            started_further(
                                successors@,
                                starts@,
                                node as int,
                                target as int,
                            );
                            assert(next@.take(place + 1) =~= next@.take(place as int).push(
                                target,
                            ));
                        }
                        stack.push(next[place]);
                        place = place + 1;
                    }
                    proof {
                        assert(next@.take(place as int) =~= next@);
                        assert forall|x: usize| base.contains(x) implies #[trigger] stack@.contains(
                            x,
                        ) by {
                            let k = choose|k: int| 0 <= k < base.len() && base[k] == x;
                            assert(stack@[k] == x);
                        }
                        assert forall|x: usize| next@.contains(x) implies #[trigger] stack@.contains(
                            x,
                        ) by {
                            let k = choose|k: int| 0 <= k < next@.len() && next@[k] == x;
                            assert(stack@[base.len() + k] == x);
                        }
                        assert forall|a: int, b: int|
                            0 <= a < marks@.len() && marks@[a] && #[trigger] edge(
                                successors@,
                                a,
                                b,
                            ) implies marks@[b] || stack@.contains(b as usize) by {
                            if a != node {
                                assert(old_marks[a]);
                                assert(old_marks[b] || before.contains(b as usize));
                                if !old_marks[b] && b != node {
                                    assert(base.contains(b as usize));
                                    assert(stack@.contains(b as usize));
                                }
                            } else {
                                assert(next@.contains(b as usize));
                                assert(stack@.contains(b as usize));
                            }
                        }
                        assert forall|i: int| 0 <= i < starts@.len() implies marks@[
                        #[trigger] starts@[i] as int] || stack@.contains(starts@[i]) by {
                            assert(old_marks[starts@[i] as int] || before.contains(starts@[i]));
                            if !old_marks[starts@[i] as int] && starts@[i] != node {
                                assert(base.contains(starts@[i]));
                                assert(stack@.contains(starts@[i]));
                            }
                        }
                    }
                } else {
                    proof {
                        assert forall|a: int, b: int|
                            0 <= a < marks@.len() && marks@[a] && #[trigger] edge(
                                successors@,
                                a,
                                b,
                            ) implies marks@[b] || stack@.contains(b as usize) by {
                            assert(marks@[b] || before.contains(b as usize));
                            if !marks@[b] && b != node {
                                assert(stack@.contains(b as usize));
                            }
                        }
                        assert forall|i: int| 0 <= i < starts@.len() implies marks@[
                        #[trigger] starts@[i] as int] || stack@.contains(starts@[i]) by {
                            assert(marks@[starts@[i] as int] || before.contains(starts@[i]));
                        }
                    }
                }
            },
            None => {},
        }
    }
    proof {
        assert forall|b: int| 0 <= b < marks@.len() implies (#[trigger] marks@[b]
            <==> started(successors@, starts@, b)) by {
            if started(successors@, starts@, b) {
                let i = choose|i: int|
                    0 <= i < starts@.len() && leads(successors@, #[trigger] starts@[i] as int, b);
                let path = choose|path: Seq<int>| #[trigger]
                    is_path(successors@, path) && path[0] == starts@[i] && path.last() == b;
                assert(marks@[starts@[i] as int]);
                assert forall|x: int, y: int|
                    0 <= x < marks@.len() && marks@[x] && #[trigger] edge(
                        successors@,
                        x,
                        y,
                    ) implies marks@[y] by {}
                closed_has_all(successors@, marks@, path);
            }
        }
    }
    marks
}

/// Some start leads to the node.
pub open spec fn started(successors: Seq<Vec<usize>>, starts: Seq<usize>, b: int) -> bool {
    exists|i: int| 0 <= i < starts.len() && leads(successors, #[trigger] starts[i] as int, b)
}

proof fn started_further(successors: Seq<Vec<usize>>, starts: Seq<usize>, b: int, c: int)
    requires
        started(successors, starts, b),
        edge(successors, b, c),
    ensures
        started(successors, starts, c),
{
    let i = choose|i: int|
        0 <= i < starts.len() && leads(successors, #[trigger] starts[i] as int, b);
    leads_further(successors, starts[i] as int, b, c);
}

/// An edge joins two nodes, one way or the other.
pub open spec fn touch(successors: Seq<Vec<usize>>, a: int, b: int) -> bool {
    edge(successors, a, b) || edge(successors, b, a)
}

/// The nodes form a chain along edges in either direction.
pub open spec fn is_chain(successors: Seq<Vec<usize>>, chain: Seq<int>) -> bool {
    &&& chain.len() > 0
    &&& 0 <= chain[0] < successors.len()
    &&& forall|i: int|
        0 <= i && i + 1 < chain.len() ==> touch(successors, #[trigger] chain[i], chain[i + 1])
}

/// Edges in either direction connect two nodes.
pub open spec fn connected(successors: Seq<Vec<usize>>, a: int, b: int) -> bool {
    exists|chain: Seq<int>| #[trigger]
        is_chain(successors, chain) && chain[0] == a && chain.last() == b
}

/// A node is connected to itself.
pub proof fn connected_reflexive(successors: Seq<Vec<usize>>, a: int)
    requires
        0 <= a < successors.len(),
    ensures
        connected(successors, a, a),
{
    assert(is_chain(successors, seq![a]));
}

/// A chain stays within the nodes.
proof fn chain_inside(successors: Seq<Vec<usize>>, chain: Seq<int>, i: int)
    requires
        is_chain(successors, chain),
        0 <= i < chain.len(),
    ensures
        0 <= chain[i] < successors.len(),
{
    if i > 0 {
        assert(touch(successors, chain[i - 1], chain[i - 1 + 1]));
    }
}

/// Being connected goes both ways.
pub proof fn connected_symmetric(successors: Seq<Vec<usize>>, a: int, b: int)
    requires
        connected(successors, a, b),
    ensures
        connected(successors, b, a),
{
    let chain = choose|chain: Seq<int>| #[trigger]
        is_chain(successors, chain) && chain[0] == a && chain.last() == b;
    let back = Seq::new(chain.len(), |i: int| chain[chain.len() - 1 - i]);
    chain_inside(successors, chain, chain.len() - 1);
    assert forall|i: int| 0 <= i && i + 1 < back.len() implies touch(
        successors,
        #[trigger] back[i],
        back[i + 1],
    ) by {
        let j = chain.len() - 2 - i;
        assert(touch(successors, chain[j], chain[j + 1]));
    }
    assert(is_chain(successors, back));
}

/// Being connected carries over.
pub proof fn connected_transitive(successors: Seq<Vec<usize>>, a: int, b: int, c: int)
    requires
        connected(successors, a, b),
        connected(successors, b, c),
    ensures
        connected(successors, a, c),
{
    let first = choose|chain: Seq<int>| #[trigger]
        is_chain(successors, chain) && chain[0] == a && chain.last() == b;
    let second = choose|chain: Seq<int>| #[trigger]
        is_chain(successors, chain) && chain[0] == b && chain.last() == c;
    let all = first + second.drop_first();
    assert forall|i: int| 0 <= i && i + 1 < all.len() implies touch(
        successors,
        #[trigger] all[i],
        all[i + 1],
    ) by {
        if i + 1 < first.len() {
            assert(touch(successors, first[i], first[i + 1]));
        } else {
            let j = i - (first.len() - 1);
            assert(touch(successors, second[j], second[j + 1]));
        }
    }
    assert(is_chain(successors, all));
    if second.len() > 1 {
        assert(all.last() == c);
    }
}

/// Two nodes with an edge between them are connected.
proof fn touch_connects(successors: Seq<Vec<usize>>, a: int, b: int)
    requires
        touch(successors, a, b),
    ensures
        connected(successors, a, b),
{
    let chain = seq![a, b];
    assert(is_chain(successors, chain));
}

/// A labelling that agrees across every edge agrees along every chain.
proof fn label_along(successors: Seq<Vec<usize>>, root: Seq<int>, chain: Seq<int>)
    requires
        is_chain(successors, chain),
        forall|a: int, b: int| #[trigger] edge(successors, a, b) ==> root[a] == root[b],
    ensures
        root[chain[0]] == root[chain.last()],
    decreases chain.len(),
{
    if chain.len() > 1 {
        let front = chain.drop_last();
        assert forall|i: int| 0 <= i && i + 1 < front.len() implies touch(
            successors,
            #[trigger] front[i],
            front[i + 1],
        ) by {
            assert(touch(successors, chain[i], chain[i + 1]));
        }
        label_along(successors, root, front);
        let n = chain.len() - 2;
        assert(touch(successors, chain[n], chain[n + 1]));
        assert(front.last() == chain[n]);
        assert(chain.last() == chain[n + 1]);
        if edge(successors, chain[n], chain[n + 1]) {
        } else {
            assert(edge(successors, chain[n + 1], chain[n]));
        }
    }
}

/// The parents form a forest with the given roots: every step to a parent comes
/// closer to the root.
spec fn forest(parent: Seq<usize>, root: Seq<int>, distance: Seq<nat>) -> bool {
    &&& root.len() == parent.len()
    &&& distance.len() == parent.len()
    &&& forall|x: int|
        0 <= x < parent.len() ==> {
            &&& (#[trigger] parent[x]) < parent.len()
            &&& 0 <= root[x] < parent.len()
            &&& root[parent[x] as int] == root[x]
            &&& root[root[x]] == root[x]
            &&& parent[x] == x <==> root[x] == x
            &&& parent[x] != x ==> distance[parent[x] as int] < distance[x]
        }
}

/// The root of a node, with the path to it halved.
fn find_root(
    parent: &mut Vec<usize>,
    start: usize,
    Ghost(root): Ghost<Seq<int>>,
    Ghost(distance): Ghost<Seq<nat>>,
) -> (found: usize)
    requires
        forest(old(parent)@, root, distance),
        start < old(parent)@.len(),
    ensures
        forest(final(parent)@, root, distance),
        final(parent)@.len() == old(parent)@.len(),
        found == root[start as int],
{
    let mut node: usize = start;
    while parent[node] != node
        invariant
            forest(parent@, root, distance),
            parent@.len() == old(parent)@.len(),
            node < parent@.len(),
            root[node as int] == root[start as int],
        decreases distance[node as int],
    {
        let ghost before = parent@;
        let above: usize = parent[node];
        let next: usize = parent[above];
        proof {
            assert(before[node as int] == above);
            assert(before[above as int] == next);
        }
        parent.set(node, next);
        proof {
            assert forall|x: int| 0 <= x < parent@.len() implies {
                &&& (#[trigger] parent@[x]) < parent@.len()
                &&& 0 <= root[x] < parent@.len()
                &&& root[parent@[x] as int] == root[x]
                &&& root[root[x]] == root[x]
                &&& parent@[x] == x <==> root[x] == x
                &&& parent@[x] != x ==> distance[parent@[x] as int] < distance[x]
            } by {
                assert(before[x] < parent@.len());
            }
        }
        node = next;
    }
    proof {
        assert(parent@[node as int] == node);
    }
    node
}

/// Labels the nodes so that two have the same label exactly where edges in
/// either direction connect them. The label is one of the nodes.
#[verifier::rlimit(60)]
pub fn components(successors: &Vec<Vec<usize>>) -> (labels: Vec<usize>)
    requires
        graph_wf(successors@),
    ensures
        labels@.len() == successors@.len(),
        forall|a: int| 0 <= a < labels@.len() ==> #[trigger] labels@[a] < labels@.len(),
        forall|a: int, b: int|
            0 <= a < labels@.len() && 0 <= b < labels@.len() ==> ((#[trigger] labels@[a])
                == (#[trigger] labels@[b]) <==> connected(successors@, a, b)),
{
    let ghost n = successors@.len();
    let mut parent: Vec<usize> = Vec::new();
    while parent.len() < successors.len()
        invariant
            n == successors@.len(),
            parent@.len() <= n,
            forall|i: int| 0 <= i < parent@.len() ==> #[trigger] parent@[i] == i,
        decreases successors.len() - parent.len(),
    {
        let next: usize = parent.len();
        parent.push(next);
    }
    let ghost mut root: Seq<int> = Seq::new(n, |x: int| x);
    let ghost mut distance: Seq<nat> = Seq::new(n, |x: int| 0nat);
    proof {
        assert forall|a: int, b: int|
            0 <= a < n && 0 <= b < n && #[trigger] root[a] == #[trigger] root[b] implies connected(
            successors@,
            a,
            b,
        ) by {
            connected_reflexive(successors@, a);
        }
    }
    let mut node: usize = 0;
    while node < successors.len()
        invariant
            graph_wf(successors@),
            n == successors@.len(),
            node <= successors.len(),
            parent@.len() == n,
            forest(parent@, root, distance),
            forall|a: int, b: int|
                0 <= a < n && 0 <= b < n && #[trigger] root[a] == #[trigger] root[b] ==> connected(
                    successors@,
                    a,
                    b,
                ),
            forall|a: int, j: int|
                0 <= a < node && 0 <= j < successors@[a]@.len() ==> root[a]
                    == root[#[trigger] successors@[a]@[j] as int],
        decreases successors.len() - node,
    {
        let next: &Vec<usize> = &successors[node];
        let mut place: usize = 0;
        while place < next.len()
            invariant
                graph_wf(successors@),
                n == successors@.len(),
                node < successors.len(),
                *next == successors@[node as int],
                place <= next.len(),
                parent@.len() == n,
                forest(parent@, root, distance),
                forall|a: int, b: int|
                    0 <= a < n && 0 <= b < n && #[trigger] root[a] == #[trigger] root[b]
                        ==> connected(successors@, a, b),
                forall|a: int, j: int|
                    0 <= a < node && 0 <= j < successors@[a]@.len() ==> root[a]
                        == root[#[trigger] successors@[a]@[j] as int],
                forall|j: int|
                    0 <= j < place ==> root[node as int] == root[#[trigger] next@[j] as int],
            decreases next.len() - place,
        {
            let target: usize = next[place];
            proof {
                assert(successors@[node as int]@[place as int] < successors@.len());
                assert(successors@[node as int]@.contains(target));
                assert(edge(successors@, node as int, target as int));
                touch_connects(successors@, node as int, target as int);
            }
            let root_u: usize = find_root(&mut parent, node, Ghost(root), Ghost(distance));
            let root_v: usize = find_root(&mut parent, target, Ghost(root), Ghost(distance));
            if root_u != root_v {
                let ghost old_parent = parent@;
                let ghost old_root = root;
                let ghost old_distance = distance;
                proof {
                    assert(old_parent[node as int] < n);
                    assert(old_parent[target as int] < n);
                }
                parent.set(root_u, root_v);
                proof {
                    let ru = root_u as int;
                    let rv = root_v as int;
                    root = Seq::new(
                        n,
                        |x: int|
                            if old_root[x] == ru {
                                rv
                            } else {
                                old_root[x]
                            },
                    );
                    distance = Seq::new(
                        n,
                        |x: int|
                            if old_root[x] == ru {
                                old_distance[x] + old_distance[rv] + 1
                            } else {
                                old_distance[x]
                            },
                    );
                    assert forall|x: int| 0 <= x < parent@.len() implies {
                        &&& (#[trigger] parent@[x]) < parent@.len()
                        &&& 0 <= root[x] < parent@.len()
                        &&& root[parent@[x] as int] == root[x]
                        &&& root[root[x]] == root[x]
                        &&& parent@[x] == x <==> root[x] == x
                        &&& parent@[x] != x ==> distance[parent@[x] as int] < distance[x]
                    } by {
                        assert(old_parent[x] < n);
                        assert(old_parent[ru] < n && old_parent[rv] < n);
                    }
                    assert forall|a: int, b: int|
                        0 <= a < n && 0 <= b < n && #[trigger] root[a]
                            == #[trigger] root[b] implies connected(successors@, a, b) by {
                        if old_root[a] != old_root[b] {
                            let u = node as int;
                            let v = target as int;
                            if old_root[a] == ru {
                                assert(old_root[b] == rv);
                                assert(connected(successors@, a, u));
                                assert(connected(successors@, v, b));
                                connected_transitive(successors@, a, u, v);
                                connected_transitive(successors@, a, v, b);
                            } else {
                                assert(old_root[b] == ru && old_root[a] == rv);
                                connected_symmetric(successors@, u, v);
                                assert(connected(successors@, a, v));
                                assert(connected(successors@, u, b));
                                connected_transitive(successors@, a, v, u);
                                connected_transitive(successors@, a, u, b);
                            }
                        }
                    }
                    assert forall|a: int, j: int|
                        0 <= a < node && 0 <= j < successors@[a]@.len() implies root[a]
                        == root[#[trigger] successors@[a]@[j] as int] by {
                        assert(old_root[a] == old_root[successors@[a]@[j] as int]);
                        assert(successors@[a]@[j] < successors@.len());
                    }
                    assert forall|j: int| 0 <= j < place + 1 implies root[node as int]
                        == root[#[trigger] next@[j] as int] by {
                        assert(successors@[node as int]@[j] < successors@.len());
                        if j < place {
                            assert(old_root[node as int] == old_root[next@[j] as int]);
                        }
                    }
                }
            }
            place = place + 1;
        }
        node = node + 1;
    }
    let mut labels: Vec<usize> = Vec::new();
    while labels.len() < successors.len()
        invariant
            n == successors@.len(),
            labels@.len() <= n,
            parent@.len() == n,
            forest(parent@, root, distance),
            forall|a: int| 0 <= a < labels@.len() ==> #[trigger] labels@[a] == root[a],
        decreases successors.len() - labels.len(),
    {
        let at: usize = labels.len();
        let label: usize = find_root(&mut parent, at, Ghost(root), Ghost(distance));
        labels.push(label);
    }
    proof {
        assert forall|a: int, b: int| #[trigger] edge(successors@, a, b) implies root[a]
            == root[b] by {
            let j = choose|j: int|
                0 <= j < successors@[a]@.len() && successors@[a]@[j] == b as usize;
            assert(root[a] == root[successors@[a]@[j] as int]);
        }
        assert forall|a: int| 0 <= a < labels@.len() implies #[trigger] labels@[a]
            < labels@.len() by {
            assert(parent@[a] < n);
        }
        assert forall|a: int, b: int|
            0 <= a < labels@.len() && 0 <= b < labels@.len() implies ((#[trigger] labels@[a])
            == (#[trigger] labels@[b]) <==> connected(successors@, a, b)) by {
            if connected(successors@, a, b) {
                let chain = choose|chain: Seq<int>| #[trigger]
                    is_chain(successors@, chain) && chain[0] == a && chain.last() == b;
                label_along(successors@, root, chain);
            }
            assert(labels@[a] == root[a] && labels@[b] == root[b]);
        }
    }
    labels
}

} // verus!
