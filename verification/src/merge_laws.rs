//! What a merge keeps, counts and shares, id by id.

use vstd::prelude::*;
use crate::collections::key_position;
use crate::graph::{edge, is_path, leads, leads_further, leads_nowhere};
use crate::merge::{
    comes_before, connectivity, counts_upto, deepest_shared, depth_views, descends, first_seen,
    has_id, id_at, is_counted, is_place, kept_depth, merged, overlapping, share, share_graph,
    shared_by, shared_depths, shared_id, DisjointInputs, Merge,
};

verus! {

/// The event at the place of the input has the id, and such events count: those
/// without an id do so only where that is asked for.
pub open spec fn holds(
    inputs: Seq<Vec<String>>,
    unnamed: bool,
    input: int,
    place: int,
    id: Seq<char>,
) -> bool {
    &&& 0 <= input < inputs.len()
    &&& 0 <= place < inputs[input]@.len()
    &&& inputs[input]@[place]@ == id
    &&& unnamed || id.len() > 0
}

/// The event at the place of the input is kept.
pub open spec fn is_kept(merge: Merge, input: int, place: int) -> bool {
    exists|k: int|
        0 <= k < merge.kept@.len() && (#[trigger] merge.kept@[k]).0 == input && merge.kept@[k].1
            == place
}

/// How many of the numbers below a bound are of a kind.
pub open spec fn tally(kind: spec_fn(int) -> bool, n: nat) -> nat
    decreases n,
{
    if n == 0 {
        0
    } else {
        tally(kind, (n - 1) as nat) + if kind(n - 1) {
            1nat
        } else {
            0
        }
    }
}

proof fn first_place(inputs: Seq<Vec<String>>, unnamed: bool, at: (int, int)) -> (first: (int, int))
    requires
        is_place(inputs, at),
        is_counted(id_at(inputs, at.0, at.1), unnamed),
    ensures
        first_seen(inputs, unnamed, first),
        id_at(inputs, first.0, first.1) == id_at(inputs, at.0, at.1),
        first == at || comes_before(first, at),
    decreases at.0, at.1,
{
    if first_seen(inputs, unnamed, at) {
        at
    } else {
        let b = choose|b: (int, int)| #[trigger]
            is_place(inputs, b) && comes_before(b, at) && id_at(inputs, b.0, b.1) == id_at(
                inputs,
                at.0,
                at.1,
            );
        first_place(inputs, unnamed, b)
    }
}

/// Of every event that counts, the first with its id is kept.
pub proof fn first_is_kept(
    inputs: Seq<Vec<String>>,
    unnamed: bool,
    merge: Merge,
    input: int,
    place: int,
    id: Seq<char>,
)
    requires
        merged(inputs, unnamed, merge),
        holds(inputs, unnamed, input, place, id),
    ensures
        exists|k: int|
            0 <= k < merge.kept@.len() && holds(
                inputs,
                unnamed,
                (#[trigger] merge.kept@[k]).0 as int,
                merge.kept@[k].1 as int,
                id,
            ) && (merge.kept@[k].0 < input || merge.kept@[k].0 == input && merge.kept@[k].1
                <= place),
{
    let first = first_place(inputs, unnamed, (input, place));
    assert(first_seen(inputs, unnamed, first));
    let k = choose|k: int|
        0 <= k < merge.kept@.len() && (#[trigger] merge.kept@[k]).0 == first.0 && merge.kept@[k].1
            == first.1;
    assert(holds(inputs, unnamed, merge.kept@[k].0 as int, merge.kept@[k].1 as int, id));
}

/// What is kept are events of the inputs, in their order, no two with the same id.
pub proof fn kept_once(inputs: Seq<Vec<String>>, unnamed: bool, merge: Merge, k: int, l: int)
    requires
        merged(inputs, unnamed, merge),
        0 <= k < l < merge.kept@.len(),
    ensures
        ({
            let (a, b) = (merge.kept@[k], merge.kept@[l]);
            let id = inputs[a.0 as int]@[a.1 as int]@;
            let other = inputs[b.0 as int]@[b.1 as int]@;
            &&& holds(inputs, unnamed, a.0 as int, a.1 as int, id)
            &&& holds(inputs, unnamed, b.0 as int, b.1 as int, other)
            &&& id != other
            &&& a.0 < b.0 || a.0 == b.0 && a.1 < b.1
        }),
{
    let a = (merge.kept@[k].0 as int, merge.kept@[k].1 as int);
    let b = (merge.kept@[l].0 as int, merge.kept@[l].1 as int);
    assert(first_seen(inputs, unnamed, a));
    assert(first_seen(inputs, unnamed, b));
    assert(comes_before(a, b));
    assert(is_place(inputs, a));
}

/// An input's new events are those that are kept of it, and the seen ones are the
/// others that count.
pub proof fn counts_by_place(inputs: Seq<Vec<String>>, unnamed: bool, merge: Merge, i: int)
    requires
        merged(inputs, unnamed, merge),
        0 <= i < inputs.len(),
    ensures
        merge.counts@.len() == inputs.len(),
        merge.counts@[i].added == tally(|j: int| is_kept(merge, i, j), inputs[i]@.len()),
        merge.counts@[i].dupes == tally(
            |j: int| holds(inputs, unnamed, i, j, inputs[i]@[j]@) && !is_kept(merge, i, j),
            inputs[i]@.len(),
        ),
{
    counts_tally(inputs, unnamed, merge, i, inputs[i]@.len());
    assert(merge.counts@[i].added as nat == counts_upto(inputs, unnamed, i, inputs[i]@.len()).0);
}

proof fn counts_tally(inputs: Seq<Vec<String>>, unnamed: bool, merge: Merge, i: int, n: nat)
    requires
        merged(inputs, unnamed, merge),
        0 <= i < inputs.len(),
        n <= inputs[i]@.len(),
    ensures
        counts_upto(inputs, unnamed, i, n).0 == tally(|j: int| is_kept(merge, i, j), n),
        counts_upto(inputs, unnamed, i, n).1 == tally(
            |j: int| holds(inputs, unnamed, i, j, inputs[i]@[j]@) && !is_kept(merge, i, j),
            n,
        ),
    decreases n,
{
    if n > 0 {
        counts_tally(inputs, unnamed, merge, i, (n - 1) as nat);
        let j = n - 1;
        let at = (i, j);
        if first_seen(inputs, unnamed, at) {
            let k = choose|k: int|
                0 <= k < merge.kept@.len() && (#[trigger] merge.kept@[k]).0 == at.0
                    && merge.kept@[k].1 == at.1;
            assert(merge.kept@[k].0 == i);
            assert(is_kept(merge, i, j));
        }
        if is_kept(merge, i, j) {
            let k = choose|k: int|
                0 <= k < merge.kept@.len() && (#[trigger] merge.kept@[k]).0 == i
                    && merge.kept@[k].1 == j;
            assert(first_seen(inputs, unnamed, (merge.kept@[k].0 as int, merge.kept@[k].1 as int)));
        }
    }
}

/// The shared ids are those that count and that two of the inputs have.
pub proof fn shared_by_inputs(
    inputs: Seq<Vec<String>>,
    unnamed: bool,
    merge: Merge,
    id: Seq<char>,
)
    requires
        merged(inputs, unnamed, merge),
    ensures
        merge.shared.view().contains(id) <==> exists|a: int, x: int, b: int, y: int|
            a != b && #[trigger] holds(inputs, unnamed, a, x, id) && #[trigger] holds(
                inputs,
                unnamed,
                b,
                y,
                id,
            ),
{
    if merge.shared.view().contains(id) {
        assert(shared_id(inputs, unnamed, id));
        let (a, b) = choose|a: int, b: int|
            0 <= a < b < inputs.len() && #[trigger] shared_by(inputs, id, a, b);
        let x = choose|x: int| 0 <= x < inputs[a]@.len() && (#[trigger] inputs[a]@[x])@ == id;
        let y = choose|y: int| 0 <= y < inputs[b]@.len() && (#[trigger] inputs[b]@[y])@ == id;
        assert(holds(inputs, unnamed, a, x, id));
        assert(holds(inputs, unnamed, b, y, id));
    }
    if exists|a: int, x: int, b: int, y: int|
        a != b && #[trigger] holds(inputs, unnamed, a, x, id) && #[trigger] holds(
            inputs,
            unnamed,
            b,
            y,
            id,
        ) {
        let (a, x, b, y) = choose|a: int, x: int, b: int, y: int|
            a != b && #[trigger] holds(inputs, unnamed, a, x, id) && #[trigger] holds(
                inputs,
                unnamed,
                b,
                y,
                id,
            );
        assert(inputs[a]@[x]@ == id);
        assert(inputs[b]@[y]@ == id);
        assert(has_id(inputs, a, id) && has_id(inputs, b, id));
        if a < b {
            assert(shared_by(inputs, id, a, b));
        } else {
            assert(shared_by(inputs, id, b, a));
        }
    }
}

/// The two inputs have an event with the same id that counts.
pub open spec fn meet(inputs: Seq<Vec<String>>, unnamed: bool, a: int, b: int) -> bool {
    exists|id: Seq<char>, x: int, y: int| #[trigger]
        holds(inputs, unnamed, a, x, id) && #[trigger] holds(inputs, unnamed, b, y, id)
}

/// The inputs of the set share events with no other input.
pub open spec fn secluded(inputs: Seq<Vec<String>>, unnamed: bool, set: Set<int>) -> bool {
    forall|a: int, b: int|
        set.contains(a) && #[trigger] meet(inputs, unnamed, a, b) ==> set.contains(b)
}

/// Every set of inputs that holds the first one and shares events with no other
/// input holds the input too.
pub open spec fn tied(inputs: Seq<Vec<String>>, unnamed: bool, b: int) -> bool {
    forall|set: Set<int>| #[trigger]
        secluded(inputs, unnamed, set) && set.contains(0) ==> set.contains(b)
}

proof fn share_is_meet(inputs: Seq<Vec<String>>, unnamed: bool, a: int, b: int)
    requires
        0 <= a < inputs.len(),
        0 <= b < inputs.len(),
    ensures
        share(inputs, unnamed, a, b) <==> meet(inputs, unnamed, a, b),
{
    if share(inputs, unnamed, a, b) {
        let id = choose|id: Seq<char>|
            is_counted(id, unnamed) && #[trigger] has_id(inputs, a, id) && has_id(inputs, b, id);
        let x = choose|x: int| 0 <= x < inputs[a]@.len() && (#[trigger] inputs[a]@[x])@ == id;
        let y = choose|y: int| 0 <= y < inputs[b]@.len() && (#[trigger] inputs[b]@[y])@ == id;
        assert(holds(inputs, unnamed, a, x, id));
        assert(holds(inputs, unnamed, b, y, id));
    }
    if meet(inputs, unnamed, a, b) {
        let (id, x, y) = choose|id: Seq<char>, x: int, y: int| #[trigger]
            holds(inputs, unnamed, a, x, id) && #[trigger] holds(inputs, unnamed, b, y, id);
        assert(inputs[a]@[x]@ == id);
        assert(inputs[b]@[y]@ == id);
        assert(has_id(inputs, a, id) && has_id(inputs, b, id));
    }
}

proof fn path_stays(
    inputs: Seq<Vec<String>>,
    unnamed: bool,
    successors: Seq<Vec<usize>>,
    set: Set<int>,
    path: Seq<int>,
)
    requires
        share_graph(inputs, unnamed, successors),
        secluded(inputs, unnamed, set),
        is_path(successors, path),
        set.contains(path[0]),
    ensures
        set.contains(path.last()),
    decreases path.len(),
{
    if path.len() > 1 {
        let n = path.len() - 2;
        let before = path.drop_last();
        assert forall|i: int| 0 <= i && i + 1 < before.len() implies edge(
            successors,
            #[trigger] before[i],
            before[i + 1],
        ) by {
            assert(edge(successors, path[i], path[i + 1]));
        }
        path_stays(inputs, unnamed, successors, set, before);
        assert(edge(successors, path[n], path[n + 1]));
        share_is_meet(inputs, unnamed, path[n], path[n + 1]);
    }
}

proof fn tied_is_led(
    inputs: Seq<Vec<String>>,
    unnamed: bool,
    successors: Seq<Vec<usize>>,
    b: int,
)
    requires
        share_graph(inputs, unnamed, successors),
        inputs.len() > 0,
    ensures
        tied(inputs, unnamed, b) <==> leads(successors, 0, b),
{
    if leads(successors, 0, b) {
        let path = choose|path: Seq<int>| #[trigger]
            is_path(successors, path) && path[0] == 0 && path.last() == b;
        assert forall|set: Set<int>| #[trigger]
            secluded(inputs, unnamed, set) && set.contains(0) implies set.contains(b) by {
            path_stays(inputs, unnamed, successors, set, path);
        }
    }
    if tied(inputs, unnamed, b) {
        let set = Set::new(|c: int| leads(successors, 0, c));
        assert forall|c: int, d: int|
            set.contains(c) && #[trigger] meet(inputs, unnamed, c, d) implies set.contains(d) by {
            let (id, x, y) = choose|id: Seq<char>, x: int, y: int| #[trigger]
                holds(inputs, unnamed, c, x, id) && #[trigger] holds(inputs, unnamed, d, y, id);
            assert(holds(inputs, unnamed, c, x, id) && holds(inputs, unnamed, d, y, id));
            share_is_meet(inputs, unnamed, c, d);
            assert(edge(successors, c, d));
            leads_further(successors, 0, c, d);
        }
        leads_nowhere(successors, 0);
        assert(secluded(inputs, unnamed, set));
    }
}

/// A merge goes on exactly where shared events tie every input to the first one. Else
/// the first input that is not tied to it is named.
pub proof fn disjoint_by_ids(
    inputs: Seq<Vec<String>>,
    unnamed: bool,
    result: Result<(), DisjointInputs>,
)
    requires
        connectivity(inputs, unnamed, result),
    ensures
        inputs.len() < 2 ==> result is Ok,
        inputs.len() >= 2 ==> match result {
            Ok(_) => forall|b: int| 0 <= b < inputs.len() ==> #[trigger] tied(inputs, unnamed, b),
            Err(error) => {
                &&& 0 < error.index < inputs.len()
                &&& !tied(inputs, unnamed, error.index as int)
                &&& forall|b: int| 0 <= b < error.index ==> #[trigger] tied(inputs, unnamed, b)
            },
        },
{
    if inputs.len() >= 2 {
        let successors = choose|successors: Seq<Vec<usize>>| #[trigger]
            share_graph(inputs, unnamed, successors) && match result {
                Ok(_) => forall|b: int|
                    0 <= b < inputs.len() ==> #[trigger] leads(successors, 0, b),
                Err(error) => {
                    &&& error.index < inputs.len()
                    &&& !leads(successors, 0, error.index as int)
                    &&& forall|b: int| 0 <= b < error.index ==> #[trigger] leads(successors, 0, b)
                },
            };
        leads_nowhere(successors, 0);
        assert forall|b: int| #[trigger] tied(inputs, unnamed, b) <==> leads(successors, 0, b) by {
            tied_is_led(inputs, unnamed, successors, b);
        }
        if result is Ok {
            assert forall|b: int| 0 <= b < inputs.len() implies #[trigger] tied(
                inputs,
                unnamed,
                b,
            ) by {
                assert(leads(successors, 0, b));
            }
        }
    }
}

/// The event that is kept for the shared id states the depth.
pub open spec fn lies_at(
    inputs: Seq<Vec<String>>,
    depths: Seq<Vec<Option<u64>>>,
    merge: Merge,
    id: Seq<char>,
    depth: u64,
) -> bool {
    &&& merge.shared.view().contains(id)
    &&& exists|k: int|
        0 <= k < merge.kept@.len() && inputs[(#[trigger] merge.kept@[k]).0
            as int]@[merge.kept@[k].1 as int]@ == id && depths[merge.kept@[k].0
            as int]@[merge.kept@[k].1 as int] == Some(depth)
}

proof fn kept_depth_is(
    inputs: Seq<Vec<String>>,
    unnamed: bool,
    depths: Seq<Vec<Option<u64>>>,
    merge: Merge,
    id: Seq<char>,
    n: nat,
    depth: u64,
)
    requires
        merged(inputs, unnamed, merge),
        n <= merge.kept@.len(),
    ensures
        kept_depth(inputs, depths, merge.kept@, id, n) == Some(depth) <==> exists|k: int|
            0 <= k < n && inputs[(#[trigger] merge.kept@[k]).0 as int]@[merge.kept@[k].1
                as int]@ == id && depths[merge.kept@[k].0 as int]@[merge.kept@[k].1 as int]
                == Some(depth),
    decreases n,
{
    if n > 0 {
        let at = merge.kept@[n - 1];
        if id_at(inputs, at.0 as int, at.1 as int) == id {
            assert forall|k: int|
                0 <= k < n - 1 implies inputs[(#[trigger] merge.kept@[k]).0
                as int]@[merge.kept@[k].1 as int]@ != id by {
                kept_once(inputs, unnamed, merge, k, n - 1);
            }
        } else {
            kept_depth_is(inputs, unnamed, depths, merge, id, (n - 1) as nat, depth);
        }
    }
}

proof fn depths_listed(
    inputs: Seq<Vec<String>>,
    unnamed: bool,
    depths: Seq<Vec<Option<u64>>>,
    merge: Merge,
    n: nat,
)
    requires
        merged(inputs, unnamed, merge),
        n <= merge.shared.map.entries@.len(),
    ensures
        ({
            let list = shared_depths(inputs, depths, merge, n);
            let entries = merge.shared.map.entries@;
            &&& forall|j: int|
                0 <= j < list.len() ==> lies_at(
                    inputs,
                    depths,
                    merge,
                    (#[trigger] list[j]).0,
                    list[j].1,
                ) && exists|i: int| 0 <= i < n && #[trigger] entries[i].0@ == list[j].0
            &&& forall|i: int, depth: u64|
                0 <= i < n && #[trigger] lies_at(inputs, depths, merge, entries[i].0@, depth)
                    ==> list.contains((entries[i].0@, depth))
            &&& list.no_duplicates()
        }),
    decreases n,
{
    if n > 0 {
        depths_listed(inputs, unnamed, depths, merge, (n - 1) as nat);
        let entries = merge.shared.map.entries@;
        let id = entries[n - 1].0@;
        let before = shared_depths(inputs, depths, merge, (n - 1) as nat);
        let list = shared_depths(inputs, depths, merge, n);
        merge.shared.map.entry_facts(n - 1);
        assert(merge.shared.view().contains(id));
        let kept = merge.kept@.len();
        if let Some(depth) = kept_depth(inputs, depths, merge.kept@, id, kept) {
            kept_depth_is(inputs, unnamed, depths, merge, id, kept, depth);
            assert(lies_at(inputs, depths, merge, id, depth));
        }
        assert forall|j: int| 0 <= j < before.len() implies (#[trigger] before[j]).0 != id by {
            let i = choose|i: int| 0 <= i < n - 1 && #[trigger] entries[i].0@ == before[j].0;
            if before[j].0 == id {
                merge.shared.map.entry_facts(i);
            }
        }
        assert forall|j: int| 0 <= j < list.len() implies exists|i: int|
            0 <= i < n && #[trigger] entries[i].0@ == (#[trigger] list[j]).0 by {
            if j < before.len() {
                let i = choose|i: int| 0 <= i < n - 1 && #[trigger] entries[i].0@ == before[j].0;
                assert(entries[i].0@ == list[j].0);
            } else {
                assert(entries[n - 1].0@ == list[j].0);
            }
        }
        assert forall|i: int, depth: u64|
            0 <= i < n && #[trigger] lies_at(
                inputs,
                depths,
                merge,
                entries[i].0@,
                depth,
            ) implies list.contains((entries[i].0@, depth)) by {
            if i == n - 1 {
                kept_depth_is(inputs, unnamed, depths, merge, id, kept, depth);
                assert(list[before.len() as int] == (id, depth));
            } else {
                assert(before.contains((entries[i].0@, depth)));
                let j = before.index_of((entries[i].0@, depth));
                assert(list[j] == (entries[i].0@, depth));
            }
        }
    }
}

/// The deepest shared events are listed from the deepest down, each once, with the
/// depth of the event that is kept. At most five are listed, and no shared event that
/// is left out is deeper than one that is listed; none is left out of fewer.
pub proof fn deepest_by_ids(
    inputs: Seq<Vec<String>>,
    unnamed: bool,
    depths: Seq<Vec<Option<u64>>>,
    merge: Merge,
    highest: Seq<(String, u64)>,
)
    requires
        merged(inputs, unnamed, merge),
        deepest_shared(inputs, depths, merge, highest),
    ensures
        highest.len() <= 5,
        forall|i: int, j: int|
            0 <= i < j < highest.len() ==> (#[trigger] highest[i]).1 >= (#[trigger] highest[j]).1,
        forall|i: int, j: int|
            0 <= i < j < highest.len() ==> (#[trigger] highest[i]).0@ != (#[trigger] highest[j]).0@,
        forall|j: int|
            0 <= j < highest.len() ==> lies_at(
                inputs,
                depths,
                merge,
                (#[trigger] highest[j]).0@,
                highest[j].1,
            ),
        forall|id: Seq<char>, depth: u64| #[trigger]
            lies_at(inputs, depths, merge, id, depth) ==> (exists|j: int|
                0 <= j < highest.len() && (#[trigger] highest[j]).0@ == id && highest[j].1
                    == depth) || (highest.len() == 5 && forall|j: int|
                0 <= j < highest.len() ==> (#[trigger] highest[j]).1 >= depth),
{
    let entries = merge.shared.map.entries@;
    let list = shared_depths(inputs, depths, merge, entries.len());
    depths_listed(inputs, unnamed, depths, merge, entries.len());
    let all = choose|all: Seq<(Seq<char>, u64)>| #[trigger]
        descends(all) && all.to_multiset() == list.to_multiset() && depth_views(highest)
            == all.take(
            if all.len() < 5 {
                all.len() as int
            } else {
                5
            },
        );
    let views = depth_views(highest);
    let end: int = if all.len() < 5 {
        all.len() as int
    } else {
        5
    };
    list.lemma_multiset_has_no_duplicates();
    all.lemma_multiset_has_no_duplicates_conv();
    broadcast use vstd::seq_lib::group_to_multiset_ensures;

    assert forall|x: (Seq<char>, u64)| #[trigger] all.contains(x) <==> list.contains(x) by {
        assert(all.to_multiset().count(x) == list.to_multiset().count(x));
    }
    assert(views.len() == highest.len());
    assert(views == all.take(end));
    assert forall|j: int| 0 <= j < highest.len() implies (#[trigger] highest[j]).0@ == all[j].0
        && highest[j].1 == all[j].1 by {
        assert(views[j] == (highest[j].0@, highest[j].1));
        assert(views[j] == all[j]);
    }
    assert forall|j: int| 0 <= j < highest.len() implies lies_at(
        inputs,
        depths,
        merge,
        (#[trigger] highest[j]).0@,
        highest[j].1,
    ) by {
        assert(all.contains(all[j]));
        let l = list.index_of(all[j]);
        assert(list[l] == all[j]);
    }
    assert forall|i: int, j: int| 0 <= i < j < highest.len() implies (#[trigger] highest[i]).0@
        != (#[trigger] highest[j]).0@ by {
        if highest[i].0@ == highest[j].0@ {
            let kept = merge.kept@.len();
            kept_depth_is(inputs, unnamed, depths, merge, highest[i].0@, kept, highest[i].1);
            kept_depth_is(inputs, unnamed, depths, merge, highest[j].0@, kept, highest[j].1);
            assert(lies_at(inputs, depths, merge, highest[i].0@, highest[i].1));
            assert(lies_at(inputs, depths, merge, highest[j].0@, highest[j].1));
            assert(all[i] == all[j]);
        }
    }
    assert forall|id: Seq<char>, depth: u64| #[trigger]
        lies_at(inputs, depths, merge, id, depth) implies (exists|j: int|
        0 <= j < highest.len() && (#[trigger] highest[j]).0@ == id && highest[j].1 == depth) || (
    highest.len() == 5 && forall|j: int|
        0 <= j < highest.len() ==> (#[trigger] highest[j]).1 >= depth) by {
        let i = key_position(entries, id);
        assert(entries[i].0@ == id);
        assert(list.contains((id, depth)));
        assert(all.contains((id, depth)));
        let place = all.index_of((id, depth));
        if place < end {
            assert(highest[place].0@ == id);
        } else {
            assert forall|j: int| 0 <= j < highest.len() implies (#[trigger] highest[j]).1
                >= depth by {
                assert(all[j].1 >= all[place].1);
            }
        }
    }
}

/// Inputs overlap where two of them have an event with the same id, an empty one too.
pub proof fn overlap_by_ids(inputs: Seq<Vec<String>>)
    ensures
        overlapping(inputs) <==> exists|a: int, b: int|
            a != b && #[trigger] meet(inputs, true, a, b),
{
    if overlapping(inputs) {
        let (a, b) = choose|a: int, b: int|
            0 <= a < b < inputs.len() && #[trigger] share(inputs, true, a, b);
        share_is_meet(inputs, true, a, b);
        assert(meet(inputs, true, a, b));
    }
    if exists|a: int, b: int| a != b && #[trigger] meet(inputs, true, a, b) {
        let (a, b) = choose|a: int, b: int| a != b && #[trigger] meet(inputs, true, a, b);
        let (id, x, y) = choose|id: Seq<char>, x: int, y: int| #[trigger]
            holds(inputs, true, a, x, id) && #[trigger] holds(inputs, true, b, y, id);
        assert(holds(inputs, true, a, x, id) && holds(inputs, true, b, y, id));
        if a < b {
            share_is_meet(inputs, true, a, b);
            assert(share(inputs, true, a, b));
        } else {
            assert(meet(inputs, true, b, a));
            share_is_meet(inputs, true, b, a);
            assert(share(inputs, true, b, a));
        }
    }
}

} // verus!
