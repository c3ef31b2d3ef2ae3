//! Merging event sets that share history.

use vstd::prelude::*;
use vstd::seq_lib::{to_multiset_build, to_multiset_insert};
use vstd::string::StringExecFns;
use crate::bytes::text_equal;
use crate::collections::{has_key, key_position, TextSet};
use crate::graph::{edge, graph_wf, leads, reach};
use crate::text::{decimal, push_decimal};

verus! {

/// How many events of an input were new, and how many had been seen before.
#[derive(Debug, Clone, Copy, PartialEq, Eq, Structural)]
pub struct MergeCounts {
    pub added: usize,
    pub dupes: usize,
}

/// What a merge keeps.
#[derive(Debug, Clone, PartialEq, Eq)]
pub struct Merge {
    /// The input and the place in it of each event that is kept.
    pub kept: Vec<(usize, usize)>,
    /// What became of the events of each input.
    pub counts: Vec<MergeCounts>,
    /// The ids that two or more inputs have.
    pub shared: TextSet,
}

/// The inputs do not share history: the input at an index has no event in common
/// with those that are connected to the first one.
#[derive(Debug, Clone, Copy, PartialEq, Eq, Structural)]
pub struct DisjointInputs {
    pub index: usize,
}

impl DisjointInputs {
    /// The error as text.
    pub fn message(&self) -> (text: String)
        ensures
            text@ == "Disjoint DAGs: input file at index "@ + decimal(self.index as nat)
                + " shares no history with the connected component. Cannot compute meaningful merge — all inputs must share history."@,
    {
        let mut text: String = String::from_str("Disjoint DAGs: input file at index ");
        push_decimal(&mut text, self.index as u64);
        text.append(
            " shares no history with the connected component. Cannot compute meaningful merge — all inputs must share history.",
        );
        text
    }
}

/// No two inputs have an event in common.
#[derive(Debug, Clone, Copy, PartialEq, Eq, Structural)]
pub struct NothingShared;

impl NothingShared {
    /// The error as text.
    pub fn message(&self) -> (text: String)
        ensures
            text@
                == "Disjoint DAGs: no shared events found across inputs. Cannot compute meaningful merge — the DAGs share no history."@,
    {
        String::from_str(
            "Disjoint DAGs: no shared events found across inputs. Cannot compute meaningful merge — the DAGs share no history.",
        )
    }
}

/// The id at a place of an input. Events without an id have an empty one.
pub open spec fn id_at(inputs: Seq<Vec<String>>, input: int, place: int) -> Seq<char> {
    inputs[input]@[place]@
}

/// Whether events with the id count: those without an id may be left out.
pub open spec fn is_counted(id: Seq<char>, unnamed: bool) -> bool {
    unnamed || id.len() > 0
}

/// A place of an input comes before another.
pub open spec fn comes_before(a: (int, int), b: (int, int)) -> bool {
    a.0 < b.0 || (a.0 == b.0 && a.1 < b.1)
}

/// The place is one of an input.
pub open spec fn is_place(inputs: Seq<Vec<String>>, at: (int, int)) -> bool {
    0 <= at.0 < inputs.len() && 0 <= at.1 < inputs[at.0]@.len()
}

/// The event at a place has an id that no event before it has.
pub open spec fn first_seen(inputs: Seq<Vec<String>>, unnamed: bool, at: (int, int)) -> bool {
    &&& is_place(inputs, at)
    &&& is_counted(id_at(inputs, at.0, at.1), unnamed)
    &&& forall|b: (int, int)| #[trigger]
        is_place(inputs, b) && comes_before(b, at) ==> id_at(inputs, b.0, b.1) != id_at(
            inputs,
            at.0,
            at.1,
        )
}

/// The input has an event with the id.
pub open spec fn has_id(inputs: Seq<Vec<String>>, input: int, id: Seq<char>) -> bool {
    exists|place: int|
        0 <= place < inputs[input]@.len() && (#[trigger] inputs[input]@[place])@ == id
}

/// Two inputs have an event in common.
pub open spec fn share(inputs: Seq<Vec<String>>, unnamed: bool, a: int, b: int) -> bool {
    exists|id: Seq<char>|
        is_counted(id, unnamed) && #[trigger] has_id(inputs, a, id) && has_id(inputs, b, id)
}

/// The graph has an edge where two inputs have an event in common.
pub open spec fn share_graph(
    inputs: Seq<Vec<String>>,
    unnamed: bool,
    successors: Seq<Vec<usize>>,
) -> bool {
    &&& successors.len() == inputs.len()
    &&& graph_wf(successors)
    &&& forall|a: int, b: int|
        0 <= a < inputs.len() && 0 <= b < inputs.len() ==> (#[trigger] edge(successors, a, b)
            <==> share(inputs, unnamed, a, b))
}

/// The ids of an input.
fn input_ids(input: &Vec<String>, unnamed: bool) -> (ids: TextSet)
    ensures
        ids.wf(),
        forall|id: Seq<char>| #[trigger]
            ids.view().contains(id) <==> is_counted(id, unnamed) && exists|place: int|
                0 <= place < input@.len() && (#[trigger] input@[place])@ == id,
{
    let mut ids: TextSet = TextSet::new();
    let mut place: usize = 0;
    while place < input.len()
        invariant
            place <= input.len(),
            ids.wf(),
            forall|id: Seq<char>| #[trigger]
                ids.view().contains(id) <==> is_counted(id, unnamed) && exists|p: int|
                    0 <= p < place && (#[trigger] input@[p])@ == id,
        decreases input.len() - place,
    {
        let ghost before = ids.view();
        if unnamed || !input[place].as_str().is_empty() {
            let _new: bool = ids.insert(String::from_str(input[place].as_str()));
        }
        proof {
            assert forall|id: Seq<char>| #[trigger]
                ids.view().contains(id) <==> is_counted(id, unnamed) && exists|p: int|
                    0 <= p < place + 1 && (#[trigger] input@[p])@ == id by {
                assert(before.contains(id) <==> is_counted(id, unnamed) && exists|p: int|
                    0 <= p < place && (#[trigger] input@[p])@ == id);
                if id == input@[place as int]@ {
                    assert(input@[place as int]@ == id);
                }
            }
        }
        place = place + 1;
    }
    ids
}

/// Whether two sets of texts have one in common.
fn intersects(a: &TextSet, b: &TextSet) -> (result: bool)
    requires
        a.wf(),
        b.wf(),
    ensures
        result == exists|id: Seq<char>| #[trigger]
            a.view().contains(id) && b.view().contains(id),
{
    let mut index: usize = 0;
    while index < a.map.entries.len()
        invariant
            a.wf(),
            b.wf(),
            index <= a.map.entries.len(),
            forall|i: int|
                0 <= i < index ==> !b.view().contains((#[trigger] a.map.entries@[i]).0@),
        decreases a.map.entries.len() - index,
    {
        proof {
            a.map.entry_facts(index as int);
        }
        if b.contains(a.map.entries[index].0.as_str()) {
            proof {
                assert(a.view().contains(a.map.entries@[index as int].0@));
            }
            return true;
        }
        index = index + 1;
    }
    proof {
        assert forall|id: Seq<char>| #[trigger] a.view().contains(id) implies !b.view().contains(
            id,
        ) by {
            let i = key_position(a.map.entries@, id);
            assert(a.map.entries@[i].0@ == id);
        }
    }
    false
}

/// Checks that every input is connected to the first one by shared events.
///
/// # Errors
/// Returns the first input that is not.
fn perform_connectivity_check(inputs: &Vec<Vec<String>>, ids: &Vec<TextSet>) -> (result: Result<
    (),
    DisjointInputs,
>)
    requires
        ids@.len() == inputs@.len(),
        forall|i: int|
            0 <= i < ids@.len() ==> (#[trigger] ids@[i]).wf() && ids_of(inputs@, false, i, ids@[i]),
    ensures
        connectivity(inputs@, false, result),
{
    let n: usize = inputs.len();
    if n < 2 {
        return Ok(());
    }
    let mut successors: Vec<Vec<usize>> = Vec::new();
    while successors.len() < n
        invariant
            n == inputs@.len(),
            ids@.len() == n,
            forall|i: int|
                0 <= i < ids@.len() ==> (#[trigger] ids@[i]).wf() && ids_of(inputs@, false, i, ids@[i]),
            successors@.len() <= n,
            forall|a: int, j: int|
                0 <= a < successors@.len() && 0 <= j < successors@[a]@.len()
                    ==> #[trigger] successors@[a]@[j] < n,
            forall|a: int, b: int|
                0 <= a < successors@.len() && 0 <= b < n ==> (
                #[trigger] successors@[a]@.contains(b as usize) <==> share(inputs@, false, a, b)),
        decreases n - successors.len(),
    {
        let at: usize = successors.len();
        let mut others: Vec<usize> = Vec::new();
        let mut next: usize = 0;
        while next < n
            invariant
                n == inputs@.len(),
                ids@.len() == n,
                at < n,
                next <= n,
                forall|i: int|
                    0 <= i < ids@.len() ==> (#[trigger] ids@[i]).wf() && ids_of(
                        inputs@, false,
                        i,
                        ids@[i],
                    ),
                forall|j: int| 0 <= j < others@.len() ==> #[trigger] others@[j] < next,
                forall|b: int|
                    0 <= b < next ==> (#[trigger] others@.contains(b as usize) <==> share(
                        inputs@, false,
                        at as int,
                        b,
                    )),
            decreases n - next,
        {
            let ghost before = others@;
            let common: bool = intersects(&ids[at], &ids[next]);
            proof {
                sharing(inputs@, false, at as int, next as int, ids@[at as int], ids@[next as int]);
            }
            if common {
                others.push(next);
            }
            proof {
                assert forall|b: int| 0 <= b < next + 1 implies (#[trigger] others@.contains(
                    b as usize,
                ) <==> share(inputs@, false, at as int, b)) by {
                    if b < next {
                        assert(before.contains(b as usize) <==> share(inputs@, false, at as int, b));
                        if before.contains(b as usize) {
                            let j = choose|j: int|
                                0 <= j < before.len() && before[j] == b as usize;
                            assert(others@[j] == b as usize);
                        }
                        if others@.contains(b as usize) {
                            let j = choose|j: int|
                                0 <= j < others@.len() && others@[j] == b as usize;
                            assert(before[j] == b as usize);
                        }
                    } else {
                        if common {
                            assert(others@[before.len() as int] == b as usize);
                        }
                        if others@.contains(b as usize) && !common {
                            let j = choose|j: int|
                                0 <= j < others@.len() && others@[j] == b as usize;
                            assert(before[j] < next);
                        }
                    }
                }
            }
            next = next + 1;
        }
        let ghost earlier = successors@;
        successors.push(others);
        proof {
            assert forall|a: int, b: int|
                0 <= a < successors@.len() && 0 <= b < n implies (
            #[trigger] successors@[a]@.contains(b as usize) <==> share(inputs@, false, a, b)) by {
                if a < earlier.len() {
                    assert(earlier[a]@.contains(b as usize) <==> share(inputs@, false, a, b));
                }
            }
        }
    }
    let mut starts: Vec<usize> = Vec::new();
    starts.push(0);
    let visited: Vec<bool> = reach(&successors, starts.as_slice());
    proof {
        assert(share_graph(inputs@, false, successors@));
        assert forall|b: int| 0 <= b < n implies (#[trigger] visited@[b] <==> leads(
            successors@,
            0,
            b,
        )) by {
            if leads(successors@, 0, b) {
                assert(leads(successors@, starts@[0] as int, b));
            }
        }
    }
    let mut index: usize = 0;
    while index < n
        invariant
            n == inputs@.len(),
            visited@.len() == n,
            2 <= n,
            index <= n,
            share_graph(inputs@, false, successors@),
            forall|b: int| 0 <= b < n ==> (#[trigger] visited@[b] <==> leads(successors@, 0, b)),
            forall|b: int| 0 <= b < index ==> #[trigger] visited@[b],
        decreases n - index,
    {
        if !visited[index] {
            proof {
                assert forall|b: int| 0 <= b < index implies #[trigger] leads(
                    successors@,
                    0,
                    b,
                ) by {
                    assert(visited@[b]);
                }
                assert(!visited@[index as int]);
                assert(!leads(successors@, 0, index as int));
            }
            return Err(DisjointInputs { index });
        }
        index = index + 1;
    }
    proof {
        assert forall|b: int| 0 <= b < n implies #[trigger] leads(successors@, 0, b) by {
            assert(visited@[b]);
        }
    }
    Ok(())
}

/// The set holds the ids of an input.
pub open spec fn ids_of(inputs: Seq<Vec<String>>, unnamed: bool, input: int, ids: TextSet) -> bool {
    forall|id: Seq<char>| #[trigger]
        ids.view().contains(id) <==> is_counted(id, unnamed) && has_id(inputs, input, id)
}

proof fn sharing(
    inputs: Seq<Vec<String>>,
    unnamed: bool,
    a: int,
    b: int,
    ids_a: TextSet,
    ids_b: TextSet,
)
    requires
        ids_of(inputs, unnamed, a, ids_a),
        ids_of(inputs, unnamed, b, ids_b),
    ensures
        share(inputs, unnamed, a, b) <==> exists|id: Seq<char>| #[trigger]
            ids_a.view().contains(id) && ids_b.view().contains(id),
{
    if share(inputs, unnamed, a, b) {
        let id = choose|id: Seq<char>|
            is_counted(id, unnamed) && #[trigger] has_id(inputs, a, id) && has_id(inputs, b, id);
        assert(ids_a.view().contains(id) && ids_b.view().contains(id));
    }
    if exists|id: Seq<char>| #[trigger] ids_a.view().contains(id) && ids_b.view().contains(id) {
        let id = choose|id: Seq<char>| #[trigger]
            ids_a.view().contains(id) && ids_b.view().contains(id);
        assert(ids_b.view().contains(id));
        assert(has_id(inputs, a, id) && has_id(inputs, b, id));
    }
}

/// Every input is connected to the first one, or the first that is not is named.
pub open spec fn connectivity(
    inputs: Seq<Vec<String>>, unnamed: bool,
    result: Result<(), DisjointInputs>,
) -> bool {
    if inputs.len() < 2 {
        result is Ok
    } else {
        exists|successors: Seq<Vec<usize>>| #[trigger]
            share_graph(inputs, unnamed, successors) && match result {
                Ok(_) => forall|b: int|
                    0 <= b < inputs.len() ==> #[trigger] leads(successors, 0, b),
                Err(error) => {
                    &&& error.index < inputs.len()
                    &&& !leads(successors, 0, error.index as int)
                    &&& forall|b: int| 0 <= b < error.index ==> #[trigger] leads(successors, 0, b)
                },
            }
    }
}

/// The place that comes next in an input, or the start of the next input.
spec fn seen_upto(inputs: Seq<Vec<String>>, end: (int, int), id: Seq<char>) -> bool {
    exists|b: (int, int)| #[trigger]
        is_place(inputs, b) && comes_before(b, end) && id_at(inputs, b.0, b.1) == id
}

/// The kept places below an end are the first ones with their ids, in order.
spec fn kept_upto(
    inputs: Seq<Vec<String>>,
    unnamed: bool,
    end: (int, int),
    kept: Seq<(usize, usize)>,
) -> bool {
    &&& forall|k: int|
        0 <= k < kept.len() ==> first_seen(
            inputs, unnamed,
            ((#[trigger] kept[k]).0 as int, kept[k].1 as int),
        ) && comes_before((kept[k].0 as int, kept[k].1 as int), end)
    &&& forall|k: int, l: int|
        0 <= k < l < kept.len() ==> comes_before(
            ((#[trigger] kept[k]).0 as int, kept[k].1 as int),
            ((#[trigger] kept[l]).0 as int, kept[l].1 as int),
        )
    &&& forall|at: (int, int)| #[trigger]
        first_seen(inputs, unnamed, at) && comes_before(at, end) ==> exists|k: int|
            0 <= k < kept.len() && (#[trigger] kept[k]).0 == at.0 && kept[k].1 == at.1
}

/// The kept places are exactly the first ones with their ids, in order.
pub open spec fn keeps_first(
    inputs: Seq<Vec<String>>,
    unnamed: bool,
    kept: Seq<(usize, usize)>,
) -> bool {
    &&& forall|k: int|
        0 <= k < kept.len() ==> first_seen(
            inputs, unnamed,
            ((#[trigger] kept[k]).0 as int, kept[k].1 as int),
        )
    &&& forall|k: int, l: int|
        0 <= k < l < kept.len() ==> comes_before(
            ((#[trigger] kept[k]).0 as int, kept[k].1 as int),
            ((#[trigger] kept[l]).0 as int, kept[l].1 as int),
        )
    &&& forall|at: (int, int)| #[trigger]
        first_seen(inputs, unnamed, at) ==> exists|k: int|
            0 <= k < kept.len() && (#[trigger] kept[k]).0 == at.0 && kept[k].1 == at.1
}

/// Of the first places of an input, how many are first seen and how many are
/// not, where they have an id.
pub open spec fn counts_upto(inputs: Seq<Vec<String>>, unnamed: bool, input: int, n: nat) -> (nat, nat)
    decreases n,
{
    if n == 0 {
        (0, 0)
    } else {
        let before = counts_upto(inputs, unnamed, input, (n - 1) as nat);
        if !is_counted(id_at(inputs, input, n - 1), unnamed) {
            before
        } else if first_seen(inputs, unnamed, (input, n - 1)) {
            (before.0 + 1, before.1)
        } else {
            (before.0, before.1 + 1)
        }
    }
}

/// Two inputs have an event with the id.
pub open spec fn shared_by(inputs: Seq<Vec<String>>, id: Seq<char>, a: int, b: int) -> bool {
    has_id(inputs, a, id) && has_id(inputs, b, id)
}

/// The id counts, and two of the inputs have an event with it.
pub open spec fn shared_id(inputs: Seq<Vec<String>>, unnamed: bool, id: Seq<char>) -> bool {
    is_counted(id, unnamed) && exists|a: int, b: int|
        0 <= a < b < inputs.len() && #[trigger] shared_by(inputs, id, a, b)
}

/// What a merge of inputs is: the first events with their ids are kept, and the
/// rest is counted.
pub open spec fn merged(inputs: Seq<Vec<String>>, unnamed: bool, merge: Merge) -> bool {
    &&& keeps_first(inputs, unnamed, merge.kept@)
    &&& merge.counts@.len() == inputs.len()
    &&& forall|i: int|
        0 <= i < inputs.len() ==> (
            (#[trigger] merge.counts@[i]).added as nat,
            merge.counts@[i].dupes as nat,
        ) == counts_upto(inputs, unnamed, i, inputs[i]@.len())
    &&& merge.shared.wf()
    &&& forall|id: Seq<char>| #[trigger]
        merge.shared.view().contains(id) <==> shared_id(inputs, unnamed, id)
}

/// The ids that two or more inputs have.
fn shared_ids(inputs: &Vec<Vec<String>>, ids: &Vec<TextSet>, Ghost(unnamed): Ghost<bool>) -> (shared:
    TextSet)
    requires
        ids@.len() == inputs@.len(),
        forall|i: int|
            0 <= i < ids@.len() ==> (#[trigger] ids@[i]).wf() && ids_of(
                inputs@,
                unnamed,
                i,
                ids@[i],
            ),
    ensures
        shared.wf(),
        forall|id: Seq<char>| #[trigger]
            shared.view().contains(id) <==> shared_id(inputs@, unnamed, id),
{
    let mut shared: TextSet = TextSet::new();
    let mut a: usize = 0;
    while a < ids.len()
        invariant
            ids@.len() == inputs@.len(),
            forall|i: int|
                0 <= i < ids@.len() ==> (#[trigger] ids@[i]).wf() && ids_of(
                    inputs@,
                    unnamed,
                    i,
                    ids@[i],
                ),
            a <= ids.len(),
            shared.wf(),
            forall|id: Seq<char>| #[trigger]
                shared.view().contains(id) ==> shared_id(inputs@, unnamed, id),
            forall|id: Seq<char>, i: int, j: int|
                #![trigger shared_by(inputs@, id, i, j)]
                0 <= i < a && i < j < ids@.len() && is_counted(id, unnamed) && shared_by(
                    inputs@,
                    id,
                    i,
                    j,
                ) ==> shared.view().contains(id),
        decreases ids.len() - a,
    {
        let mut b: usize = a + 1;
        while b < ids.len()
            invariant
                ids@.len() == inputs@.len(),
                forall|i: int|
                    0 <= i < ids@.len() ==> (#[trigger] ids@[i]).wf() && ids_of(
                        inputs@,
                        unnamed,
                        i,
                        ids@[i],
                    ),
                a < b <= ids.len(),
                shared.wf(),
                forall|id: Seq<char>| #[trigger]
                    shared.view().contains(id) ==> shared_id(inputs@, unnamed, id),
                forall|id: Seq<char>, i: int, j: int|
                    #![trigger shared_by(inputs@, id, i, j)]
                    0 <= i < a && i < j < ids@.len() && is_counted(id, unnamed) && shared_by(
                        inputs@,
                        id,
                        i,
                        j,
                    ) ==> shared.view().contains(id),
                forall|id: Seq<char>, j: int|
                    #![trigger shared_by(inputs@, id, a as int, j)]
                    a < j < b && is_counted(id, unnamed) && shared_by(inputs@, id, a as int, j)
                        ==> shared.view().contains(id),
            decreases ids.len() - b,
        {
            let mut k: usize = 0;
            let ghost start = shared.view();
            while k < ids[a].map.entries.len()
                invariant
                    ids@.len() == inputs@.len(),
                    forall|i: int|
                        0 <= i < ids@.len() ==> (#[trigger] ids@[i]).wf() && ids_of(
                            inputs@,
                            unnamed,
                            i,
                            ids@[i],
                        ),
                    a < b < ids.len(),
                    k <= ids@[a as int].map.entries@.len(),
                    shared.wf(),
                    start.subset_of(shared.view()),
                    forall|id: Seq<char>| #[trigger]
                        shared.view().contains(id) ==> shared_id(inputs@, unnamed, id),
                    forall|i: int|
                        0 <= i < k && ids@[b as int].view().contains(
                            (#[trigger] ids@[a as int].map.entries@[i]).0@,
                        ) ==> shared.view().contains(ids@[a as int].map.entries@[i].0@),
                decreases ids@[a as int].map.entries@.len() - k,
            {
                let text: &str = ids[a].map.entries[k].0.as_str();
                proof {
                    ids@[a as int].map.entry_facts(k as int);
                    assert(ids@[a as int].view().contains(text@));
                }
                if ids[b].contains(text) {
                    proof {
                        assert(ids_of(inputs@, unnamed, a as int, ids@[a as int]));
                        assert(ids_of(inputs@, unnamed, b as int, ids@[b as int]));
                        assert(shared_by(inputs@, text@, a as int, b as int));
                        assert(shared_id(inputs@, unnamed, text@));
                    }
                    let _new: bool = shared.insert(String::from_str(text));
                }
                k = k + 1;
            }
            proof {
                assert forall|id: Seq<char>|
                    is_counted(id, unnamed) && #[trigger] shared_by(
                        inputs@,
                        id,
                        a as int,
                        b as int,
                    ) implies shared.view().contains(id) by {
                    assert(ids_of(inputs@, unnamed, a as int, ids@[a as int]));
                    assert(ids_of(inputs@, unnamed, b as int, ids@[b as int]));
                    assert(ids@[a as int].view().contains(id));
                    assert(ids@[b as int].view().contains(id));
                    let entries = ids@[a as int].map.entries@;
                    let i = key_position(entries, id);
                    assert(entries[i].0@ == id);
                }
            }
            b = b + 1;
        }
        a = a + 1;
    }
    shared
}

/// Merges event sets, and lists the ids of each.
fn gather(inputs: &Vec<Vec<String>>, unnamed: bool) -> (result: (Merge, Vec<TextSet>))
    ensures
        merged(inputs@, unnamed, result.0),
        result.1@.len() == inputs@.len(),
        forall|i: int|
            0 <= i < result.1@.len() ==> (#[trigger] result.1@[i]).wf() && ids_of(
                inputs@,
                unnamed,
                i,
                result.1@[i],
            ),
{
    let mut seen: TextSet = TextSet::new();
    let mut kept: Vec<(usize, usize)> = Vec::new();
    let mut counts: Vec<MergeCounts> = Vec::new();
    let mut per_input: Vec<TextSet> = Vec::new();
    let mut input: usize = 0;
    while input < inputs.len()
        invariant
            input <= inputs.len(),
            seen.wf(),
            forall|id: Seq<char>| #[trigger]
                seen.view().contains(id) <==> is_counted(id, unnamed) && seen_upto(
                    inputs@,
                    (input as int, 0),
                    id,
                ),
            kept_upto(inputs@, unnamed, (input as int, 0), kept@),
            counts@.len() == input,
            forall|i: int|
                0 <= i < input ==> (
                    (#[trigger] counts@[i]).added as nat,
                    counts@[i].dupes as nat,
                ) == counts_upto(inputs@, unnamed, i, inputs@[i]@.len()),
            per_input@.len() == input,
            forall|i: int|
                0 <= i < input ==> (#[trigger] per_input@[i]).wf() && ids_of(
                    inputs@, unnamed,
                    i,
                    per_input@[i],
                ),
        decreases inputs.len() - input,
    {
        let ids: &Vec<String> = &inputs[input];
        let mut added: usize = 0;
        let mut dupes: usize = 0;
        let mut place: usize = 0;
        while place < ids.len()
            invariant
                input < inputs.len(),
                *ids == inputs@[input as int],
                place <= ids.len(),
                seen.wf(),
                forall|id: Seq<char>| #[trigger]
                    seen.view().contains(id) <==> is_counted(id, unnamed) && seen_upto(
                        inputs@,
                        (input as int, place as int),
                        id,
                    ),
                kept_upto(inputs@, unnamed, (input as int, place as int), kept@),
                added + dupes <= place,
                (added as nat, dupes as nat) == counts_upto(
                    inputs@,
                    unnamed,
                    input as int,
                    place as nat,
                ),
            decreases ids.len() - place,
        {
            let ghost here = (input as int, place as int);
            let ghost next = (input as int, place + 1);
            let ghost id = ids@[place as int]@;
            let ghost before = seen.view();
            let ghost held = kept@;
            proof {
                assert(is_place(inputs@, here));
                step_seen(inputs@, here, id);
            }
            if unnamed || !ids[place].as_str().is_empty() {
                if seen.insert(String::from_str(ids[place].as_str())) {
                    proof {
                        assert(!seen_upto(inputs@, here, id));
                        assert(first_seen(inputs@, unnamed, here));
                    }
                    kept.push((input, place));
                    added = added + 1;
                    proof {
                        kept_more(inputs@, unnamed, here, held);
                        assert(kept@ =~= held.push((input, place)));
                    }
                } else {
                    proof {
                        assert(seen_upto(inputs@, here, id));
                        let b = choose|b: (int, int)| #[trigger]
                            is_place(inputs@, b) && comes_before(b, here) && id_at(
                                inputs@,
                                b.0,
                                b.1,
                            ) == id;
                        assert(!first_seen(inputs@, unnamed, here));
                        kept_same(inputs@, unnamed, here, held);
                    }
                    dupes = dupes + 1;
                }
            } else {
                proof {
                    kept_same(inputs@, unnamed, here, held);
                }
            }
            proof {
                assert forall|x: Seq<char>| #[trigger]
                    seen.view().contains(x) <==> is_counted(x, unnamed) && seen_upto(inputs@, next, x) by {
                    step_seen(inputs@, here, x);
                    assert(before.contains(x) <==> is_counted(x, unnamed) && seen_upto(
                        inputs@,
                        here,
                        x,
                    ));
                }
            }
            place = place + 1;
        }
        proof {
            let last = (input as int, place as int);
            let start = (input + 1, 0int);
            assert forall|b: (int, int)| #[trigger] is_place(inputs@, b) implies comes_before(
                b,
                last,
            ) == comes_before(b, start) by {}
            assert forall|id: Seq<char>| #[trigger] seen_upto(inputs@, start, id) == seen_upto(
                inputs@,
                last,
                id,
            ) by {
                if seen_upto(inputs@, start, id) {
                    let b = choose|b: (int, int)| #[trigger]
                        is_place(inputs@, b) && comes_before(b, start) && id_at(inputs@, b.0, b.1)
                            == id;
                    assert(is_place(inputs@, b) && comes_before(b, last));
                }
                if seen_upto(inputs@, last, id) {
                    let b = choose|b: (int, int)| #[trigger]
                        is_place(inputs@, b) && comes_before(b, last) && id_at(inputs@, b.0, b.1)
                            == id;
                    assert(is_place(inputs@, b) && comes_before(b, start));
                }
            }
            assert(kept_upto(inputs@, unnamed, start, kept@)) by {
                assert forall|at: (int, int)| #[trigger]
                    first_seen(inputs@, unnamed, at) && comes_before(at, start) implies exists|k: int|
                    0 <= k < kept@.len() && (#[trigger] kept@[k]).0 == at.0 && kept@[k].1
                        == at.1 by {
                    assert(is_place(inputs@, at));
                    assert(comes_before(at, last));
                }
            }
        }
        counts.push(MergeCounts { added, dupes });
        let set: TextSet = input_ids(ids, unnamed);
        proof {
            assert(ids_of(inputs@, unnamed, input as int, set)) by {
                assert forall|id: Seq<char>| #[trigger]
                    set.view().contains(id) <==> is_counted(id, unnamed) && has_id(
                        inputs@,
                        input as int,
                        id,
                    ) by {
                    if has_id(inputs@, input as int, id) {
                        let p = choose|p: int|
                            0 <= p < inputs@[input as int]@.len() && (
                            #[trigger] inputs@[input as int]@[p])@ == id;
                        assert(ids@[p]@ == id);
                    }
                    if exists|p: int| 0 <= p < ids@.len() && (#[trigger] ids@[p])@ == id {
                        let p = choose|p: int| 0 <= p < ids@.len() && (#[trigger] ids@[p])@ == id;
                        assert(inputs@[input as int]@[p]@ == id);
                    }
                }
            }
        }
        per_input.push(set);
        input = input + 1;
    }
    proof {
        assert(keeps_first(inputs@, unnamed, kept@)) by {
            assert forall|at: (int, int)| #[trigger] first_seen(inputs@, unnamed, at) implies exists|k: int|
                0 <= k < kept@.len() && (#[trigger] kept@[k]).0 == at.0 && kept@[k].1 == at.1 by {
                assert(comes_before(at, (input as int, 0)));
            }
        }
    }
    let shared: TextSet = shared_ids(inputs, &per_input, Ghost(unnamed));
    (Merge { kept, counts, shared }, per_input)
}

/// Merges event sets by event id. The first event with an id wins: events are
/// immutable. The inputs are given as the ids of their events in order, empty
/// where an event has none; such events are passed over.
///
/// # Errors
/// Returns an error if the inputs describe disjoint graphs that share no
/// history.
pub fn merge_event_sets(inputs: &Vec<Vec<String>>) -> (result: Result<Merge, DisjointInputs>)
    ensures
        connectivity(
            inputs@,
            false,
            match result {
                Ok(_) => Ok(()),
                Err(error) => Err(error),
            },
        ),
        result matches Ok(merge) ==> merged(inputs@, false, merge),
{
    let gathered: (Merge, Vec<TextSet>) = gather(inputs, false);
    match perform_connectivity_check(inputs, &gathered.1) {
        Ok(_) => Ok(gathered.0),
        Err(error) => Err(error),
    }
}

/// Two of the inputs have an event in common.
pub open spec fn overlapping(inputs: Seq<Vec<String>>) -> bool {
    exists|a: int, b: int| 0 <= a < b < inputs.len() && #[trigger] share(inputs, true, a, b)
}

/// Merges event sets by event id, where it is enough that some two of the inputs
/// have an event in common. Events without an id count as events with an empty
/// one.
///
/// # Errors
/// Returns an error if there are two or more inputs and no two of them share an
/// event.
pub fn merge_overlapping(inputs: &Vec<Vec<String>>) -> (result: Result<Merge, NothingShared>)
    ensures
        match result {
            Ok(merge) => merged(inputs@, true, merge) && (inputs@.len() < 2 || overlapping(
                inputs@,
            )),
            Err(_) => inputs@.len() >= 2 && !overlapping(inputs@),
        },
{
    let gathered: (Merge, Vec<TextSet>) = gather(inputs, true);
    if inputs.len() >= 2 && gathered.0.shared.map.entries.len() == 0 {
        proof {
            if overlapping(inputs@) {
                let (a, b) = choose|a: int, b: int|
                    0 <= a < b < inputs@.len() && #[trigger] share(inputs@, true, a, b);
                let id = choose|id: Seq<char>|
                    is_counted(id, true) && #[trigger] has_id(inputs@, a, id) && has_id(
                        inputs@,
                        b,
                        id,
                    );
                assert(shared_by(inputs@, id, a, b));
                assert(shared_id(inputs@, true, id));
                assert(gathered.0.shared.view().contains(id));
                assert(has_key(gathered.0.shared.map.entries@, id));
            }
        }
        return Err(NothingShared);
    }
    proof {
        if inputs@.len() >= 2 {
            let set = gathered.0.shared;
            set.map.entry_facts(0);
            let id = set.map.entries@[0].0@;
            assert(set.view().contains(id));
            let (a, b) = choose|a: int, b: int|
                0 <= a < b < inputs@.len() && #[trigger] shared_by(inputs@, id, a, b);
            assert(share(inputs@, true, a, b));
        }
    }
    Ok(gathered.0)
}

/// The depth of the event that is kept for an id, among the first that are kept.
pub open spec fn kept_depth(
    inputs: Seq<Vec<String>>,
    depths: Seq<Vec<Option<u64>>>,
    kept: Seq<(usize, usize)>,
    id: Seq<char>,
    n: nat,
) -> Option<u64>
    decreases n,
{
    if n == 0 {
        None
    } else {
        let at = kept[n - 1];
        if id_at(inputs, at.0 as int, at.1 as int) == id {
            depths[at.0 as int]@[at.1 as int]
        } else {
            kept_depth(inputs, depths, kept, id, (n - 1) as nat)
        }
    }
}

/// The first shared ids whose event has a depth, with that depth.
pub open spec fn shared_depths(
    inputs: Seq<Vec<String>>,
    depths: Seq<Vec<Option<u64>>>,
    merge: Merge,
    n: nat,
) -> Seq<(Seq<char>, u64)>
    decreases n,
{
    if n == 0 {
        Seq::empty()
    } else {
        let before = shared_depths(inputs, depths, merge, (n - 1) as nat);
        let id = merge.shared.map.entries@[n - 1].0@;
        match kept_depth(inputs, depths, merge.kept@, id, merge.kept@.len()) {
            Some(depth) => before.push((id, depth)),
            None => before,
        }
    }
}

/// The ids and depths of a list.
pub open spec fn depth_views(list: Seq<(String, u64)>) -> Seq<(Seq<char>, u64)> {
    list.map_values(|entry: (String, u64)| (entry.0@, entry.1))
}

/// The list goes from the greatest depth down.
pub open spec fn descends(list: Seq<(Seq<char>, u64)>) -> bool {
    forall|i: int, j: int|
        0 <= i < j < list.len() ==> (#[trigger] list[i]).1 >= (#[trigger] list[j]).1
}

/// The first five of the shared events, from the greatest depth down.
pub open spec fn deepest_shared(
    inputs: Seq<Vec<String>>,
    depths: Seq<Vec<Option<u64>>>,
    merge: Merge,
    highest: Seq<(String, u64)>,
) -> bool {
    exists|all: Seq<(Seq<char>, u64)>| #[trigger]
        descends(all) && all.to_multiset() == shared_depths(
            inputs,
            depths,
            merge,
            merge.shared.map.entries@.len(),
        ).to_multiset() && depth_views(highest) == all.take(
            if all.len() < 5 {
                all.len() as int
            } else {
                5
            },
        )
}

/// The five shared events with the greatest depths, deepest first. `depths`
/// holds the depth of each event of each input, where it states one.
pub fn highest_shared_depths(
    inputs: &Vec<Vec<String>>,
    depths: &Vec<Vec<Option<u64>>>,
    merge: &Merge,
) -> (highest: Vec<(String, u64)>)
    requires
        merge.shared.wf(),
        depths@.len() == inputs@.len(),
        forall|i: int| 0 <= i < inputs@.len() ==> (#[trigger] depths@[i])@.len() == inputs@[i]@.len(),
        forall|k: int|
            0 <= k < merge.kept@.len() ==> is_place(
                inputs@,
                ((#[trigger] merge.kept@[k]).0 as int, merge.kept@[k].1 as int),
            ),
    ensures
        deepest_shared(inputs@, depths@, *merge, highest@),
{
    let mut highest: Vec<(String, u64)> = Vec::new();
    let mut index: usize = 0;
    proof {
        assert(depth_views(highest@) =~= Seq::empty());
    }
    while index < merge.shared.map.entries.len()
        invariant
            merge.shared.wf(),
            depths@.len() == inputs@.len(),
            forall|i: int|
                0 <= i < inputs@.len() ==> (#[trigger] depths@[i])@.len() == inputs@[i]@.len(),
            forall|k: int|
                0 <= k < merge.kept@.len() ==> is_place(
                    inputs@,
                    ((#[trigger] merge.kept@[k]).0 as int, merge.kept@[k].1 as int),
                ),
            index <= merge.shared.map.entries.len(),
            descends(depth_views(highest@)),
            depth_views(highest@).to_multiset() == shared_depths(
                inputs@,
                depths@,
                *merge,
                index as nat,
            ).to_multiset(),
        decreases merge.shared.map.entries.len() - index,
    {
        let id: &str = merge.shared.map.entries[index].0.as_str();
        let depth: Option<u64> = find_depth(inputs, depths, &merge.kept, id);
        match depth {
            Some(depth) => {
                let ghost before = depth_views(highest@);
                let mut slot: usize = highest.len();
                while slot > 0 && highest[slot - 1].1 < depth
                    invariant
                        slot <= highest.len(),
                        before == depth_views(highest@),
                        descends(before),
                        forall|i: int| slot <= i < before.len() ==> (#[trigger] before[i]).1 < depth,
                    decreases slot,
                {
                    slot = slot - 1;
                    proof {
                        assert(before[slot as int].1 == highest@[slot as int].1);
                    }
                }
                let ghost ends = slot > 0 ==> before[slot - 1].1 >= depth;
                proof {
                    if slot > 0 {
                        assert(before[slot - 1].1 == highest@[slot - 1].1);
                    }
                    assert(ends);
                }
                highest.insert(slot, (String::from_str(id), depth));
                proof {
                    let s = slot as int;
                    let now = depth_views(highest@);
                    assert(now =~= before.insert(s, (id@, depth)));
                    to_multiset_insert(before, s, (id@, depth));
                    let done = shared_depths(inputs@, depths@, *merge, index as nat);
                    to_multiset_build(done, (id@, depth));
                    assert(shared_depths(inputs@, depths@, *merge, (index + 1) as nat)
                        == done.push((id@, depth)));
                    assert forall|i: int, j: int| 0 <= i < j < now.len() implies (
                    #[trigger] now[i]).1 >= (#[trigger] now[j]).1 by {
                        if i < s && j > s {
                            assert(now[i] == before[i] && now[j] == before[j - 1]);
                        } else if i < s && j < s {
                            assert(now[i] == before[i] && now[j] == before[j]);
                        } else if i > s {
                            assert(now[i] == before[i - 1] && now[j] == before[j - 1]);
                        } else if i == s {
                            assert(now[j] == before[j - 1]);
                        } else {
                            assert(now[i] == before[i]);
                        }
                    }
                }
            },
            None => {},
        }
        index = index + 1;
    }
    let ghost all = depth_views(highest@);
    if highest.len() > 5 {
        highest.truncate(5);
    }
    proof {
        let count = if all.len() < 5 {
            all.len() as int
        } else {
            5
        };
        assert(depth_views(highest@) =~= all.take(count));
        assert(descends(all));
    }
    highest
}

/// The depth of the event that is kept for an id.
fn find_depth(
    inputs: &Vec<Vec<String>>,
    depths: &Vec<Vec<Option<u64>>>,
    kept: &Vec<(usize, usize)>,
    id: &str,
) -> (depth: Option<u64>)
    requires
        depths@.len() == inputs@.len(),
        forall|i: int| 0 <= i < inputs@.len() ==> (#[trigger] depths@[i])@.len() == inputs@[i]@.len(),
        forall|k: int|
            0 <= k < kept@.len() ==> is_place(
                inputs@,
                ((#[trigger] kept@[k]).0 as int, kept@[k].1 as int),
            ),
    ensures
        depth == kept_depth(inputs@, depths@, kept@, id@, kept@.len()),
{
    let mut index: usize = kept.len();
    while index > 0
        invariant
            depths@.len() == inputs@.len(),
            forall|i: int|
                0 <= i < inputs@.len() ==> (#[trigger] depths@[i])@.len() == inputs@[i]@.len(),
            forall|k: int|
                0 <= k < kept@.len() ==> is_place(
                    inputs@,
                    ((#[trigger] kept@[k]).0 as int, kept@[k].1 as int),
                ),
            index <= kept.len(),
            kept_depth(inputs@, depths@, kept@, id@, kept@.len()) == kept_depth(
                inputs@,
                depths@,
                kept@,
                id@,
                index as nat,
            ),
        decreases index,
    {
        let at: (usize, usize) = kept[index - 1];
        proof {
            assert(is_place(inputs@, (at.0 as int, at.1 as int)));
            assert(depths@[at.0 as int]@.len() == inputs@[at.0 as int]@.len());
        }
        if text_equal(inputs[at.0][at.1].as_str(), id) {
            return depths[at.0][at.1];
        }
        index = index - 1;
    }
    None
}

proof fn step_seen(inputs: Seq<Vec<String>>, here: (int, int), id: Seq<char>)
    requires
        is_place(inputs, here),
    ensures
        seen_upto(inputs, (here.0, here.1 + 1), id) <==> seen_upto(inputs, here, id) || id
            == id_at(inputs, here.0, here.1),
{
    let next = (here.0, here.1 + 1);
    if seen_upto(inputs, next, id) {
        let b = choose|b: (int, int)| #[trigger]
            is_place(inputs, b) && comes_before(b, next) && id_at(inputs, b.0, b.1) == id;
        if b != here {
            assert(is_place(inputs, b) && comes_before(b, here));
        }
    }
    if seen_upto(inputs, here, id) {
        let b = choose|b: (int, int)| #[trigger]
            is_place(inputs, b) && comes_before(b, here) && id_at(inputs, b.0, b.1) == id;
        assert(is_place(inputs, b) && comes_before(b, next));
    }
    if id == id_at(inputs, here.0, here.1) {
        assert(is_place(inputs, here) && comes_before(here, next));
    }
}

proof fn kept_same(inputs: Seq<Vec<String>>, unnamed: bool, here: (int, int), kept: Seq<(usize, usize)>)
    requires
        kept_upto(inputs, unnamed, here, kept),
        !first_seen(inputs, unnamed, here),
    ensures
        kept_upto(inputs, unnamed, (here.0, here.1 + 1), kept),
{
    let next = (here.0, here.1 + 1);
    assert forall|at: (int, int)| #[trigger]
        first_seen(inputs, unnamed, at) && comes_before(at, next) implies exists|k: int|
        0 <= k < kept.len() && (#[trigger] kept[k]).0 == at.0 && kept[k].1 == at.1 by {
        if at != here {
            assert(comes_before(at, here));
        }
    }
}

proof fn kept_more(inputs: Seq<Vec<String>>, unnamed: bool, here: (int, int), kept: Seq<(usize, usize)>)
    requires
        kept_upto(inputs, unnamed, here, kept),
        first_seen(inputs, unnamed, here),
        0 <= here.0 <= usize::MAX,
        0 <= here.1 <= usize::MAX,
    ensures
        kept_upto(
            inputs, unnamed,
            (here.0, here.1 + 1),
            kept.push((here.0 as usize, here.1 as usize)),
        ),
{
    let next = (here.0, here.1 + 1);
    let all = kept.push((here.0 as usize, here.1 as usize));
    assert forall|at: (int, int)| #[trigger]
        first_seen(inputs, unnamed, at) && comes_before(at, next) implies exists|k: int|
        0 <= k < all.len() && (#[trigger] all[k]).0 == at.0 && all[k].1 == at.1 by {
        if at != here {
            assert(comes_before(at, here));
            let k = choose|k: int|
                0 <= k < kept.len() && (#[trigger] kept[k]).0 == at.0 && kept[k].1 == at.1;
            assert(all[k] == kept[k]);
        } else {
            assert(all[kept.len() as int].0 == at.0);
        }
    }
    assert forall|k: int| 0 <= k < all.len() implies first_seen(
        inputs, unnamed,
        ((#[trigger] all[k]).0 as int, all[k].1 as int),
    ) && comes_before((all[k].0 as int, all[k].1 as int), next) by {
        if k < kept.len() {
            assert(all[k] == kept[k]);
        } else {
            assert((all[k].0 as int, all[k].1 as int) == here);
        }
    }
    assert forall|k: int, l: int| 0 <= k < l < all.len() implies comes_before(
        ((#[trigger] all[k]).0 as int, all[k].1 as int),
        ((#[trigger] all[l]).0 as int, all[l].1 as int),
    ) by {
        assert(all[k] == kept[k]);
        if l < kept.len() {
            assert(all[l] == kept[l]);
        }
    }
}

} // verus!
