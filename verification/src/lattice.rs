//! Lattice-coordinatized state resolution.
//!
//! Instead of sorting non-power events, each event is assigned a mainline
//! coordinate (its closest position on the power-levels chain), and events are
//! folded per `(type, state_key)` using a commutative least-upper-bound
//! operator: the event with the best coordinate wins. The fold can be split into
//! chunks without affecting the result.

use vstd::prelude::*;
use vstd::string::StringExecFns;
use vstd::utf8::encode_utf8;
use crate::bytes::{text_at_most, text_equal, text_le, text_le_antisymmetric};
use crate::collections::{reversed, text_le_total, text_less, text_less_transitive, TextMap};
use crate::events::{events_wf, object_wf, LeanEvent, StateResVersion};
use crate::state_map::{key_less, key_position, KeyText, StateKey, StateMap};

verus! {

/// The mainline coordinate of an event.
pub open spec fn coordinate(
    event: LeanEvent,
    distances: Map<Seq<char>, usize>,
    mainline_len: nat,
) -> nat {
    if distances.contains_key(event.event_id@) {
        distances[event.event_id@] as nat
    } else {
        mainline_len
    }
}

/// One event beats another: by the smaller coordinate, then by the later
/// timestamp, then by the larger id.
pub open spec fn beats(
    a: LeanEvent,
    b: LeanEvent,
    distances: Map<Seq<char>, usize>,
    mainline_len: nat,
) -> bool {
    let p = coordinate(a, distances, mainline_len);
    let q = coordinate(b, distances, mainline_len);
    if p != q {
        p < q
    } else if a.origin_server_ts != b.origin_server_ts {
        a.origin_server_ts > b.origin_server_ts
    } else {
        text_less(b.event_id@, a.event_id@)
    }
}

/// Of two events with different ids exactly one beats the other.
pub proof fn winner_total(
    a: LeanEvent,
    b: LeanEvent,
    distances: Map<Seq<char>, usize>,
    mainline_len: nat,
)
    requires
        a.event_id@ != b.event_id@,
    ensures
        beats(a, b, distances, mainline_len) <==> !beats(b, a, distances, mainline_len),
{
    text_le_total(a.event_id@, b.event_id@);
    if text_le(a.event_id@, b.event_id@) && text_le(b.event_id@, a.event_id@) {
        text_le_antisymmetric(a.event_id@, b.event_id@);
    }
}

/// No event beats itself.
pub proof fn winner_irreflexive(
    a: LeanEvent,
    distances: Map<Seq<char>, usize>,
    mainline_len: nat,
)
    ensures
        !beats(a, a, distances, mainline_len),
{
}

/// What beats the better of two events beats both.
pub proof fn winner_transitive(
    a: LeanEvent,
    b: LeanEvent,
    c: LeanEvent,
    distances: Map<Seq<char>, usize>,
    mainline_len: nat,
)
    requires
        beats(a, b, distances, mainline_len),
        beats(b, c, distances, mainline_len),
    ensures
        beats(a, c, distances, mainline_len),
{
    if text_less(b.event_id@, a.event_id@) && text_less(c.event_id@, b.event_id@) {
        text_less_transitive(c.event_id@, b.event_id@, a.event_id@);
    }
}

/// The better of two events.
pub open spec fn join(
    a: LeanEvent,
    b: LeanEvent,
    distances: Map<Seq<char>, usize>,
    mainline_len: nat,
) -> LeanEvent {
    if beats(b, a, distances, mainline_len) {
        b
    } else {
        a
    }
}

/// The choice between events is commutative, associative and idempotent.
pub proof fn join_laws(
    a: LeanEvent,
    b: LeanEvent,
    c: LeanEvent,
    distances: Map<Seq<char>, usize>,
    mainline_len: nat,
)
    requires
        a.event_id@ == b.event_id@ ==> a == b,
        a.event_id@ == c.event_id@ ==> a == c,
        b.event_id@ == c.event_id@ ==> b == c,
    ensures
        join(a, b, distances, mainline_len) == join(b, a, distances, mainline_len),
        join(join(a, b, distances, mainline_len), c, distances, mainline_len) == join(
            a,
            join(b, c, distances, mainline_len),
            distances,
            mainline_len,
        ),
        join(a, a, distances, mainline_len) == a,
{
    if a.event_id@ != b.event_id@ {
        winner_total(a, b, distances, mainline_len);
    }
    if a.event_id@ != c.event_id@ {
        winner_total(a, c, distances, mainline_len);
    }
    if b.event_id@ != c.event_id@ {
        winner_total(b, c, distances, mainline_len);
    }
    winner_irreflexive(a, distances, mainline_len);
    winner_irreflexive(b, distances, mainline_len);
    winner_irreflexive(c, distances, mainline_len);
    if beats(a, b, distances, mainline_len) && beats(b, c, distances, mainline_len) {
        winner_transitive(a, b, c, distances, mainline_len);
    }
    if beats(c, b, distances, mainline_len) && beats(b, a, distances, mainline_len) {
        winner_transitive(c, b, a, distances, mainline_len);
    }
}

/// Determines whether `ev` beats `current_winner`.
///
/// The comparison cascade is:
/// 1. Mainline position: closer to the current power-levels event (smaller
///    index) wins.
/// 2. `origin_server_ts`: later timestamp wins.
/// 3. `event_id`: lexicographically largest id wins.
///
/// This operator is commutative and associative, which is what allows the fold
/// to be parallelized without affecting the result.
#[must_use]
pub fn is_lattice_winner_better(
    ev: &LeanEvent,
    current_winner: &LeanEvent,
    mainline_distances: &TextMap<usize>,
    mainline_len: usize,
) -> (result: bool)
    requires
        mainline_distances.wf(),
    ensures
        result == beats(*ev, *current_winner, mainline_distances.view(), mainline_len as nat),
        mainline_distances.view().contains_key(ev.event_id@)
            && mainline_distances.view().contains_key(current_winner.event_id@) ==> {
            let position = mainline_distances.view()[ev.event_id@];
            let other = mainline_distances.view()[current_winner.event_id@];
            &&& position < other ==> result
            &&& position > other ==> !result
            &&& position == other && ev.origin_server_ts > current_winner.origin_server_ts ==> result
            &&& position == other && ev.origin_server_ts < current_winner.origin_server_ts
                ==> !result
        },
{
    let ev_position: usize = match mainline_distances.get(ev.event_id.as_str()) {
        Some(position) => *position,
        None => mainline_len,
    };
    let winner_position: usize = match mainline_distances.get(current_winner.event_id.as_str()) {
        Some(position) => *position,
        None => mainline_len,
    };
    if ev_position < winner_position {
        true
    } else if ev_position > winner_position {
        false
    } else if ev.origin_server_ts > current_winner.origin_server_ts {
        true
    } else if ev.origin_server_ts < current_winner.origin_server_ts {
        false
    } else {
        proof {
            text_le_total(ev.event_id@, current_winner.event_id@);
            text_le_total(current_winner.event_id@, ev.event_id@);
            if text_less(current_winner.event_id@, ev.event_id@) && text_le(
                ev.event_id@,
                current_winner.event_id@,
            ) {
                text_le_antisymmetric(ev.event_id@, current_winner.event_id@);
            }
        }
        !text_at_most(ev.event_id.as_str(), current_winner.event_id.as_str())
    }
}

/// An authorized event of a range has the key.
pub open spec fn competes(
    events: Seq<(String, LeanEvent)>,
    authorized: Seq<bool>,
    lo: int,
    hi: int,
    key: KeyText,
    i: int,
) -> bool {
    &&& lo <= i < hi
    &&& authorized[i]
    &&& events[i].1.key() == key
}

/// The event at a place beats every other authorized event of the range with the
/// same key.
pub open spec fn wins(
    events: Seq<(String, LeanEvent)>,
    authorized: Seq<bool>,
    distances: Map<Seq<char>, usize>,
    mainline_len: nat,
    lo: int,
    hi: int,
    key: KeyText,
    i: int,
) -> bool {
    &&& competes(events, authorized, lo, hi, key, i)
    &&& forall|j: int| #[trigger]
        competes(events, authorized, lo, hi, key, j) && j != i ==> beats(
            events[i].1,
            events[j].1,
            distances,
            mainline_len,
        )
}

/// The map holds the winner of every key that some authorized event of the range
/// has.
pub open spec fn winners_of(
    winners: Map<KeyText, usize>,
    events: Seq<(String, LeanEvent)>,
    authorized: Seq<bool>,
    distances: Map<Seq<char>, usize>,
    mainline_len: nat,
    lo: int,
    hi: int,
) -> bool {
    forall|key: KeyText|
        {
            &&& #[trigger] winners.contains_key(key) <==> exists|i: int|
                competes(events, authorized, lo, hi, key, i)
            &&& winners.contains_key(key) ==> wins(
                events,
                authorized,
                distances,
                mainline_len,
                lo,
                hi,
                key,
                winners[key] as int,
            )
        }
}

/// Different places have different ids.
proof fn distinct_ids(events: TextMap<LeanEvent>, i: int, j: int)
    requires
        events_wf(events),
        0 <= i < events.entries@.len(),
        0 <= j < events.entries@.len(),
        i != j,
    ensures
        events.entries@[i].1.event_id@ != events.entries@[j].1.event_id@,
{
    if i < j {
        assert(text_less(events.entries@[i].0@, events.entries@[j].0@));
    } else {
        assert(text_less(events.entries@[j].0@, events.entries@[i].0@));
    }
}

/// The better of the winners of two neighbouring ranges wins in both.
proof fn combine_winners(
    events: TextMap<LeanEvent>,
    authorized: Seq<bool>,
    distances: Map<Seq<char>, usize>,
    mainline_len: nat,
    lo: int,
    mid: int,
    hi: int,
    key: KeyText,
    i: int,
    j: int,
)
    requires
        events_wf(events),
        0 <= lo <= mid <= hi <= events.entries@.len(),
        wins(events.entries@, authorized, distances, mainline_len, lo, mid, key, i),
        wins(events.entries@, authorized, distances, mainline_len, mid, hi, key, j),
    ensures
        ({
            let best = if beats(
                events.entries@[j].1,
                events.entries@[i].1,
                distances,
                mainline_len,
            ) {
                j
            } else {
                i
            };
            wins(events.entries@, authorized, distances, mainline_len, lo, hi, key, best)
        }),
{
    let all = events.entries@;
    distinct_ids(events, i, j);
    winner_total(all[i].1, all[j].1, distances, mainline_len);
    let best = if beats(all[j].1, all[i].1, distances, mainline_len) {
        j
    } else {
        i
    };
    assert forall|k: int| #[trigger]
        competes(all, authorized, lo, hi, key, k) && k != best implies beats(
        all[best].1,
        all[k].1,
        distances,
        mainline_len,
    ) by {
        if k < mid {
            assert(competes(all, authorized, lo, mid, key, k));
            if best == j && k != i {
                winner_transitive(all[j].1, all[i].1, all[k].1, distances, mainline_len);
            }
        } else {
            assert(competes(all, authorized, mid, hi, key, k));
            if best == i && k != j {
                winner_transitive(all[i].1, all[j].1, all[k].1, distances, mainline_len);
            }
        }
    }
}

/// Stores the event at a place under its key, unless the one stored there beats
/// it.
fn update_winner_if_better(
    winners: &mut StateMap<usize>,
    key: StateKey,
    place: usize,
    events: &TextMap<LeanEvent>,
    mainline_distances: &TextMap<usize>,
    mainline_len: usize,
)
    requires
        old(winners).wf(),
        events_wf(*events),
        mainline_distances.wf(),
        place < events.entries.len(),
        forall|k: KeyText| #[trigger]
            old(winners).view().contains_key(k) ==> old(winners).view()[k] < events.entries.len(),
    ensures
        final(winners).wf(),
        final(winners).view() == if old(winners).view().contains_key(key@) && !beats(
            events.entries@[place as int].1,
            events.entries@[old(winners).view()[key@] as int].1,
            mainline_distances.view(),
            mainline_len as nat,
        ) {
            old(winners).view()
        } else {
            old(winners).view().insert(key@, place)
        },
{
    let better: bool = match winners.get(&key) {
        Some(current) => is_lattice_winner_better(
            &events.entries[place].1,
            &events.entries[*current].1,
            mainline_distances,
            mainline_len,
        ),
        None => true,
    };
    if better {
        winners.insert(key, place);
    }
}

/// One event more: it wins where it beats the winner so far.
proof fn next_winner(
    before: Map<KeyText, usize>,
    after: Map<KeyText, usize>,
    events: TextMap<LeanEvent>,
    authorized: Seq<bool>,
    distances: Map<Seq<char>, usize>,
    mainline_len: nat,
    lo: int,
    place: usize,
)
    requires
        events_wf(events),
        0 <= lo <= place < events.entries@.len(),
        authorized.len() == events.entries@.len(),
        winners_of(
            before,
            events.entries@,
            authorized,
            distances,
            mainline_len,
            lo,
            place as int,
        ),
        after == if !authorized[place as int] {
            before
        } else {
            let key = events.entries@[place as int].1.key();
            if before.contains_key(key) && !beats(
                events.entries@[place as int].1,
                events.entries@[before[key] as int].1,
                distances,
                mainline_len,
            ) {
                before
            } else {
                before.insert(key, place)
            }
        },
    ensures
        winners_of(
            after,
            events.entries@,
            authorized,
            distances,
            mainline_len,
            lo,
            place + 1,
        ),
{
    let all = events.entries@;
    let p = place as int;
    let next = p + 1;
    assert forall|key: KeyText|
        {
            &&& #[trigger] after.contains_key(key) <==> exists|i: int|
                competes(all, authorized, lo, next, key, i)
            &&& after.contains_key(key) ==> wins(
                all,
                authorized,
                distances,
                mainline_len,
                lo,
                next,
                key,
                after[key] as int,
            )
        } by {
        let here = authorized[p] && all[p].1.key() == key;
        assert(before.contains_key(key) <==> exists|i: int|
            competes(all, authorized, lo, p, key, i));
        if before.contains_key(key) {
            let i = before[key] as int;
            assert(wins(all, authorized, distances, mainline_len, lo, p, key, i));
            assert(competes(all, authorized, lo, p, key, i));
            assert(competes(all, authorized, lo, next, key, i));
            if here {
                assert(wins(all, authorized, distances, mainline_len, p, next, key, p));
                combine_winners(
                    events,
                    authorized,
                    distances,
                    mainline_len,
                    lo,
                    p,
                    next,
                    key,
                    i,
                    p,
                );
            } else {
                assert(wins(all, authorized, distances, mainline_len, lo, next, key, i)) by {
                    assert forall|j: int| #[trigger]
                        competes(all, authorized, lo, next, key, j) && j != i implies beats(
                        all[i].1,
                        all[j].1,
                        distances,
                        mainline_len,
                    ) by {
                        assert(competes(all, authorized, lo, p, key, j));
                    }
                }
            }
        } else if here {
            assert(competes(all, authorized, lo, next, key, p));
            assert(wins(all, authorized, distances, mainline_len, lo, next, key, p)) by {
                assert forall|j: int| #[trigger]
                    competes(all, authorized, lo, next, key, j) && j != p implies beats(
                    all[p].1,
                    all[j].1,
                    distances,
                    mainline_len,
                ) by {
                    assert(competes(all, authorized, lo, p, key, j));
                }
            }
        } else {
            assert forall|i: int| !competes(all, authorized, lo, next, key, i) by {
                if competes(all, authorized, lo, next, key, i) {
                    assert(competes(all, authorized, lo, p, key, i));
                }
            }
        }
    }
}

/// Folds the authorized events of a range into the winners per key.
pub fn fold_lattice_chunk(
    events: &TextMap<LeanEvent>,
    lo: usize,
    hi: usize,
    authorized: &[bool],
    mainline_distances: &TextMap<usize>,
    mainline_len: usize,
) -> (winners: StateMap<usize>)
    requires
        events_wf(*events),
        lo <= hi <= events.entries.len(),
        authorized@.len() == events.entries.len(),
        mainline_distances.wf(),
    ensures
        winners.wf(),
        winners_of(
            winners.view(),
            events.entries@,
            authorized@,
            mainline_distances.view(),
            mainline_len as nat,
            lo as int,
            hi as int,
        ),
{
    let mut winners: StateMap<usize> = StateMap::new();
    let mut place: usize = lo;
    while place < hi
        invariant
            lo <= place <= hi <= events.entries.len(),
            events_wf(*events),
            authorized@.len() == events.entries.len(),
            mainline_distances.wf(),
            winners.wf(),
            winners_of(
                winners.view(),
                events.entries@,
                authorized@,
                mainline_distances.view(),
                mainline_len as nat,
                lo as int,
                place as int,
            ),
        decreases hi - place,
    {
        let ghost before = winners.view();
        if authorized[place] {
            let key: StateKey = events.entries[place].1.state_key_pair();
            proof {
                assert forall|k: KeyText| #[trigger] before.contains_key(k) implies before[k]
                    < events.entries.len() by {
                    assert(competes(
                        events.entries@,
                        authorized@,
                        lo as int,
                        place as int,
                        k,
                        before[k] as int,
                    ));
                }
            }
            update_winner_if_better(
                &mut winners,
                key,
                place,
                events,
                mainline_distances,
                mainline_len,
            );
        }
        proof {
            next_winner(
                before,
                winners.view(),
                *events,
                authorized@,
                mainline_distances.view(),
                mainline_len as nat,
                lo as int,
                place,
            );
        }
        place = place + 1;
    }
    winners
}

/// The winners of the first entries of the second map are merged into the first.
spec fn merged_upto(
    first: Map<KeyText, usize>,
    second: StateMap<usize>,
    n: int,
    now: Map<KeyText, usize>,
    events: Seq<(String, LeanEvent)>,
    distances: Map<Seq<char>, usize>,
    mainline_len: nat,
) -> bool {
    forall|key: KeyText|
        {
            let seen = exists|i: int|
                0 <= i < n && (#[trigger] second.entries@[i]).0@ == key;
            let old_in = first.contains_key(key);
            &&& #[trigger] now.contains_key(key) <==> old_in || seen
            &&& now.contains_key(key) ==> now[key] == if old_in && seen {
                if beats(
                    events[second.view()[key] as int].1,
                    events[first[key] as int].1,
                    distances,
                    mainline_len,
                ) {
                    second.view()[key]
                } else {
                    first[key]
                }
            } else if old_in {
                first[key]
            } else {
                second.view()[key]
            }
        }
}

/// Merges the winners of a range into those of the range before it.
fn merge_lattice_winners(
    key_winners: &mut StateMap<usize>,
    chunk_winners: &StateMap<usize>,
    events: &TextMap<LeanEvent>,
    mainline_distances: &TextMap<usize>,
    mainline_len: usize,
    Ghost(authorized): Ghost<Seq<bool>>,
    Ghost(mid): Ghost<int>,
    Ghost(hi): Ghost<int>,
)
    requires
        old(key_winners).wf(),
        chunk_winners.wf(),
        events_wf(*events),
        mainline_distances.wf(),
        0 <= mid <= hi <= events.entries@.len(),
        winners_of(
            old(key_winners).view(),
            events.entries@,
            authorized,
            mainline_distances.view(),
            mainline_len as nat,
            0,
            mid,
        ),
        winners_of(
            chunk_winners.view(),
            events.entries@,
            authorized,
            mainline_distances.view(),
            mainline_len as nat,
            mid,
            hi,
        ),
    ensures
        final(key_winners).wf(),
        winners_of(
            final(key_winners).view(),
            events.entries@,
            authorized,
            mainline_distances.view(),
            mainline_len as nat,
            0,
            hi,
        ),
{
    let ghost first = key_winners.view();
    let ghost second = chunk_winners.view();
    let ghost all = events.entries@;
    let ghost d = mainline_distances.view();
    let ghost n = mainline_len as nat;
    proof {
        assert forall|k: KeyText| #[trigger] first.contains_key(k) implies first[k]
            < events.entries.len() by {
            assert(competes(all, authorized, 0, mid, k, first[k] as int));
        }
        assert forall|k: KeyText| #[trigger] second.contains_key(k) implies second[k]
            < events.entries.len() by {
            assert(competes(all, authorized, mid, hi, k, second[k] as int));
        }
    }
    let mut index: usize = 0;
    while index < chunk_winners.entries.len()
        invariant
            index <= chunk_winners.entries.len(),
            key_winners.wf(),
            chunk_winners.wf(),
            events_wf(*events),
            mainline_distances.wf(),
            d == mainline_distances.view(),
            n == mainline_len,
            all == events.entries@,
            second == chunk_winners.view(),
            forall|k: KeyText| #[trigger]
                first.contains_key(k) ==> first[k] < events.entries.len(),
            forall|k: KeyText| #[trigger]
                second.contains_key(k) ==> second[k] < events.entries.len(),
            merged_upto(first, *chunk_winners, index as int, key_winners.view(), all, d, n),
        decreases chunk_winners.entries.len() - index,
    {
        let entry: &(StateKey, usize) = &chunk_winners.entries[index];
        let ghost before = key_winners.view();
        proof {
            chunk_winners.entry_facts(index as int);
            assert forall|k: KeyText| #[trigger] before.contains_key(k) implies before[k]
                < events.entries.len() by {
                if !first.contains_key(k) {
                    let i = choose|i: int|
                        0 <= i < index && (#[trigger] chunk_winners.entries@[i]).0@ == k;
                    chunk_winners.entry_facts(i);
                }
                assert(first.contains_key(k) ==> first[k] < events.entries.len());
                assert(second.contains_key(k) ==> second[k] < events.entries.len());
                if first.contains_key(k) && (exists|i: int|
                    0 <= i < index && (#[trigger] chunk_winners.entries@[i]).0@ == k) {
                    let i = choose|i: int|
                        0 <= i < index && (#[trigger] chunk_winners.entries@[i]).0@ == k;
                    chunk_winners.entry_facts(i);
                }
            }
        }
        let key: StateKey = copy_key(&entry.0);
        update_winner_if_better(
            key_winners,
            key,
            entry.1,
            events,
            mainline_distances,
            mainline_len,
        );
        proof {
            let now = key_winners.view();
            let here = entry.0@;
            assert forall|k: KeyText|
                {
                    let seen = exists|i: int|
                        0 <= i < index + 1 && (#[trigger] chunk_winners.entries@[i]).0@ == k;
                    let old_in = first.contains_key(k);
                    &&& #[trigger] now.contains_key(k) <==> old_in || seen
                    &&& now.contains_key(k) ==> now[k] == if old_in && seen {
                        if beats(all[second[k] as int].1, all[first[k] as int].1, d, n) {
                            second[k]
                        } else {
                            first[k]
                        }
                    } else if old_in {
                        first[k]
                    } else {
                        second[k]
                    }
                } by {
                assert(before.contains_key(k) <==> first.contains_key(k) || (exists|i: int|
                    0 <= i < index && (#[trigger] chunk_winners.entries@[i]).0@ == k));
                if k == here {
                    assert(chunk_winners.entries@[index as int].0@ == k);
                    assert forall|i: int| 0 <= i < index implies (
                    #[trigger] chunk_winners.entries@[i]).0@ != k by {
                        assert(key_less(
                            chunk_winners.entries@[i].0@,
                            chunk_winners.entries@[index as int].0@,
                        ));
                    }
                } else {
                    if exists|i: int|
                        0 <= i < index + 1 && (#[trigger] chunk_winners.entries@[i]).0@ == k {
                        let i = choose|i: int|
                            0 <= i < index + 1 && (#[trigger] chunk_winners.entries@[i]).0@ == k;
                        assert(i < index);
                    }
                }
            }
        }
        index = index + 1;
    }
    proof {
        let now = key_winners.view();
        assert forall|key: KeyText|
            {
                &&& #[trigger] now.contains_key(key) <==> exists|i: int|
                    competes(all, authorized, 0, hi, key, i)
                &&& now.contains_key(key) ==> wins(
                    all,
                    authorized,
                    d,
                    n,
                    0,
                    hi,
                    key,
                    now[key] as int,
                )
            } by {
            let seen = exists|i: int|
                0 <= i < chunk_winners.entries@.len() && (
                #[trigger] chunk_winners.entries@[i]).0@ == key;
            assert(seen == second.contains_key(key));
            assert(first.contains_key(key) <==> exists|i: int|
                competes(all, authorized, 0, mid, key, i));
            assert(second.contains_key(key) <==> exists|i: int|
                competes(all, authorized, mid, hi, key, i));
            assert(now.contains_key(key) <==> first.contains_key(key) || seen);
            if first.contains_key(key) && second.contains_key(key) {
                combine_winners(
                    *events,
                    authorized,
                    d,
                    n,
                    0,
                    mid,
                    hi,
                    key,
                    first[key] as int,
                    second[key] as int,
                );
                assert(competes(all, authorized, 0, hi, key, now[key] as int));
            } else if first.contains_key(key) {
                let i = first[key] as int;
                assert(competes(all, authorized, 0, hi, key, i));
                assert forall|j: int| #[trigger]
                    competes(all, authorized, 0, hi, key, j) && j != i implies beats(
                    all[i].1,
                    all[j].1,
                    d,
                    n,
                ) by {
                    if j >= mid {
                        assert(competes(all, authorized, mid, hi, key, j));
                    }
                    assert(competes(all, authorized, 0, mid, key, j));
                }
            } else if second.contains_key(key) {
                let i = second[key] as int;
                assert(competes(all, authorized, 0, hi, key, i));
                assert forall|j: int| #[trigger]
                    competes(all, authorized, 0, hi, key, j) && j != i implies beats(
                    all[i].1,
                    all[j].1,
                    d,
                    n,
                ) by {
                    if j < mid {
                        assert(competes(all, authorized, 0, mid, key, j));
                    }
                    assert(competes(all, authorized, mid, hi, key, j));
                }
            } else {
                assert forall|i: int| !competes(all, authorized, 0, hi, key, i) by {
                    if competes(all, authorized, 0, hi, key, i) {
                        if i < mid {
                            assert(competes(all, authorized, 0, mid, key, i));
                        } else {
                            assert(competes(all, authorized, mid, hi, key, i));
                        }
                    }
                }
            }
        }
    }
}

/// A copy of a key.
pub(crate) fn copy_key(key: &StateKey) -> (copy: StateKey)
    ensures
        copy@ == key@,
{
    let state_key: Option<String> = match &key.state_key {
        Some(text) => Some(String::from_str(text.as_str())),
        None => None,
    };
    StateKey { event_type: String::from_str(key.event_type.as_str()), state_key }
}

/// The winners of all events, folded in chunks of a size. The size does not
/// matter for the result.
pub fn compute_lattice_coordinatized_winners(
    events: &TextMap<LeanEvent>,
    authorized: &[bool],
    mainline_distances: &TextMap<usize>,
    mainline_len: usize,
    chunk_size: usize,
) -> (winners: StateMap<usize>)
    requires
        events_wf(*events),
        authorized@.len() == events.entries.len(),
        mainline_distances.wf(),
        chunk_size > 0,
    ensures
        winners.wf(),
        winners_of(
            winners.view(),
            events.entries@,
            authorized@,
            mainline_distances.view(),
            mainline_len as nat,
            0,
            events.entries@.len() as int,
        ),
{
    let mut winners: StateMap<usize> = StateMap::new();
    let mut place: usize = 0;
    while place < events.entries.len()
        invariant
            place <= events.entries.len(),
            events_wf(*events),
            authorized@.len() == events.entries.len(),
            mainline_distances.wf(),
            chunk_size > 0,
            winners.wf(),
            winners_of(
                winners.view(),
                events.entries@,
                authorized@,
                mainline_distances.view(),
                mainline_len as nat,
                0,
                place as int,
            ),
        decreases events.entries.len() - place,
    {
        let hi: usize = if events.entries.len() - place > chunk_size {
            place + chunk_size
        } else {
            events.entries.len()
        };
        let chunk: StateMap<usize> = fold_lattice_chunk(
            events,
            place,
            hi,
            authorized,
            mainline_distances,
            mainline_len,
        );
        merge_lattice_winners(
            &mut winners,
            &chunk,
            events,
            mainline_distances,
            mainline_len,
            Ghost(authorized@),
            Ghost(place as int),
            Ghost(hi as int),
        );
        place = hi;
    }
    winners
}

/// The winners do not depend on how the fold was split.
pub proof fn winners_unique(
    a: Map<KeyText, usize>,
    b: Map<KeyText, usize>,
    events: TextMap<LeanEvent>,
    authorized: Seq<bool>,
    distances: Map<Seq<char>, usize>,
    mainline_len: nat,
)
    requires
        events_wf(events),
        winners_of(
            a,
            events.entries@,
            authorized,
            distances,
            mainline_len,
            0,
            events.entries@.len() as int,
        ),
        winners_of(
            b,
            events.entries@,
            authorized,
            distances,
            mainline_len,
            0,
            events.entries@.len() as int,
        ),
    ensures
        a == b,
{
    let all = events.entries@;
    let n = all.len() as int;
    assert forall|key: KeyText| #[trigger] a.contains_key(key) == b.contains_key(key) by {}
    assert forall|key: KeyText| #[trigger] a.contains_key(key) implies a[key] == b[key] by {
        let i = a[key] as int;
        let j = b[key] as int;
        assert(b.contains_key(key));
        assert(wins(all, authorized, distances, mainline_len, 0, n, key, i));
        assert(wins(all, authorized, distances, mainline_len, 0, n, key, j));
        if i != j {
            assert(competes(all, authorized, 0, n, key, i));
            assert(competes(all, authorized, 0, n, key, j));
            distinct_ids(events, i, j);
            winner_total(all[i].1, all[j].1, distances, mainline_len);
        }
    }
    assert(a =~= b);
}

/// The event affects the room's administrative state.
pub open spec fn is_power(event: LeanEvent, version: StateResVersion) -> bool {
    ||| event.event_type@ == "m.room.create"@
    ||| event.event_type@ == "m.room.power_levels"@
    ||| event.event_type@ == "m.room.join_rules"@
    ||| if version == StateResVersion::V2_1 || version == StateResVersion::V2_1_1 || version
        == StateResVersion::V2_2 {
        event.bans_or_kicks()
    } else {
        event.event_type@ == "m.room.member"@
    }
}

/// Whether the event affects the room's administrative state.
fn is_power_event(event: &LeanEvent, version: StateResVersion) -> (result: bool)
    requires
        object_wf(event.content),
    ensures
        result == is_power(*event, version),
{
    let event_type: &str = event.event_type.as_str();
    if text_equal(event_type, "m.room.create") || text_equal(event_type, "m.room.power_levels")
        || text_equal(event_type, "m.room.join_rules") {
        return true;
    }
    match version {
        StateResVersion::V2_1 | StateResVersion::V2_1_1 | StateResVersion::V2_2 => {
            event.is_ban_or_kick()
        },
        StateResVersion::V1 | StateResVersion::V2 => text_equal(event_type, "m.room.member"),
    }
}

/// The power events and the other events, both in order.
pub open spec fn routing(
    events: Seq<(String, LeanEvent)>,
    version: StateResVersion,
    power: Seq<(String, LeanEvent)>,
    others: Seq<(String, LeanEvent)>,
) -> bool {
    &&& power == events.filter(|entry: (String, LeanEvent)| is_power(entry.1, version))
    &&& others == events.filter(|entry: (String, LeanEvent)| !is_power(entry.1, version))
}

/// Classifies conflicted events into power events and non-power events.
///
/// Power events are those that affect the room's administrative state:
/// - `m.room.create`
/// - `m.room.power_levels`
/// - `m.room.join_rules`
/// - `m.room.member` events that are bans or kicks (from version 2.1 on; earlier
///   versions treat all member events as power events)
///
/// Non-power events are everything else. The first map that is returned holds
/// the power events.
pub fn route_power_events(sort_set: TextMap<LeanEvent>, version: StateResVersion) -> (routed: (
    TextMap<LeanEvent>,
    TextMap<LeanEvent>,
))
    requires
        events_wf(sort_set),
    ensures
        events_wf(routed.0),
        events_wf(routed.1),
        routing(sort_set.entries@, version, routed.0.entries@, routed.1.entries@),
{
    let ghost all = sort_set.entries@;
    let ghost power = |entry: (String, LeanEvent)| is_power(entry.1, version);
    let ghost plain = |entry: (String, LeanEvent)| !is_power(entry.1, version);
    let mut pending: Vec<(String, LeanEvent)> = reversed(sort_set.entries);
    let mut power_events: TextMap<LeanEvent> = TextMap { entries: Vec::new() };
    let mut non_power_events: TextMap<LeanEvent> = TextMap { entries: Vec::new() };
    proof {
        reveal(Seq::filter);
        assert(all.take(0).len() == 0);
        assert(power_events.entries@ =~= all.take(0).filter(power));
        assert(non_power_events.entries@ =~= all.take(0).filter(plain));
    }
    while pending.len() > 0
        invariant
            sort_set.entries@ == all,
            events_wf(sort_set),
            power == (|entry: (String, LeanEvent)| is_power(entry.1, version)),
            plain == (|entry: (String, LeanEvent)| !is_power(entry.1, version)),
            pending@.len() <= all.len(),
            forall|i: int|
                0 <= i < pending@.len() ==> #[trigger] pending@[i] == all[all.len() - 1 - i],
            events_wf(power_events),
            events_wf(non_power_events),
            power_events.entries@ == all.take(all.len() - pending@.len()).filter(power),
            non_power_events.entries@ == all.take(all.len() - pending@.len()).filter(plain),
            forall|i: int, j: int|
                0 <= i < power_events.entries@.len() && all.len() - pending@.len() <= j < all.len()
                    ==> text_less(
                    (#[trigger] power_events.entries@[i]).0@,
                    (#[trigger] all[j]).0@,
                ),
            forall|i: int, j: int|
                0 <= i < non_power_events.entries@.len() && all.len() - pending@.len() <= j
                    < all.len() ==> text_less(
                    (#[trigger] non_power_events.entries@[i]).0@,
                    (#[trigger] all[j]).0@,
                ),
        decreases pending.len(),
    {
        let ghost at = all.len() - pending@.len();
        let ghost before = all.take(at);
        let ghost after = all.take(at + 1);
        match pending.pop() {
            Some(entry) => {
                proof {
                    reveal(Seq::filter);
                    assert(entry == all[at]);
                    assert(after.drop_last() =~= before);
                    assert(after.last() == entry);
                    assert(object_wf(all[at].1.content));
                    assert forall|j: int| at < j < all.len() implies text_less(
                        entry.0@,
                        (#[trigger] all[j]).0@,
                    ) by {
                        assert(text_less(all[at].0@, all[j].0@));
                    }
                }
                if is_power_event(&entry.1, version) {
                    power_events.entries.push(entry);
                } else {
                    non_power_events.entries.push(entry);
                }
            },
            None => {},
        }
    }
    proof {
        assert(all.take(all.len() - pending@.len()) =~= all);
    }
    (power_events, non_power_events)
}

/// The id that resolution gives a key: that of the winner, else that of the
/// power phase, else the unconflicted one.
pub open spec fn resolved_id(
    unconflicted: Map<KeyText, String>,
    resolved: Map<KeyText, String>,
    winners: Map<KeyText, usize>,
    events: Seq<(String, LeanEvent)>,
    key: KeyText,
) -> Option<Seq<char>> {
    if winners.contains_key(key) {
        Some(events[winners[key] as int].1.event_id@)
    } else if resolved.contains_key(key) {
        Some(resolved[key]@)
    } else if unconflicted.contains_key(key) {
        Some(unconflicted[key]@)
    } else {
        None
    }
}

/// The id under a key.
pub open spec fn id_under(state: Map<KeyText, String>, key: KeyText) -> Option<Seq<char>> {
    if state.contains_key(key) {
        Some(state[key]@)
    } else {
        None
    }
}

/// Writes ids over those of a state.
fn overwrite(state: &mut StateMap<String>, over: StateMap<String>)
    requires
        old(state).wf(),
        over.wf(),
    ensures
        final(state).wf(),
        forall|key: KeyText| #[trigger]
            id_under(final(state).view(), key) == if over.view().contains_key(key) {
                Some(over.view()[key]@)
            } else {
                id_under(old(state).view(), key)
            },
{
    let ghost before = state.view();
    let ghost whole = over;
    let mut pending: Vec<(StateKey, String)> = over.entries;
    proof {
        assert forall|key: KeyText| #[trigger]
            id_under(state.view(), key) == (if exists|i: int|
                pending@.len() <= i < whole.entries@.len() && (
                #[trigger] whole.entries@[i]).0@ == key {
                Some(whole.view()[key]@)
            } else {
                id_under(before, key)
            }) by {}
    }
    while pending.len() > 0
        invariant
            state.wf(),
            whole.wf(),
            pending@ =~= whole.entries@.take(pending@.len() as int),
            pending@.len() <= whole.entries@.len(),
            forall|key: KeyText| #[trigger]
                id_under(state.view(), key) == (if exists|i: int|
                    pending@.len() <= i < whole.entries@.len() && (
                    #[trigger] whole.entries@[i]).0@ == key {
                    Some(whole.view()[key]@)
                } else {
                    id_under(before, key)
                }),
        decreases pending.len(),
    {
        let ghost now = state.view();
        let ghost last = pending@.len() - 1;
        match pending.pop() {
            Some(entry) => {
                let ghost text = entry.0@;
                proof {
                    assert(entry == whole.entries@[last]);
                    whole.entry_facts(last);
                }
                state.insert(entry.0, entry.1);
                proof {
                    assert forall|key: KeyText| #[trigger]
                        id_under(state.view(), key) == (if exists|i: int|
                            last <= i < whole.entries@.len() && (
                            #[trigger] whole.entries@[i]).0@ == key {
                            Some(whole.view()[key]@)
                        } else {
                            id_under(before, key)
                        }) by {
                        assert(id_under(now, key) == (if exists|i: int|
                            last + 1 <= i < whole.entries@.len() && (
                            #[trigger] whole.entries@[i]).0@ == key {
                            Some(whole.view()[key]@)
                        } else {
                            id_under(before, key)
                        }));
                        if key == text {
                            assert(whole.entries@[last].0@ == key);
                        } else if exists|i: int|
                            last <= i < whole.entries@.len() && (
                            #[trigger] whole.entries@[i]).0@ == key {
                            let i = choose|i: int|
                                last <= i < whole.entries@.len() && (
                                #[trigger] whole.entries@[i]).0@ == key;
                            assert(last + 1 <= i);
                        }
                    }
                }
            },
            None => {},
        }
    }
    proof {
        assert forall|key: KeyText| #[trigger]
            id_under(state.view(), key) == if whole.view().contains_key(key) {
                Some(whole.view()[key]@)
            } else {
                id_under(before, key)
            } by {
            assert(whole.view().contains_key(key) == exists|i: int|
                0 <= i < whole.entries@.len() && (#[trigger] whole.entries@[i]).0@ == key);
        }
    }
}

/// The state that resolution gives.
pub open spec fn lattice_resolution(
    unconflicted: Map<KeyText, String>,
    resolved: Map<KeyText, String>,
    events: Seq<(String, LeanEvent)>,
    authorized: Seq<bool>,
    distances: Map<Seq<char>, usize>,
    mainline_len: nat,
    state: Map<KeyText, String>,
) -> bool {
    exists|winners: Map<KeyText, usize>|
        {
            &&& #[trigger] winners_of(
                winners,
                events,
                authorized,
                distances,
                mainline_len,
                0,
                events.len() as int,
            )
            &&& forall|key: KeyText| #[trigger]
                id_under(state, key) == resolved_id(unconflicted, resolved, winners, events, key)
        }
}

/// Resolves conflicted state by causal coordinatization and commutative
/// join-semilattice folding.
///
/// `resolved` is the state after the power phase, `authorized` says for each
/// non-power event whether it passed the authorization check against that state,
/// and `mainline_distances` gives the mainline positions. Each authorized event
/// competes for its `(type, state_key)` slot under [`is_lattice_winner_better`].
#[must_use]
pub fn resolve_lattice_coordinatized(
    unconflicted_state: StateMap<String>,
    resolved: StateMap<String>,
    non_power_events: &TextMap<LeanEvent>,
    authorized: &[bool],
    mainline_distances: &TextMap<usize>,
    mainline_len: usize,
    chunk_size: usize,
) -> (state: StateMap<String>)
    requires
        unconflicted_state.wf(),
        resolved.wf(),
        events_wf(*non_power_events),
        authorized@.len() == non_power_events.entries.len(),
        mainline_distances.wf(),
        chunk_size > 0,
    ensures
        state.wf(),
        lattice_resolution(
            unconflicted_state.view(),
            resolved.view(),
            non_power_events.entries@,
            authorized@,
            mainline_distances.view(),
            mainline_len as nat,
            state.view(),
        ),
{
    let ghost base = unconflicted_state.view();
    let ghost power = resolved.view();
    let ghost all = non_power_events.entries@;
    let winners: StateMap<usize> = compute_lattice_coordinatized_winners(
        non_power_events,
        authorized,
        mainline_distances,
        mainline_len,
        chunk_size,
    );
    let mut state: StateMap<String> = unconflicted_state;
    overwrite(&mut state, resolved);
    let mut ids: StateMap<String> = StateMap { entries: Vec::new() };
    let mut index: usize = 0;
    while index < winners.entries.len()
        invariant
            index <= winners.entries.len(),
            winners.wf(),
            events_wf(*non_power_events),
            all == non_power_events.entries@,
            winners_of(
                winners.view(),
                all,
                authorized@,
                mainline_distances.view(),
                mainline_len as nat,
                0,
                all.len() as int,
            ),
            ids.entries@.len() == index,
            forall|i: int|
                0 <= i < index ==> (#[trigger] ids.entries@[i]).0@ == winners.entries@[i].0@
                    && ids.entries@[i].1@ == all[winners.entries@[i].1 as int].1.event_id@,
        decreases winners.entries.len() - index,
    {
        let entry: &(StateKey, usize) = &winners.entries[index];
        proof {
            winners.entry_facts(index as int);
            assert(competes(all, authorized@, 0, all.len() as int, entry.0@, entry.1 as int));
        }
        let id: String = String::from_str(
            non_power_events.entries[entry.1].1.event_id.as_str(),
        );
        ids.entries.push((copy_key(&entry.0), id));
        index = index + 1;
    }
    proof {
        assert(ids.wf()) by {
            assert forall|i: int, j: int| 0 <= i < j < ids.entries@.len() implies
                key_less(
                (#[trigger] ids.entries@[i]).0@,
                (#[trigger] ids.entries@[j]).0@,
            ) by {
                assert(key_less(
                    winners.entries@[i].0@,
                    winners.entries@[j].0@,
                ));
            }
        }
        assert forall|key: KeyText| #[trigger] ids.view().contains_key(key)
            == winners.view().contains_key(key) && (winners.view().contains_key(key)
            ==> ids.view()[key]@ == all[winners.view()[key] as int].1.event_id@) by {
            if ids.view().contains_key(key) {
                let i = key_position(ids.entries@, key);
                assert(winners.entries@[i].0@ == key);
                winners.entry_facts(i);
            }
            if winners.view().contains_key(key) {
                let i = key_position(winners.entries@, key);
                assert(ids.entries@[i].0@ == key);
                ids.entry_facts(i);
                winners.entry_facts(i);
            }
        }
    }
    let ghost won = ids.view();
    let ghost middle = state.view();
    overwrite(&mut state, ids);
    proof {
        assert forall|key: KeyText| #[trigger]
            id_under(state.view(), key) == resolved_id(base, power, winners.view(), all, key) by {
            assert(id_under(middle, key) == if power.contains_key(key) {
                Some(power[key]@)
            } else {
                id_under(base, key)
            });
            assert(won.contains_key(key) == winners.view().contains_key(key));
        }
        assert(winners_of(
            winners.view(),
            all,
            authorized@,
            mainline_distances.view(),
            mainline_len as nat,
            0,
            all.len() as int,
        ));
    }
    state
}

} // verus!
