//! Reference counts of persisted nodes, kept along a chain of roots.
//!
//! A root that is persisted counts up the nodes that it introduces; a root that
//! is retired counts down the nodes that its successor superseded. A node whose
//! count reaches zero can be collected, unless a root outside the chain still
//! reaches it.

use vstd::prelude::*;
use vstd::string::StringExecFns;
use super::hash::{same_hash, StructuralHash};
use super::node::hash_views;
use super::table::HashTable;

verus! {

/// How many live roots introduced each node hash.
#[derive(Debug, Clone, PartialEq, Eq)]
pub struct RefcountTable {
    pub counts: HashTable<u64>,
}

/// A hash was counted down more often than it had been counted up.
#[derive(Debug, Clone, Copy, PartialEq, Eq)]
pub struct RefcountUnderflow {
    pub hash: StructuralHash,
}

impl RefcountUnderflow {
    /// The error as text.
    pub fn message(&self) -> (text: String)
        ensures
            text@
                == "refcount underflow: decremented a hash with no tracked positive count (missing or out-of-order apply_new, or a double decrement)"@,
    {
        String::from_str(
            "refcount underflow: decremented a hash with no tracked positive count (missing or out-of-order apply_new, or a double decrement)",
        )
    }
}

/// How often a hash occurs among the first of a list.
pub open spec fn occurrences(hashes: Seq<StructuralHash>, hash: Seq<u8>, n: nat) -> nat
    decreases n,
{
    if n == 0 {
        0
    } else {
        occurrences(hashes, hash, (n - 1) as nat) + if hashes[n - 1]@ == hash {
            1nat
        } else {
            0
        }
    }
}

proof fn occurrences_grow(hashes: Seq<StructuralHash>, hash: Seq<u8>, n: nat, m: nat)
    requires
        n <= m,
    ensures
        occurrences(hashes, hash, n) <= occurrences(hashes, hash, m) <= m,
    decreases m,
{
    if n < m {
        occurrences_grow(hashes, hash, n, (m - 1) as nat);
    } else if m > 0 {
        occurrences_grow(hashes, hash, (n - 1) as nat, (m - 1) as nat);
    }
}

/// The hashes whose last count is taken by the first of a list, in the order in
/// which they lose it.
pub open spec fn zeroed_upto(
    counts: spec_fn(Seq<u8>) -> nat,
    hashes: Seq<StructuralHash>,
    n: nat,
) -> Seq<Seq<u8>>
    decreases n,
{
    if n == 0 {
        Seq::empty()
    } else {
        let before = zeroed_upto(counts, hashes, (n - 1) as nat);
        let hash = hashes[n - 1]@;
        if occurrences(hashes, hash, n) == counts(hash) {
            before.push(hash)
        } else {
            before
        }
    }
}

impl RefcountTable {
    /// Hashes that are tracked have a positive count.
    pub open spec fn wf(&self) -> bool {
        &&& self.counts.wf()
        &&& forall|hash: Seq<u8>| #[trigger]
            self.counts.view().contains_key(hash) ==> self.counts.view()[hash] > 0
    }

    /// The count of a hash, which is zero where it is not tracked.
    pub open spec fn count_of(&self, hash: Seq<u8>) -> nat {
        if self.counts.view().contains_key(hash) {
            self.counts.view()[hash] as nat
        } else {
            0
        }
    }

    /// The counts of all hashes.
    pub open spec fn all_counts(&self) -> spec_fn(Seq<u8>) -> nat {
        |hash: Seq<u8>| self.count_of(hash)
    }

    /// A table that tracks nothing.
    pub fn new() -> (table: Self)
        ensures
            table.wf(),
            forall|hash: Seq<u8>| #[trigger] table.count_of(hash) == 0,
    {
        RefcountTable { counts: HashTable::new() }
    }

    /// Whether no hash is tracked.
    pub fn is_empty(&self) -> (result: bool)
        requires
            self.wf(),
        ensures
            result == forall|hash: Seq<u8>| #[trigger] self.count_of(hash) == 0,
    {
        let result: bool = self.counts.entries.len() == 0;
        proof {
            if !result {
                self.counts.entry_facts(0);
                assert(self.count_of(self.counts.entries@[0].0@) > 0);
            }
        }
        result
    }

    /// How many hashes are tracked.
    pub fn len(&self) -> (count: usize)
        requires
            self.wf(),
        ensures
            count == self.counts.view().dom().len(),
    {
        self.counts.len()
    }

    /// The count of a hash.
    pub fn count(&self, hash: &StructuralHash) -> (count: u64)
        requires
            self.wf(),
        ensures
            count == self.count_of(hash@),
    {
        match self.counts.get(hash) {
            Some(count) => *count,
            None => 0,
        }
    }

    /// Counts up every hash of a list, once for each time that it occurs. Called
    /// when a root that introduces these nodes is persisted.
    pub fn apply_new(&mut self, new_node_hashes: &[StructuralHash])
        requires
            old(self).wf(),
            forall|hash: Seq<u8>|
                #![trigger old(self).count_of(hash)]
                old(self).count_of(hash) + occurrences(
                    new_node_hashes@,
                    hash,
                    new_node_hashes@.len(),
                ) <= u64::MAX,
        ensures
            final(self).wf(),
            forall|hash: Seq<u8>| #[trigger]
                final(self).count_of(hash) == old(self).count_of(hash) + occurrences(
                    new_node_hashes@,
                    hash,
                    new_node_hashes@.len(),
                ),
    {
        let ghost before = *self;
        let ghost hashes = new_node_hashes@;
        let mut index: usize = 0;
        while index < new_node_hashes.len()
            invariant
                hashes == new_node_hashes@,
                index <= new_node_hashes.len(),
                self.wf(),
                forall|hash: Seq<u8>|
                    #![trigger before.count_of(hash)]
                    before.count_of(hash) + occurrences(hashes, hash, hashes.len()) <= u64::MAX,
                forall|hash: Seq<u8>| #[trigger]
                    self.count_of(hash) == before.count_of(hash) + occurrences(
                        hashes,
                        hash,
                        index as nat,
                    ),
            decreases new_node_hashes.len() - index,
        {
            let hash: StructuralHash = new_node_hashes[index];
            let ghost held = *self;
            let count: u64 = self.count(&hash);
            proof {
                assert(before.count_of(hash@) + occurrences(hashes, hash@, hashes.len())
                    <= u64::MAX);
                assert(self.count_of(hash@) == before.count_of(hash@) + occurrences(
                    hashes,
                    hash@,
                    index as nat,
                ));
                occurrences_grow(hashes, hash@, (index + 1) as nat, hashes.len());
            }
            self.counts.insert(hash, count + 1);
            proof {
                assert forall|other: Seq<u8>| #[trigger]
                    self.count_of(other) == before.count_of(other) + occurrences(
                        hashes,
                        other,
                        (index + 1) as nat,
                    ) by {
                    assert(held.count_of(other) == before.count_of(other) + occurrences(
                        hashes,
                        other,
                        index as nat,
                    ));
                }
            }
            index = index + 1;
        }
    }

    /// Seeds the counts from the hashes that live roots reach, once for each root
    /// that reaches them.
    pub fn bootstrap(&mut self, reachable: &[StructuralHash])
        requires
            old(self).wf(),
            forall|hash: Seq<u8>|
                #![trigger old(self).count_of(hash)]
                old(self).count_of(hash) + occurrences(reachable@, hash, reachable@.len())
                    <= u64::MAX,
        ensures
            final(self).wf(),
            forall|hash: Seq<u8>| #[trigger]
                final(self).count_of(hash) == old(self).count_of(hash) + occurrences(
                    reachable@,
                    hash,
                    reachable@.len(),
                ),
    {
        self.apply_new(reachable);
    }

    /// The first hash of a list that occurs more often than it has been counted.
    fn first_shortfall(&self, hashes: &[StructuralHash]) -> (found: Option<usize>)
        requires
            self.wf(),
        ensures
            match found {
                Some(i) => {
                    &&& i < hashes@.len()
                    &&& self.count_of(hashes@[i as int]@) < occurrences(
                        hashes@,
                        hashes@[i as int]@,
                        hashes@.len(),
                    )
                    &&& forall|j: int|
                        0 <= j < i ==> self.count_of((#[trigger] hashes@[j])@) >= occurrences(
                            hashes@,
                            hashes@[j]@,
                            hashes@.len(),
                        )
                },
                None => forall|j: int|
                    0 <= j < hashes@.len() ==> self.count_of((#[trigger] hashes@[j])@)
                        >= occurrences(hashes@, hashes@[j]@, hashes@.len()),
            },
    {
        let mut demand: RefcountTable = RefcountTable::new();
        proof {
            assert forall|hash: Seq<u8>|
                #![trigger demand.count_of(hash)]
                demand.count_of(hash) + occurrences(hashes@, hash, hashes@.len()) <= u64::MAX by {
                occurrences_grow(hashes@, hash, 0, hashes@.len());
                assert(hashes@.len() == hashes.len());
            }
        }
        demand.apply_new(hashes);
        let mut index: usize = 0;
        while index < hashes.len()
            invariant
                self.wf(),
                demand.wf(),
                index <= hashes.len(),
                forall|hash: Seq<u8>| #[trigger]
                    demand.count_of(hash) == occurrences(hashes@, hash, hashes@.len()),
                forall|j: int|
                    0 <= j < index ==> self.count_of((#[trigger] hashes@[j])@) >= occurrences(
                        hashes@,
                        hashes@[j]@,
                        hashes@.len(),
                    ),
            decreases hashes.len() - index,
        {
            if self.count(&hashes[index]) < demand.count(&hashes[index]) {
                return Some(index);
            }
            index = index + 1;
        }
        None
    }

    /// Counts down every hash of a list, once for each time that it occurs, and
    /// returns those whose count reached zero. Called when a root is retired
    /// whose only successor superseded these nodes.
    ///
    /// # Errors
    /// Returns [`RefcountUnderflow`] with the first hash that occurs more often
    /// than it has been counted. Nothing is changed then.
    pub fn apply_superseded(&mut self, superseded_node_hashes: &[StructuralHash]) -> (result: Result<
        Vec<StructuralHash>,
        RefcountUnderflow,
    >)
        requires
            old(self).wf(),
        ensures
            final(self).wf(),
            match result {
                Ok(zeroed) => {
                    &&& forall|j: int|
                        0 <= j < superseded_node_hashes@.len() ==> old(self).count_of(
                            (#[trigger] superseded_node_hashes@[j])@,
                        ) >= occurrences(
                            superseded_node_hashes@,
                            superseded_node_hashes@[j]@,
                            superseded_node_hashes@.len(),
                        )
                    &&& forall|hash: Seq<u8>| #[trigger]
                        final(self).count_of(hash) == old(self).count_of(hash) - occurrences(
                            superseded_node_hashes@,
                            hash,
                            superseded_node_hashes@.len(),
                        )
                    &&& hash_views(zeroed@) == zeroed_upto(
                        old(self).all_counts(),
                        superseded_node_hashes@,
                        superseded_node_hashes@.len(),
                    )
                },
                Err(underflow) => {
                    &&& *final(self) == *old(self)
                    &&& exists|i: int|
                        {
                            &&& 0 <= i < superseded_node_hashes@.len()
                            &&& underflow.hash@ == (#[trigger] superseded_node_hashes@[i])@
                            &&& old(self).count_of(underflow.hash@) < occurrences(
                                superseded_node_hashes@,
                                underflow.hash@,
                                superseded_node_hashes@.len(),
                            )
                            &&& forall|j: int|
                                0 <= j < i ==> old(self).count_of(
                                    (#[trigger] superseded_node_hashes@[j])@,
                                ) >= occurrences(
                                    superseded_node_hashes@,
                                    superseded_node_hashes@[j]@,
                                    superseded_node_hashes@.len(),
                                )
                        }
                },
            },
    {
        let ghost before = *self;
        let ghost hashes = superseded_node_hashes@;
        match self.first_shortfall(superseded_node_hashes) {
            Some(i) => {
                return Err(RefcountUnderflow { hash: superseded_node_hashes[i] });
            },
            None => {},
        }
        let mut zeroed: Vec<StructuralHash> = Vec::new();
        let mut index: usize = 0;
        proof {
            assert(hash_views(zeroed@) =~= Seq::empty());
        }
        while index < superseded_node_hashes.len()
            invariant
                hashes == superseded_node_hashes@,
                index <= superseded_node_hashes.len(),
                self.wf(),
                forall|j: int|
                    0 <= j < hashes.len() ==> before.count_of((#[trigger] hashes[j])@)
                        >= occurrences(hashes, hashes[j]@, hashes.len()),
                forall|hash: Seq<u8>| #[trigger]
                    self.count_of(hash) == before.count_of(hash) - occurrences(
                        hashes,
                        hash,
                        index as nat,
                    ),
                hash_views(zeroed@) == zeroed_upto(
                    before.all_counts(),
                    hashes,
                    index as nat,
                ),
            decreases superseded_node_hashes.len() - index,
        {
            let hash: StructuralHash = superseded_node_hashes[index];
            let ghost held = *self;
            let ghost listed = zeroed@;
            let count: u64 = self.count(&hash);
            proof {
                assert(before.count_of(hashes[index as int]@) >= occurrences(
                    hashes,
                    hash@,
                    hashes.len(),
                ));
                occurrences_grow(hashes, hash@, (index + 1) as nat, hashes.len());
                assert(self.count_of(hash@) == before.count_of(hash@) - occurrences(
                    hashes,
                    hash@,
                    index as nat,
                ));
            }
            if count == 1 {
                self.counts.remove(&hash);
                zeroed.push(hash);
                proof {
                    assert(hash_views(zeroed@) =~= hash_views(listed).push(hash@));
                }
            } else {
                self.counts.insert(hash, count - 1);
            }
            proof {
                assert((before.all_counts())(hash@) == before.count_of(hash@));
                assert forall|other: Seq<u8>| #[trigger]
                    self.count_of(other) == before.count_of(other) - occurrences(
                        hashes,
                        other,
                        (index + 1) as nat,
                    ) by {
                    assert(held.count_of(other) == before.count_of(other) - occurrences(
                        hashes,
                        other,
                        index as nat,
                    ));
                }
            }
            index = index + 1;
        }
        Ok(zeroed)
    }

    /// The first collected hash that a root outside the chain still reaches.
    /// Collecting such a hash would corrupt that root.
    pub fn first_reachable_elsewhere(
        zeroed: &[StructuralHash],
        other_live_roots_reachable: &[StructuralHash],
    ) -> (found: Option<StructuralHash>)
        ensures
            match found {
                Some(hash) => exists|i: int|
                    {
                        &&& 0 <= i < zeroed@.len()
                        &&& hash@ == (#[trigger] zeroed@[i])@
                        &&& hash_views(other_live_roots_reachable@).contains(hash@)
                        &&& forall|j: int|
                            0 <= j < i ==> !hash_views(other_live_roots_reachable@).contains(
                                (#[trigger] zeroed@[j])@,
                            )
                    },
                None => forall|j: int|
                    0 <= j < zeroed@.len() ==> !hash_views(
                        other_live_roots_reachable@,
                    ).contains((#[trigger] zeroed@[j])@),
            },
    {
        let mut index: usize = 0;
        while index < zeroed.len()
            invariant
                index <= zeroed.len(),
                forall|j: int|
                    0 <= j < index ==> !hash_views(other_live_roots_reachable@).contains(
                        (#[trigger] zeroed@[j])@,
                    ),
            decreases zeroed.len() - index,
        {
            if lists_hash(other_live_roots_reachable, &zeroed[index]) {
                return Some(zeroed[index]);
            }
            index = index + 1;
        }
        None
    }
}

/// Whether a list has a hash.
fn lists_hash(hashes: &[StructuralHash], hash: &StructuralHash) -> (found: bool)
    ensures
        found == hash_views(hashes@).contains(hash@),
{
    let mut index: usize = 0;
    while index < hashes.len()
        invariant
            index <= hashes.len(),
            forall|i: int| 0 <= i < index ==> #[trigger] hash_views(hashes@)[i] != hash@,
        decreases hashes.len() - index,
    {
        if same_hash(&hashes[index], hash) {
            proof {
                assert(hash_views(hashes@)[index as int] == hash@);
            }
            return true;
        }
        index = index + 1;
    }
    false
}

/// Counting down what was counted up restores every count, and reports exactly
/// the hashes that had not been tracked before.
pub proof fn superseding_undoes_applying(
    before: RefcountTable,
    applied: RefcountTable,
    hashes: Seq<StructuralHash>,
)
    requires
        before.wf(),
        forall|hash: Seq<u8>| #[trigger]
            applied.count_of(hash) == before.count_of(hash) + occurrences(
                hashes,
                hash,
                hashes.len(),
            ),
    ensures
        forall|j: int|
            0 <= j < hashes.len() ==> applied.count_of((#[trigger] hashes[j])@) >= occurrences(
                hashes,
                hashes[j]@,
                hashes.len(),
            ),
        forall|hash: Seq<u8>|
            #![trigger applied.count_of(hash)]
            applied.count_of(hash) - occurrences(hashes, hash, hashes.len()) == before.count_of(
                hash,
            ),
        forall|hash: Seq<u8>|
            #[trigger] zeroed_upto(applied.all_counts(), hashes, hashes.len()).contains(hash) <==> (
            before.count_of(hash) == 0 && occurrences(hashes, hash, hashes.len()) > 0),
{
    assert forall|hash: Seq<u8>|
        #[trigger] zeroed_upto(applied.all_counts(), hashes, hashes.len()).contains(hash) <==> (
        before.count_of(hash) == 0 && occurrences(hashes, hash, hashes.len()) > 0) by {
        zeroed_exactly(applied.all_counts(), hashes, hash, hashes.len());
        let total = occurrences(hashes, hash, hashes.len());
        assert((applied.all_counts())(hash) == applied.count_of(hash));
        if before.count_of(hash) == 0 && total > 0 {
            reaches(hashes, hash, hashes.len(), total);
        }
        if zeroed_upto(applied.all_counts(), hashes, hashes.len()).contains(hash) {
            let n = choose|n: nat|
                0 < n <= hashes.len() && hashes[n - 1]@ == hash && #[trigger] occurrences(
                    hashes,
                    hash,
                    n,
                ) == (applied.all_counts())(hash);
            occurrences_grow(hashes, hash, n, hashes.len());
            occurrences_grow(hashes, hash, (n - 1) as nat, n);
        }
    }
}

/// A hash is reported where the list reaches its count.
proof fn zeroed_exactly(
    counts: spec_fn(Seq<u8>) -> nat,
    hashes: Seq<StructuralHash>,
    hash: Seq<u8>,
    m: nat,
)
    requires
        m <= hashes.len(),
    ensures
        zeroed_upto(counts, hashes, m).contains(hash) <==> exists|n: nat|
            0 < n <= m && hashes[n - 1]@ == hash && #[trigger] occurrences(hashes, hash, n)
                == counts(hash),
    decreases m,
{
    let all = zeroed_upto(counts, hashes, m);
    if m > 0 {
        zeroed_exactly(counts, hashes, hash, (m - 1) as nat);
        let before = zeroed_upto(counts, hashes, (m - 1) as nat);
        let last = hashes[m - 1]@;
        let pushed = occurrences(hashes, last, m) == counts(last);
        if all.contains(hash) {
            let i = choose|i: int| 0 <= i < all.len() && all[i] == hash;
            if pushed && i == before.len() {
                assert(occurrences(hashes, hash, m) == counts(hash));
            } else {
                assert(before[i] == hash);
                assert(before.contains(hash));
            }
        }
        if exists|n: nat|
            0 < n <= m && hashes[n - 1]@ == hash && #[trigger] occurrences(hashes, hash, n)
                == counts(hash) {
            let n = choose|n: nat|
                0 < n <= m && hashes[n - 1]@ == hash && #[trigger] occurrences(hashes, hash, n)
                    == counts(hash);
            if n == m {
                assert(all[before.len() as int] == hash);
            } else {
                assert(before.contains(hash));
                let i = choose|i: int| 0 <= i < before.len() && before[i] == hash;
                assert(all[i] == hash);
            }
        }
    }
}

/// The occurrences of a hash reach every number up to their total.
proof fn reaches(hashes: Seq<StructuralHash>, hash: Seq<u8>, m: nat, total: nat)
    requires
        m <= hashes.len(),
        total == occurrences(hashes, hash, m),
        total > 0,
    ensures
        exists|n: nat|
            0 < n <= m && hashes[n - 1]@ == hash && #[trigger] occurrences(hashes, hash, n)
                == total,
    decreases m,
{
    if hashes[m - 1]@ == hash {
        assert(occurrences(hashes, hash, m) == total);
    } else {
        reaches(hashes, hash, (m - 1) as nat, total);
    }
}

} // verus!
