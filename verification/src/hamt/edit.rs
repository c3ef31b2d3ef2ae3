//! Nodes that differ from a node in one slot.

use std::sync::Arc;
use vstd::prelude::*;
use super::bitmap::{
    disjoint_slots, disjoint_updates, map_index, rank, rank_monotone, slot_set, slot_updates,
    with_slot, without_slot,
};
use super::codec::HamtCodec;
use super::hash::StructuralHash;
use super::node::{rebuild_node, share_all, HamtNode, NodeRef};
use super::read::clone_keeps;
use super::slots::{
    clone_leaves, inserted_at, removed_at, same_but, same_leaf, same_slot, updated_at,
};

verus! {

/// Two nodes with the same leaves and children agree in their slots, where the
/// bitmaps agree.
proof fn same_elsewhere<K: HamtCodec, V: HamtCodec>(
    a: HamtNode<K, V>,
    b: HamtNode<K, V>,
    slot: int,
)
    requires
        forall|t: int|
            0 <= t < 32 && t != slot ==> {
                &&& #[trigger] slot_set(a.datamap, t) == slot_set(b.datamap, t)
                &&& slot_set(a.datamap, t) ==> same_leaf(a.leaf(t), b.leaf(t))
            },
        forall|t: int|
            0 <= t < 32 && t != slot ==> {
                &&& #[trigger] slot_set(a.nodemap, t) == slot_set(b.nodemap, t)
                &&& slot_set(a.nodemap, t) ==> a.child(t) == b.child(t)
            },
    ensures
        same_but(a, b, slot),
{
    assert forall|t: int| 0 <= t < 32 && t != slot implies #[trigger] same_slot(a, b, t) by {
        assert(slot_set(a.datamap, t) == slot_set(b.datamap, t));
        assert(slot_set(a.nodemap, t) == slot_set(b.nodemap, t));
    }
}

/// The node with a new leaf in an empty slot.
pub(crate) fn with_leaf<K: HamtCodec + Clone, V: HamtCodec + Clone>(
    node: &HamtNode<K, V>,
    structural_key: &[u8],
    slot: usize,
    key: K,
    value: V,
) -> (changed: Arc<HamtNode<K, V>>)
    requires
        node.shape(),
        slot < 32,
        !slot_set(node.datamap, slot as int),
        !slot_set(node.nodemap, slot as int),
        key.encodable(),
        value.encodable(),
        clone_keeps::<K>(),
        clone_keeps::<V>(),
    ensures
        changed.shape(),
        changed.structural_hash@ == changed.digest(structural_key@),
        same_but(*node, *changed, slot as int),
        changed.nodemap == node.nodemap,
        changed.children@ == node.children@,
        changed.leaves@.len() == node.leaves@.len() + 1,
        slot_set(changed.datamap, slot as int),
        changed.leaf(slot as int) == (key, value),
{
    let mut leaves: Vec<(K, V)> = clone_leaves(&node.leaves);
    let ghost copies = leaves@;
    let index: usize = map_index(node.datamap, slot);
    proof {
        inserted_at(node.datamap, slot as int, copies, (key, value));
        disjoint_updates(node.datamap, node.nodemap, slot as int);
    }
    leaves.insert(index, (key, value));
    let ghost all = leaves@;
    proof {
        assert forall|i: int| 0 <= i < all.len() implies (#[trigger] all[i]).0.encodable()
            && all[i].1.encodable() by {
            if i < index {
                assert(all[i] == copies[i]);
            } else if i > index {
                assert(all[i] == copies[i - 1]);
            }
        }
    }
    let changed: Arc<HamtNode<K, V>> = rebuild_node(
        structural_key,
        node.datamap | (1u32 << (slot as u32)),
        node.nodemap,
        leaves,
        share_all(&node.children),
    );
    proof {
        assert forall|t: int| 0 <= t < 32 && t != slot implies {
            &&& #[trigger] slot_set(node.datamap, t) == slot_set(changed.datamap, t)
            &&& slot_set(node.datamap, t) ==> same_leaf(node.leaf(t), changed.leaf(t))
        } by {
            assert(slot_set(with_slot(node.datamap, slot as int), t) == slot_set(node.datamap, t));
            if slot_set(node.datamap, t) {
                rank_monotone(node.datamap, t + 1, 32);
                let at = rank(node.datamap, t) as int;
                assert(same_leaf(node.leaves@[at], copies[at]));
            }
        }
        assert(same_but(*node, *changed, slot as int)) by {
            same_elsewhere(*node, *changed, slot as int);
        }
    }
    changed
}

/// The node with another value in the leaf of a slot, and the value before.
pub(crate) fn with_value<K: HamtCodec + Clone, V: HamtCodec + Clone>(
    node: &HamtNode<K, V>,
    structural_key: &[u8],
    slot: usize,
    value: V,
) -> (changed: (Arc<HamtNode<K, V>>, V))
    requires
        node.shape(),
        slot < 32,
        slot_set(node.datamap, slot as int),
        value.encodable(),
        clone_keeps::<K>(),
        clone_keeps::<V>(),
    ensures
        changed.0.shape(),
        changed.0.structural_hash@ == changed.0.digest(structural_key@),
        same_but(*node, *changed.0, slot as int),
        changed.0.datamap == node.datamap,
        changed.0.nodemap == node.nodemap,
        changed.0.children@ == node.children@,
        changed.0.leaves@.len() == node.leaves@.len(),
        changed.0.leaf(slot as int).0.encoding() == node.leaf(slot as int).0.encoding(),
        changed.0.leaf(slot as int).1 == value,
        changed.1.encoding() == node.leaf(slot as int).1.encoding(),
        changed.1.encodable(),
{
    let mut leaves: Vec<(K, V)> = clone_leaves(&node.leaves);
    let ghost copies = leaves@;
    let index: usize = map_index(node.datamap, slot);
    proof {
        rank_monotone(node.datamap, slot + 1, 32);
        assert(same_leaf(node.leaves@[index as int], copies[index as int]));
    }
    let previous: (K, V) = leaves.remove(index);
    let entry: (K, V) = (previous.0, value);
    proof {
        updated_at(node.datamap, slot as int, copies, entry);
    }
    leaves.insert(index, entry);
    let ghost all = leaves@;
    proof {
        assert(all =~= copies.update(index as int, entry));
        assert forall|i: int| 0 <= i < all.len() implies (#[trigger] all[i]).0.encodable()
            && all[i].1.encodable() by {
            assert(same_leaf(node.leaves@[i], copies[i]));
            assert(node.leaves@[i].0.encodable());
        }
    }
    let changed: Arc<HamtNode<K, V>> = rebuild_node(
        structural_key,
        node.datamap,
        node.nodemap,
        leaves,
        share_all(&node.children),
    );
    proof {
        assert forall|t: int| 0 <= t < 32 && t != slot implies {
            &&& #[trigger] slot_set(node.datamap, t) == slot_set(changed.datamap, t)
            &&& slot_set(node.datamap, t) ==> same_leaf(node.leaf(t), changed.leaf(t))
        } by {
            if slot_set(node.datamap, t) {
                rank_monotone(node.datamap, t + 1, 32);
                let at = rank(node.datamap, t) as int;
                assert(same_leaf(node.leaves@[at], copies[at]));
            }
        }
        assert(same_but(*node, *changed, slot as int)) by {
            same_elsewhere(*node, *changed, slot as int);
        }
    }
    (changed, previous.1)
}

/// The node with another child in the slot of a child.
pub(crate) fn with_child<K: HamtCodec + Clone, V: HamtCodec + Clone>(
    node: &HamtNode<K, V>,
    structural_key: &[u8],
    slot: usize,
    child: Arc<HamtNode<K, V>>,
) -> (changed: Arc<HamtNode<K, V>>)
    requires
        node.shape(),
        slot < 32,
        slot_set(node.nodemap, slot as int),
        clone_keeps::<K>(),
        clone_keeps::<V>(),
    ensures
        changed.shape(),
        changed.structural_hash@ == changed.digest(structural_key@),
        same_but(*node, *changed, slot as int),
        changed.datamap == node.datamap,
        changed.nodemap == node.nodemap,
        changed.children@ == node.children@.update(
            rank(node.nodemap, slot as int) as int,
            NodeRef::Resolved(child),
        ),
        changed.leaves@.len() == node.leaves@.len(),
        changed.child(slot as int) == NodeRef::<K, V>::Resolved(child),
{
    let leaves: Vec<(K, V)> = clone_leaves(&node.leaves);
    let ghost copies = leaves@;
    let index: usize = map_index(node.nodemap, slot);
    let mut children: Vec<NodeRef<K, V>> = share_all(&node.children);
    proof {
        rank_monotone(node.nodemap, slot + 1, 32);
        updated_at(node.nodemap, slot as int, node.children@, NodeRef::Resolved(child));
        assert forall|i: int| 0 <= i < copies.len() implies (#[trigger] copies[i]).0.encodable()
            && copies[i].1.encodable() by {
            assert(node.leaves@[i].0.encodable());
        }
    }
    children[index] = NodeRef::Resolved(child);
    let changed: Arc<HamtNode<K, V>> = rebuild_node(
        structural_key,
        node.datamap,
        node.nodemap,
        leaves,
        children,
    );
    proof {
        assert forall|t: int| 0 <= t < 32 && t != slot implies {
            &&& #[trigger] slot_set(node.datamap, t) == slot_set(changed.datamap, t)
            &&& slot_set(node.datamap, t) ==> same_leaf(node.leaf(t), changed.leaf(t))
        } by {
            if slot_set(node.datamap, t) {
                rank_monotone(node.datamap, t + 1, 32);
                let at = rank(node.datamap, t) as int;
                assert(same_leaf(node.leaves@[at], copies[at]));
            }
        }
        assert(same_but(*node, *changed, slot as int)) by {
            same_elsewhere(*node, *changed, slot as int);
        }
    }
    changed
}

/// The node with a child in the place of a leaf.
pub(crate) fn leaf_to_child<K: HamtCodec + Clone, V: HamtCodec + Clone>(
    node: &HamtNode<K, V>,
    structural_key: &[u8],
    slot: usize,
    child: Arc<HamtNode<K, V>>,
) -> (changed: Arc<HamtNode<K, V>>)
    requires
        node.shape(),
        slot < 32,
        slot_set(node.datamap, slot as int),
        clone_keeps::<K>(),
        clone_keeps::<V>(),
    ensures
        changed.shape(),
        changed.structural_hash@ == changed.digest(structural_key@),
        same_but(*node, *changed, slot as int),
        !slot_set(changed.datamap, slot as int),
        slot_set(changed.nodemap, slot as int),
        changed.nodemap != 0,
        changed.children@ == node.children@.insert(
            rank(node.nodemap, slot as int) as int,
            NodeRef::Resolved(child),
        ),
        rank(node.nodemap, slot as int) <= node.children@.len(),
        changed.child(slot as int) == NodeRef::<K, V>::Resolved(child),
{
    let mut leaves: Vec<(K, V)> = clone_leaves(&node.leaves);
    let ghost copies = leaves@;
    let index: usize = map_index(node.datamap, slot);
    let place: usize = map_index(node.nodemap, slot);
    let mut children: Vec<NodeRef<K, V>> = share_all(&node.children);
    proof {
        disjoint_slots(node.datamap, node.nodemap, slot as int);
        disjoint_updates(node.datamap, node.nodemap, slot as int);
        removed_at(node.datamap, slot as int, copies);
        inserted_at(node.nodemap, slot as int, node.children@, NodeRef::Resolved(child));
        slot_updates(node.nodemap, slot as int, slot as int);
        slot_updates(0, slot as int, slot as int);
    }
    let _gone: (K, V) = leaves.remove(index);
    children.insert(place, NodeRef::Resolved(child));
    let ghost all = leaves@;
    proof {
        assert forall|i: int| 0 <= i < all.len() implies (#[trigger] all[i]).0.encodable()
            && all[i].1.encodable() by {
            let from = if i < index {
                i
            } else {
                i + 1
            };
            assert(all[i] == copies[from]);
            assert(node.leaves@[from].0.encodable());
        }
    }
    let changed: Arc<HamtNode<K, V>> = rebuild_node(
        structural_key,
        node.datamap & !(1u32 << (slot as u32)),
        node.nodemap | (1u32 << (slot as u32)),
        leaves,
        children,
    );
    proof {
        assert forall|t: int| 0 <= t < 32 && t != slot implies {
            &&& #[trigger] slot_set(node.datamap, t) == slot_set(changed.datamap, t)
            &&& slot_set(node.datamap, t) ==> same_leaf(node.leaf(t), changed.leaf(t))
        } by {
            assert(slot_set(without_slot(node.datamap, slot as int), t) == slot_set(
                node.datamap,
                t,
            ));
            if slot_set(node.datamap, t) {
                rank_monotone(node.datamap, t + 1, 32);
                let at = rank(node.datamap, t) as int;
                assert(same_leaf(node.leaves@[at], copies[at]));
            }
        }
        assert forall|t: int| 0 <= t < 32 && t != slot implies {
            &&& #[trigger] slot_set(node.nodemap, t) == slot_set(changed.nodemap, t)
            &&& slot_set(node.nodemap, t) ==> node.child(t) == changed.child(t)
        } by {
            assert(slot_set(with_slot(node.nodemap, slot as int), t) == slot_set(node.nodemap, t));
        }
        assert(same_but(*node, *changed, slot as int)) by {
            same_elsewhere(*node, *changed, slot as int);
        }
    }
    changed
}

/// The contents of a node without a hash.
pub struct Parts<K, V> {
    pub datamap: u32,
    pub nodemap: u32,
    pub leaves: Vec<(K, V)>,
    pub children: Vec<NodeRef<K, V>>,
}

impl<K, V> Parts<K, V> {
    /// A node of these contents, with some hash.
    pub open spec fn node(&self, structural_hash: StructuralHash) -> HamtNode<K, V> {
        HamtNode {
            datamap: self.datamap,
            nodemap: self.nodemap,
            leaves: self.leaves,
            children: self.children,
            structural_hash,
        }
    }
}

/// The contents of a node without the leaf of a slot, and the value of the leaf.
pub(crate) fn without_leaf<K: HamtCodec + Clone, V: HamtCodec + Clone>(
    node: &HamtNode<K, V>,
    slot: usize,
) -> (rest: (Parts<K, V>, V))
    requires
        node.shape(),
        slot < 32,
        slot_set(node.datamap, slot as int),
        clone_keeps::<K>(),
        clone_keeps::<V>(),
    ensures
        rest.0.node(node.structural_hash).shape(),
        same_but(*node, rest.0.node(node.structural_hash), slot as int),
        !slot_set(rest.0.datamap, slot as int),
        !slot_set(rest.0.nodemap, slot as int),
        rest.0.nodemap == node.nodemap,
        rest.0.children@ == node.children@,
        rest.1.encoding() == node.leaf(slot as int).1.encoding(),
        rest.1.encodable(),
{
    let mut leaves: Vec<(K, V)> = clone_leaves(&node.leaves);
    let ghost copies = leaves@;
    let index: usize = map_index(node.datamap, slot);
    proof {
        disjoint_slots(node.datamap, node.nodemap, slot as int);
        disjoint_updates(node.datamap, node.nodemap, slot as int);
        removed_at(node.datamap, slot as int, copies);
        assert(same_leaf(node.leaves@[index as int], copies[index as int]));
        assert(node.leaves@[index as int].0.encodable());
    }
    let gone: (K, V) = leaves.remove(index);
    let ghost all = leaves@;
    proof {
        assert forall|i: int| 0 <= i < all.len() implies (#[trigger] all[i]).0.encodable()
            && all[i].1.encodable() by {
            let from = if i < index {
                i
            } else {
                i + 1
            };
            assert(all[i] == copies[from]);
            assert(node.leaves@[from].0.encodable());
        }
    }
    let rest: Parts<K, V> = Parts {
        datamap: node.datamap & !(1u32 << (slot as u32)),
        nodemap: node.nodemap,
        leaves,
        children: share_all(&node.children),
    };
    proof {
        let b = rest.node(node.structural_hash);
        assert forall|t: int| 0 <= t < 32 && t != slot implies {
            &&& #[trigger] slot_set(node.datamap, t) == slot_set(b.datamap, t)
            &&& slot_set(node.datamap, t) ==> same_leaf(node.leaf(t), b.leaf(t))
        } by {
            assert(slot_set(without_slot(node.datamap, slot as int), t) == slot_set(
                node.datamap,
                t,
            ));
            if slot_set(node.datamap, t) {
                rank_monotone(node.datamap, t + 1, 32);
                let at = rank(node.datamap, t) as int;
                assert(same_leaf(node.leaves@[at], copies[at]));
            }
        }
        same_elsewhere(*node, b, slot as int);
    }
    (rest, gone.1)
}

/// The contents of a node without the child of a slot, or with a leaf in its
/// place.
pub(crate) fn without_child<K: HamtCodec + Clone, V: HamtCodec + Clone>(
    node: &HamtNode<K, V>,
    slot: usize,
    leaf: Option<(K, V)>,
) -> (rest: Parts<K, V>)
    requires
        node.shape(),
        slot < 32,
        slot_set(node.nodemap, slot as int),
        leaf matches Some(entry) ==> entry.0.encodable() && entry.1.encodable(),
        clone_keeps::<K>(),
        clone_keeps::<V>(),
    ensures
        rest.node(node.structural_hash).shape(),
        same_but(*node, rest.node(node.structural_hash), slot as int),
        !slot_set(rest.nodemap, slot as int),
        slot_set(rest.datamap, slot as int) == (leaf is Some),
        leaf matches Some(entry) ==> rest.node(node.structural_hash).leaf(slot as int) == entry,
        rank(node.nodemap, slot as int) < node.children@.len(),
        rest.children@ == node.children@.remove(rank(node.nodemap, slot as int) as int),
        node.nodemap == 0 ==> rest.nodemap == 0,
{
    let mut leaves: Vec<(K, V)> = clone_leaves(&node.leaves);
    let ghost copies = leaves@;
    let index: usize = map_index(node.datamap, slot);
    let place: usize = map_index(node.nodemap, slot);
    let mut children: Vec<NodeRef<K, V>> = share_all(&node.children);
    proof {
        disjoint_slots(node.datamap, node.nodemap, slot as int);
        disjoint_updates(node.datamap, node.nodemap, slot as int);
        removed_at(node.nodemap, slot as int, node.children@);
        slot_updates(0, slot as int, slot as int);
    }
    let _gone: NodeRef<K, V> = children.remove(place);
    let datamap: u32 = match leaf {
        Some(entry) => {
            proof {
                inserted_at(node.datamap, slot as int, copies, entry);
            }
            leaves.insert(index, entry);
            node.datamap | (1u32 << (slot as u32))
        },
        None => node.datamap,
    };
    let ghost all = leaves@;
    proof {
        assert forall|i: int| 0 <= i < all.len() implies (#[trigger] all[i]).0.encodable()
            && all[i].1.encodable() by {
            if leaf is Some {
                if i < index {
                    assert(all[i] == copies[i]);
                    assert(node.leaves@[i].0.encodable());
                } else if i > index {
                    assert(all[i] == copies[i - 1]);
                    assert(node.leaves@[i - 1].0.encodable());
                }
            } else {
                assert(node.leaves@[i].0.encodable());
            }
        }
    }
    let rest: Parts<K, V> = Parts {
        datamap,
        nodemap: node.nodemap & !(1u32 << (slot as u32)),
        leaves,
        children,
    };
    proof {
        let b = rest.node(node.structural_hash);
        assert forall|t: int| 0 <= t < 32 && t != slot implies {
            &&& #[trigger] slot_set(node.datamap, t) == slot_set(b.datamap, t)
            &&& slot_set(node.datamap, t) ==> same_leaf(node.leaf(t), b.leaf(t))
        } by {
            if leaf is Some {
                assert(slot_set(with_slot(node.datamap, slot as int), t) == slot_set(
                    node.datamap,
                    t,
                ));
            }
            if slot_set(node.datamap, t) {
                rank_monotone(node.datamap, t + 1, 32);
                let at = rank(node.datamap, t) as int;
                assert(same_leaf(node.leaves@[at], copies[at]));
            }
        }
        assert forall|t: int| 0 <= t < 32 && t != slot implies {
            &&& #[trigger] slot_set(node.nodemap, t) == slot_set(b.nodemap, t)
            &&& slot_set(node.nodemap, t) ==> node.child(t) == b.child(t)
        } by {
            assert(slot_set(without_slot(node.nodemap, slot as int), t) == slot_set(
                node.nodemap,
                t,
            ));
        }
        same_elsewhere(*node, b, slot as int);
    }
    rest
}

} // verus!
