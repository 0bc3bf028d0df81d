//! Where the node records live.
//!
//! Records sit in numbered places. A place that a destroyed node has left
//! is used again, under a new stamp, so that a link or a handle that still
//! names the destroyed node can never be mistaken for one to its successor.

use crate::data::NodeData;
use crate::handle::NodeRef;
use crate::model::{fresh_state, one_less, one_more, relink, resolve, Field, Forest, NodeId, NodeState};
use crate::node::Node;
use crate::shape::{ordered, tree_wf};
use vstd::prelude::*;

verus! {

struct Slot {
    stamp: u64,
    node: Option<Node>,
}

/// The storage of all the nodes that belong together.
pub struct Arena {
    slots: Vec<Slot>,
    free: Vec<usize>,
}

impl View for Arena {
    type V = Forest;

    closed spec fn view(&self) -> Forest {
        Map::new(|id: NodeId| self.occupied(id), |id: NodeId| self.slots[id.index as int].node->0@)
    }
}

impl Arena {
    spec fn occupied(&self, id: NodeId) -> bool {
        &&& id.index < self.slots.len()
        &&& self.slots[id.index as int].stamp == id.stamp
        &&& self.slots[id.index as int].node is Some
    }

    /// Whether `id` has ever been the identity of a node of this storage,
    /// alive or destroyed.
    pub closed spec fn issued(&self, id: NodeId) -> bool {
        &&& id.index < self.slots.len()
        &&& (id.stamp < self.slots[id.index as int].stamp || self.occupied(id))
    }

    /// Whether `link` is empty or names an identity that was issued.
    pub open spec fn link_issued(&self, link: Option<NodeId>) -> bool {
        link matches Some(target) ==> self.issued(target)
    }

    /// What the storage keeps true of itself.
    pub closed spec fn sound(&self) -> bool {
        &&& forall|i: int| 0 <= i < self.slots.len() && (#[trigger] self.slots[i]).node is Some ==> {
            &&& self.slots[i].stamp < u64::MAX
            &&& forall|field: Field| self.link_issued(#[trigger] self.slots[i].node->0@.link(field))
        }
        &&& forall|k: int| 0 <= k < self.free.len() ==> #[trigger] self.free[k] < self.slots.len()
    }

    /// A living node has an issued identity, and so has every node that it
    /// links to.
    pub proof fn lemma_issued(&self, id: NodeId)
        requires
            self.sound(),
            self@.contains_key(id),
        ensures
            self.issued(id),
            forall|field: Field| self.link_issued(#[trigger] self@[id].link(field)),
    {
        assert(self.slots[id.index as int].node is Some);
    }

    spec fn occupied_below(&self, bound: int) -> Set<NodeId> {
        Set::new(|id: NodeId| self.occupied(id) && id.index < bound)
    }

    proof fn lemma_finite_below(&self, bound: int)
        requires
            0 <= bound <= self.slots.len(),
        ensures
            self.occupied_below(bound).finite(),
        decreases bound,
    {
        if bound == 0 {
            assert(self.occupied_below(bound) =~= Set::empty());
        } else {
            self.lemma_finite_below(bound - 1);
            let last = NodeId { index: (bound - 1) as usize, stamp: self.slots[bound - 1].stamp };
            if self.occupied(last) {
                assert(self.occupied_below(bound) =~= self.occupied_below(bound - 1).insert(last));
            } else {
                assert(self.occupied_below(bound) =~= self.occupied_below(bound - 1));
            }
        }
    }

    /// Only finitely many nodes are alive.
    pub proof fn lemma_finite(&self)
        ensures
            self@.dom().finite(),
    {
        self.lemma_finite_below(self.slots.len() as int);
        assert(self@.dom() =~= self.occupied_below(self.slots.len() as int));
    }

    /// The invariant of the storage and of the forest that it holds. Every
    /// function that changes a forest asks for it and gives it back.
    pub open spec fn wf(&self) -> bool {
        self.sound() && tree_wf(self@)
    }

    /// Whether `node` is a handle to a living node of this storage.
    pub open spec fn owns(&self, node: &NodeRef) -> bool {
        self@.contains_key(node@) && self@[node@].handles >= 1
    }

    /// A storage without nodes.
    pub fn new() -> (arena: Arena)
        ensures
            arena.wf(),
            arena@ == Map::<NodeId, NodeState>::empty(),
            forall|id: NodeId| !arena.issued(id),
    {
        let arena = Arena { slots: Vec::new(), free: Vec::new() };
        proof {
            assert(arena@ =~= Map::empty());
            assert(ordered(arena@, |node: NodeId| 0nat));
        }
        arena
    }

    /// Whether the node `id` is alive.
    pub fn contains(&self, id: NodeId) -> (alive: bool)
        ensures
            alive == self@.contains_key(id),
    {
        id.index < self.slots.len() && self.slots[id.index].stamp == id.stamp
            && self.slots[id.index].node.is_some()
    }

    /// What `link` leads to: its target if that node is alive.
    pub fn resolve(&self, link: Option<NodeId>) -> (target: Option<NodeId>)
        ensures
            target == resolve(self@, link),
    {
        match link {
            Some(id) => if self.contains(id) {
                Some(id)
            } else {
                None
            },
            None => None,
        }
    }

    /// The record of a living node.
    pub fn node(&self, id: NodeId) -> (node: &Node)
        requires
            self@.contains_key(id),
        ensures
            node@ == self@[id],
    {
        self.slots[id.index].node.as_ref().unwrap()
    }

    /// The target of one link of a living node.
    pub(crate) fn link(&self, id: NodeId, field: Field) -> (target: Option<NodeId>)
        requires
            self@.contains_key(id),
        ensures
            target == self@[id].link(field),
    {
        self.node(id).link(field)
    }

    /// The number of handles that own a living node.
    pub(crate) fn handles(&self, id: NodeId) -> (count: u64)
        requires
            self@.contains_key(id),
        ensures
            count == self@[id].handles,
    {
        self.node(id).handles()
    }

    /// Points one link of a living node at `target`.
    pub(crate) fn set_link(&mut self, id: NodeId, field: Field, target: Option<NodeId>)
        requires
            old(self).sound(),
            old(self)@.contains_key(id),
            old(self).link_issued(target),
        ensures
            final(self).sound(),
            final(self)@ == relink(old(self)@, id, field, target),
            forall|x: NodeId| final(self).issued(x) == old(self).issued(x),
    {
        match &mut self.slots[id.index].node {
            Some(node) => node.set_link(field, target),
            None => {},
        }
        proof {
            self.lemma_relinked(*old(self), id, field, target);
        }
    }

    /// Empties one link of a living node and returns its target.
    pub(crate) fn take_link(&mut self, id: NodeId, field: Field) -> (target: Option<NodeId>)
        requires
            old(self).sound(),
            old(self)@.contains_key(id),
        ensures
            final(self).sound(),
            target == old(self)@[id].link(field),
            old(self).link_issued(target),
            final(self)@ == relink(old(self)@, id, field, None),
            forall|x: NodeId| final(self).issued(x) == old(self).issued(x),
    {
        let mut target = None;
        match &mut self.slots[id.index].node {
            Some(node) => {
                target = node.take_link(field);
            },
            None => {},
        }
        proof {
            old(self).lemma_issued(id);
            self.lemma_relinked(*old(self), id, field, None);
        }
        target
    }

    /// Points one link of a living node at `target` and returns its former
    /// target.
    pub(crate) fn replace_link(&mut self, id: NodeId, field: Field, target: Option<NodeId>) -> (previous: Option<NodeId>)
        requires
            old(self).sound(),
            old(self)@.contains_key(id),
            old(self).link_issued(target),
        ensures
            final(self).sound(),
            previous == old(self)@[id].link(field),
            old(self).link_issued(previous),
            final(self)@ == relink(old(self)@, id, field, target),
            forall|x: NodeId| final(self).issued(x) == old(self).issued(x),
    {
        let mut previous = None;
        match &mut self.slots[id.index].node {
            Some(node) => {
                previous = node.replace_link(field, target);
            },
            None => {},
        }
        proof {
            old(self).lemma_issued(id);
            self.lemma_relinked(*old(self), id, field, target);
        }
        previous
    }

    /// Counts one more handle on a living node.
    pub(crate) fn add_handle(&mut self, id: NodeId)
        requires
            old(self).sound(),
            old(self)@.contains_key(id),
        ensures
            final(self).sound(),
            final(self)@ == old(self)@.insert(id, old(self)@[id].with_handles(one_more(old(self)@[id].handles))),
            forall|x: NodeId| final(self).issued(x) == old(self).issued(x),
    {
        match &mut self.slots[id.index].node {
            Some(node) => node.add_handle(),
            None => {},
        }
        proof {
            self.lemma_same_links(*old(self), id);
            assert(self@ =~= old(self)@.insert(id, old(self)@[id].with_handles(one_more(old(self)@[id].handles))));
        }
    }

    /// Counts one handle less on a living node.
    pub(crate) fn remove_handle(&mut self, id: NodeId)
        requires
            old(self).sound(),
            old(self)@.contains_key(id),
        ensures
            final(self).sound(),
            final(self)@ == old(self)@.insert(id, old(self)@[id].with_handles(one_less(old(self)@[id].handles))),
            forall|x: NodeId| final(self).issued(x) == old(self).issued(x),
    {
        match &mut self.slots[id.index].node {
            Some(node) => node.remove_handle(),
            None => {},
        }
        proof {
            self.lemma_same_links(*old(self), id);
            assert(self@ =~= old(self)@.insert(id, old(self)@[id].with_handles(one_less(old(self)@[id].handles))));
        }
    }

    /// Gives a living node another payload and returns the former one.
    pub(crate) fn replace_data(&mut self, id: NodeId, data: NodeData) -> (previous: NodeData)
        requires
            old(self).sound(),
            old(self)@.contains_key(id),
        ensures
            final(self).sound(),
            previous == old(self)@[id].data,
            final(self)@ == old(self)@.insert(id, (NodeState { data, ..old(self)@[id] })),
            forall|x: NodeId| final(self).issued(x) == old(self).issued(x),
    {
        let mut previous = data;
        match &mut self.slots[id.index].node {
            Some(node) => {
                previous = node.replace_data(previous);
            },
            None => {},
        }
        proof {
            self.lemma_same_links(*old(self), id);
            assert(self@ =~= old(self)@.insert(id, (NodeState { data, ..old(self)@[id] })));
        }
        previous
    }

    /// Creates a node around `data`, without links and owned by one handle.
    pub(crate) fn insert(&mut self, data: NodeData) -> (id: NodeId)
        requires
            old(self).sound(),
        ensures
            final(self).sound(),
            !old(self).issued(id),
            final(self)@ == old(self)@.insert(id, fresh_state(data)),
            forall|x: NodeId| final(self).issued(x) == (old(self).issued(x) || x == id),
    {
        let mut found: Option<usize> = None;
        while found.is_none() && self.free.len() > 0
            invariant
                self.sound(),
                self.slots == old(self).slots,
                found matches Some(i) ==> i < self.slots.len() && self.slots[i as int].node is None
                    && self.slots[i as int].stamp < u64::MAX,
            decreases self.free.len(),
        {
            let candidate = self.free.pop().unwrap();
            if self.slots[candidate].node.is_none() && self.slots[candidate].stamp < u64::MAX {
                found = Some(candidate);
            }
        }
        let index = match found {
            Some(index) => {
                self.slots[index].node = Some(Node::new(data));
                index
            },
            None => {
                self.slots.push(Slot { stamp: 0, node: Some(Node::new(data)) });
                self.slots.len() - 1
            },
        };
        let id = NodeId { index, stamp: self.slots[index].stamp };
        proof {
            assert forall|x: NodeId| self.issued(x) == (old(self).issued(x) || x == id) by {
                if x.index < old(self).slots.len() && x.index != index {
                    assert(self.slots[x.index as int] == old(self).slots[x.index as int]);
                }
            }
            assert forall|i: int| 0 <= i < self.slots.len() && (#[trigger] self.slots[i]).node is Some implies {
                &&& self.slots[i].stamp < u64::MAX
                &&& forall|f: Field| self.link_issued(#[trigger] self.slots[i].node->0@.link(f))
            } by {
                if i != index {
                    assert(self.slots[i] == old(self).slots[i]);
                    assert forall|f: Field| self.link_issued(#[trigger] self.slots[i].node->0@.link(f)) by {
                        assert(old(self).link_issued(old(self).slots[i].node->0@.link(f)));
                    }
                }
            }
            assert(self@ =~= old(self)@.insert(id, fresh_state(data)));
        }
        id
    }

    /// Destroys a living node. Its identity stays issued, and every link
    /// that names it leads nowhere from now on.
    pub(crate) fn remove(&mut self, id: NodeId)
        requires
            old(self).sound(),
            old(self)@.contains_key(id),
        ensures
            final(self).sound(),
            final(self)@ == old(self)@.remove(id),
            forall|x: NodeId| final(self).issued(x) == old(self).issued(x),
    {
        let stamp = self.slots[id.index].stamp + 1;
        self.slots[id.index].node = None;
        self.slots[id.index].stamp = stamp;
        if stamp < u64::MAX {
            self.free.push(id.index);
        }
        proof {
            assert forall|x: NodeId| self.issued(x) == old(self).issued(x) by {
                if x.index < self.slots.len() && x.index != id.index {
                    assert(self.slots[x.index as int] == old(self).slots[x.index as int]);
                }
            }
            assert forall|i: int| 0 <= i < self.slots.len() && (#[trigger] self.slots[i]).node is Some implies {
                &&& self.slots[i].stamp < u64::MAX
                &&& forall|f: Field| self.link_issued(#[trigger] self.slots[i].node->0@.link(f))
            } by {
                assert(self.slots[i] == old(self).slots[i]);
                assert forall|f: Field| self.link_issued(#[trigger] self.slots[i].node->0@.link(f)) by {
                    assert(old(self).link_issued(old(self).slots[i].node->0@.link(f)));
                }
            }
            assert(self@ =~= old(self)@.remove(id));
        }
    }

    /// After one record changed something other than its links, the
    /// storage is sound again and has issued what it had issued.
    proof fn lemma_same_links(&self, before: Arena, id: NodeId)
        requires
            before.sound(),
            before.occupied(id),
            self.free == before.free,
            self.slots.len() == before.slots.len(),
            forall|j: int| 0 <= j < before.slots.len() && j != id.index ==> self.slots[j] == before.slots[j],
            self.slots[id.index as int].stamp == id.stamp,
            self.slots[id.index as int].node is Some,
            forall|f: Field| self.slots[id.index as int].node->0@.link(f) == before.slots[id.index as int].node->0@.link(f),
        ensures
            self.sound(),
            forall|x: NodeId| self.issued(x) == before.issued(x),
    {
        assert forall|x: NodeId| self.issued(x) == before.issued(x) by {
            if x.index < self.slots.len() && x.index != id.index {
                assert(self.slots[x.index as int] == before.slots[x.index as int]);
            }
        }
        assert forall|i: int| 0 <= i < self.slots.len() && (#[trigger] self.slots[i]).node is Some implies {
            &&& self.slots[i].stamp < u64::MAX
            &&& forall|f: Field| self.link_issued(#[trigger] self.slots[i].node->0@.link(f))
        } by {
            assert(before.slots[i].node is Some);
            assert forall|f: Field| self.link_issued(#[trigger] self.slots[i].node->0@.link(f)) by {
                assert(before.link_issued(before.slots[i].node->0@.link(f)));
            }
        }
    }

    /// After one record changed one link, the storage is sound again and
    /// holds the forest that `relink` describes.
    proof fn lemma_relinked(&self, before: Arena, id: NodeId, field: Field, target: Option<NodeId>)
        requires
            before.sound(),
            before.occupied(id),
            before.link_issued(target),
            self.free == before.free,
            self.slots.len() == before.slots.len(),
            forall|j: int| 0 <= j < before.slots.len() && j != id.index ==> self.slots[j] == before.slots[j],
            self.slots[id.index as int].stamp == id.stamp,
            self.slots[id.index as int].node is Some,
            self.slots[id.index as int].node->0@ == before.slots[id.index as int].node->0@.with_link(field, target),
        ensures
            self.sound(),
            self@ == relink(before@, id, field, target),
            forall|x: NodeId| self.issued(x) == before.issued(x),
    {
        assert forall|x: NodeId| self.issued(x) == before.issued(x) by {
            if x.index < self.slots.len() && x.index != id.index {
                assert(self.slots[x.index as int] == before.slots[x.index as int]);
            }
        }
        assert forall|i: int| 0 <= i < self.slots.len() && (#[trigger] self.slots[i]).node is Some implies {
            &&& self.slots[i].stamp < u64::MAX
            &&& forall|f: Field| self.link_issued(#[trigger] self.slots[i].node->0@.link(f))
        } by {
            assert(before.slots[i].node is Some);
            assert forall|f: Field| self.link_issued(#[trigger] self.slots[i].node->0@.link(f)) by {
                assert(before.link_issued(before.slots[i].node->0@.link(f)));
            }
        }
        assert(self@ =~= relink(before@, id, field, target));
    }
}

} // verus!
