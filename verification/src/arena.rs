//! The tree of nodes.
//!
//! Nodes live in a slot map and name each other by handle: a node holds the handles of its
//! children, in the order in which they were composed. Beside the slot map the arena keeps, as
//! ghost state, each node's parent and its depth below the root; they are what makes the nodes a
//! tree, and what the orders of traversal are defined by.

use crate::node::{ArenaNode, NodeAttributes, NodeId, NodeView};
use crate::rect::LogicalRect;
use vstd::prelude::*;

verus! {

/// The slot map that stores the nodes.
#[verifier::external_body]
pub struct Slots {
    inner: slotmap::SlotMap<slotmap::DefaultKey, ArenaNode>,
}

/// What a slot map holds: the node under each live handle.
pub uninterp spec fn slot_entries(slots: Slots) -> Map<NodeId, ArenaNode>;

/// `slotmap::SlotMap::new`: a slot map that holds nothing.
#[verifier::external_body]
pub(crate) fn slots_new() -> (slots: Slots)
    ensures
        slot_entries(slots) =~= Map::empty(),
{
    Slots { inner: slotmap::SlotMap::new() }
}

/// `slotmap::SlotMap::len`: the number of live handles.
#[verifier::external_body]
pub(crate) fn slots_len(slots: &Slots) -> (n: usize)
    ensures
        slot_entries(*slots).dom().finite() ==> n == slot_entries(*slots).dom().len(),
{
    slots.inner.len()
}

/// `slotmap::SlotMap::insert`: stores the node under a handle that was not live, and returns
/// that handle. The slot map must hold fewer than 2^32 - 2 nodes.
#[verifier::external_body]
pub(crate) fn slots_insert(slots: &mut Slots, node: ArenaNode) -> (id: NodeId)
    requires
        slot_entries(*old(slots)).dom().finite(),
        slot_entries(*old(slots)).dom().len() < 0xffff_fffe,
    ensures
        !slot_entries(*old(slots)).dom().contains(id),
        slot_entries(*final(slots)) == slot_entries(*old(slots)).insert(id, node),
{
    NodeId { key: slots.inner.insert(node) }
}

/// `slotmap::SlotMap::remove`: takes the node of a live handle out, after which the handle is
/// not live; another handle changes nothing.
#[verifier::external_body]
pub(crate) fn slots_remove(slots: &mut Slots, id: NodeId) -> (node: Option<ArenaNode>)
    ensures
        slot_entries(*final(slots)) == slot_entries(*old(slots)).remove(id),
        node == if slot_entries(*old(slots)).dom().contains(id) {
            Some(slot_entries(*old(slots))[id])
        } else {
            None
        },
{
    slots.inner.remove(id.key)
}

/// `slotmap::SlotMap::get`: the node of a live handle.
#[verifier::external_body]
pub(crate) fn slots_get(slots: &Slots, id: NodeId) -> (node: Option<&ArenaNode>)
    ensures
        node == if slot_entries(*slots).dom().contains(id) {
            Some(&slot_entries(*slots)[id])
        } else {
            None
        },
{
    slots.inner.get(id.key)
}

/// `slotmap::SlotMap::index_mut`: the node of a live handle, to be changed in place.
#[verifier::external_body]
pub(crate) fn slots_get_mut(slots: &mut Slots, id: NodeId) -> (node: &mut ArenaNode)
    requires
        slot_entries(*old(slots)).dom().contains(id),
    ensures
        *node == slot_entries(*old(slots))[id],
        slot_entries(*final(slots)) == slot_entries(*old(slots)).insert(id, *final(node)),
{
    &mut slots.inner[id.key]
}

/// Copies a list of handles.
pub(crate) fn copy_ids(ids: &Vec<NodeId>) -> (copy: Vec<NodeId>)
    ensures
        copy@ == ids@,
{
    let mut copy: Vec<NodeId> = Vec::new();
    let mut i: usize = 0;
    while i < ids.len()
        invariant
            i <= ids.len(),
            copy.len() == i,
            forall|j: int| 0 <= j < i ==> copy[j] == ids[j],
        decreases ids.len() - i,
    {
        copy.push(ids[i]);
        i = i + 1;
    }
    assert(copy@ =~= ids@);
    copy
}

/// Stores UI nodes in memory and answers questions about the tree that they form.
pub struct Arena {
    pub(crate) root: NodeId,
    pub(crate) nodes: Slots,
    pub(crate) parent: Ghost<Map<NodeId, NodeId>>,
    pub(crate) depth: Ghost<Map<NodeId, nat>>,
    pub(crate) height: Ghost<nat>,
}

impl Arena {
    /// The node under each handle.
    pub open(crate) spec fn entries(&self) -> Map<NodeId, ArenaNode> {
        slot_entries(self.nodes)
    }

    /// The handle of the root.
    pub open(crate) spec fn root(&self) -> NodeId {
        self.root
    }

    /// The parent of each node but the root.
    pub open(crate) spec fn parents(&self) -> Map<NodeId, NodeId> {
        self.parent@
    }

    /// The number of steps from the root down to each node.
    pub open(crate) spec fn depths(&self) -> Map<NodeId, nat> {
        self.depth@
    }

    /// A bound above every depth.
    pub open(crate) spec fn height(&self) -> nat {
        self.height@
    }

    /// Whether the handle names a node of this arena.
    pub open spec fn contains(&self, id: NodeId) -> bool {
        self.entries().dom().contains(id)
    }

    /// The value of the node under a handle.
    pub open spec fn node(&self, id: NodeId) -> NodeView {
        self.entries()[id]@
    }

    /// The children of a node, in the order of composition.
    pub open spec fn children_of(&self, id: NodeId) -> Seq<NodeId> {
        self.entries()[id].children@
    }

    /// The value of every node.
    pub open spec fn nodes(&self) -> Map<NodeId, NodeView> {
        Map::new(|id: NodeId| self.contains(id), |id: NodeId| self.node(id))
    }

    /// Whether child `k` of `x` hangs one step below `x`, within the height of the tree.
    pub open spec fn hangs(&self, x: NodeId, k: int) -> bool {
        let c = self.children_of(x)[k];
        &&& self.contains(c)
        &&& self.parents().dom().contains(c)
        &&& self.parents()[c] == x
        &&& self.depths()[c] == self.depths()[x] + 1
        &&& self.depths()[c] < self.height()
    }

    /// The nodes form a tree below the root: every node but the root is a child of exactly one
    /// node, once, and every child lies one step deeper than its parent.
    pub open spec fn wf(&self) -> bool {
        &&& self.entries().dom().finite()
        &&& self.contains(self.root())
        &&& self.depths()[self.root()] == 0
        &&& self.height() > 0
        &&& forall|x: NodeId| #[trigger]
            self.contains(x) && x != self.root() ==> {
                &&& self.parents().dom().contains(x)
                &&& self.contains(self.parents()[x])
                &&& self.children_of(self.parents()[x]).contains(x)
            }
        &&& forall|x: NodeId, k: int|
            self.contains(x) && 0 <= k < self.children_of(x).len() ==> #[trigger] self.hangs(x, k)
        &&& forall|x: NodeId| self.contains(x) ==> (#[trigger] self.children_of(x)).no_duplicates()
    }

    /// Creates the arena that holds `root` alone.
    pub fn new(root: ArenaNode) -> (arena: Self)
        requires
            root.children@.len() == 0,
        ensures
            arena.wf(),
            arena.entries() == Map::<NodeId, ArenaNode>::empty().insert(arena.root(), root),
    {
        let mut nodes = slots_new();
        let id = slots_insert(&mut nodes, root);
        let arena = Arena {
            root: id,
            nodes,
            parent: Ghost(Map::empty()),
            depth: Ghost(Map::empty().insert(id, 0nat)),
            height: Ghost(1nat),
        };
        assert(arena.children_of(id).no_duplicates());
        arena
    }

    /// The handle of the root.
    pub fn root_id(&self) -> (id: NodeId)
        ensures
            id == self.root(),
    {
        self.root
    }

    /// The number of nodes.
    pub fn len(&self) -> (n: usize)
        requires
            self.wf(),
        ensures
            n == self.entries().dom().len(),
    {
        slots_len(&self.nodes)
    }

    /// Returns a reference to a node.
    pub fn get(&self, id: NodeId) -> (node: Option<&ArenaNode>)
        ensures
            node == if self.contains(id) {
                Some(&self.entries()[id])
            } else {
                None
            },
    {
        slots_get(&self.nodes, id)
    }

    /// Whether `y` lies in the subtree of `x`: it is `x`, or its parent lies there.
    pub open spec fn within(&self, y: NodeId, x: NodeId) -> bool
        decreases self.depths()[y],
    {
        y == x || (self.parents().dom().contains(y) && self.depths()[self.parents()[y]]
            < self.depths()[y] && self.within(self.parents()[y], x))
    }

    /// A node of a subtree lies at least as deep as the subtree's root, and deeper if it is not
    /// the root itself.
    pub proof fn lemma_within_depth(&self, y: NodeId, x: NodeId)
        requires
            self.within(y, x),
        ensures
            self.depths()[x] <= self.depths()[y],
            y != x ==> self.depths()[x] < self.depths()[y],
        decreases self.depths()[y],
    {
        if y != x {
            self.lemma_within_depth(self.parents()[y], x);
        }
    }

    /// A subtree holds the subtrees of its nodes.
    pub proof fn lemma_within_trans(&self, a: NodeId, b: NodeId, c: NodeId)
        requires
            self.within(a, b),
            self.within(b, c),
        ensures
            self.within(a, c),
        decreases self.depths()[a],
    {
        if a != b {
            self.lemma_within_trans(self.parents()[a], b, c);
        }
    }

    /// A child lies in the subtree of its parent.
    pub proof fn lemma_child_within(&self, x: NodeId, k: int)
        requires
            self.wf(),
            self.contains(x),
            0 <= k < self.children_of(x).len(),
        ensures
            self.within(self.children_of(x)[k], x),
            self.contains(self.children_of(x)[k]),
    {
        assert(self.hangs(x, k));
        assert(self.within(x, x));
    }

    /// A node other than the root is a child of its parent, one step below it.
    pub proof fn lemma_parent_step(&self, y: NodeId)
        requires
            self.wf(),
            self.contains(y),
            y != self.root(),
        ensures
            self.parents().dom().contains(y),
            self.contains(self.parents()[y]),
            self.children_of(self.parents()[y]).contains(y),
            self.depths()[y] == self.depths()[self.parents()[y]] + 1,
    {
        let p = self.parents()[y];
        assert(self.contains(p));
        let k = choose|k: int| 0 <= k < self.children_of(p).len() && self.children_of(p)[k] == y;
        assert(self.hangs(p, k));
    }

    /// Every node lies less deep than the height.
    pub proof fn lemma_depth_bound(&self, y: NodeId)
        requires
            self.wf(),
            self.contains(y),
        ensures
            self.depths()[y] < self.height(),
    {
        if y != self.root() {
            self.lemma_parent_step(y);
            let p = self.parents()[y];
            let k = choose|k: int| 0 <= k < self.children_of(p).len() && self.children_of(p)[k] == y;
            assert(self.hangs(p, k));
        }
    }

    /// Every node lies in the subtree of the root.
    pub proof fn lemma_under_root(&self, y: NodeId)
        requires
            self.wf(),
            self.contains(y),
        ensures
            self.within(y, self.root()),
        decreases self.depths()[y],
    {
        if y != self.root() {
            self.lemma_parent_step(y);
            self.lemma_under_root(self.parents()[y]);
        }
    }

    /// Of the nodes at one depth, at most one holds a given node in its subtree.
    pub proof fn lemma_unique_ancestor(&self, y: NodeId, a: NodeId, b: NodeId)
        requires
            self.within(y, a),
            self.within(y, b),
            self.depths()[a] == self.depths()[b],
        ensures
            a == b,
        decreases self.depths()[y],
    {
        self.lemma_within_depth(y, a);
        self.lemma_within_depth(y, b);
        if y != a && y != b {
            self.lemma_unique_ancestor(self.parents()[y], a, b);
        }
    }

    /// A node that lies below `x` lies in the subtree of a child of `x`.
    pub proof fn lemma_below_child(&self, y: NodeId, x: NodeId) -> (k: int)
        requires
            self.wf(),
            self.contains(y),
            self.contains(x),
            self.within(y, x),
            y != x,
        ensures
            0 <= k < self.children_of(x).len(),
            self.within(y, self.children_of(x)[k]),
        decreases self.depths()[y],
    {
        self.lemma_within_depth(y, x);
        self.lemma_parent_step(y);
        let p = self.parents()[y];
        if p == x {
            let k = choose|k: int| 0 <= k < self.children_of(x).len() && self.children_of(x)[k] == y;
            assert(self.within(y, y));
            k
        } else {
            let k = self.lemma_below_child(p, x);
            k
        }
    }

    /// Whether `post` is `pre` but for the regions and the canvas offsets of the nodes: the same
    /// nodes hang in the same tree.
    pub open spec fn same_tree(pre: Arena, post: Arena) -> bool {
        &&& post.root() == pre.root()
        &&& post.parents() == pre.parents()
        &&& post.depths() == pre.depths()
        &&& post.height() == pre.height()
        &&& post.entries().dom() == pre.entries().dom()
        &&& forall|y: NodeId|
            pre.contains(y) ==> {
                &&& (#[trigger] post.node(y)).identity == pre.node(y).identity
                &&& post.node(y).props == pre.node(y).props
                &&& post.node(y).children == pre.node(y).children
                &&& post.node(y).attributes.clipped == pre.node(y).attributes.clipped
                &&& post.node(y).attributes.focusable == pre.node(y).attributes.focusable
                &&& post.node(y).attributes.flow == pre.node(y).attributes.flow
                &&& post.node(y).attributes.placement == pre.node(y).attributes.placement
                &&& post.node(y).attributes.measure == pre.node(y).attributes.measure
                &&& post.node(y).attributes.margin == pre.node(y).attributes.margin
                &&& post.node(y).attributes.padding == pre.node(y).attributes.padding
                &&& post.node(y).attributes.layer == pre.node(y).attributes.layer
            }
    }

    /// The same nodes in the same tree form a tree.
    pub proof fn lemma_same_tree_wf(pre: Arena, post: Arena)
        requires
            pre.wf(),
            Self::same_tree(pre, post),
        ensures
            post.wf(),
    {
        assert forall|y: NodeId| pre.contains(y) implies #[trigger] post.children_of(y)
            == pre.children_of(y) by {
            assert(post.node(y).children == pre.node(y).children);
        }
        Self::lemma_same_children_wf(pre, post);
    }

    /// What is the same tree as the same tree is the same tree.
    pub proof fn lemma_same_tree_trans(a: Arena, b: Arena, c: Arena)
        requires
            Self::same_tree(a, b),
            Self::same_tree(b, c),
        ensures
            Self::same_tree(a, c),
    {
        assert forall|y: NodeId| a.contains(y) implies {
            &&& (#[trigger] c.node(y)).identity == a.node(y).identity
            &&& c.node(y).props == a.node(y).props
            &&& c.node(y).children == a.node(y).children
            &&& c.node(y).attributes.clipped == a.node(y).attributes.clipped
            &&& c.node(y).attributes.focusable == a.node(y).attributes.focusable
            &&& c.node(y).attributes.flow == a.node(y).attributes.flow
            &&& c.node(y).attributes.placement == a.node(y).attributes.placement
            &&& c.node(y).attributes.measure == a.node(y).attributes.measure
            &&& c.node(y).attributes.margin == a.node(y).attributes.margin
            &&& c.node(y).attributes.padding == a.node(y).attributes.padding
            &&& c.node(y).attributes.layer == a.node(y).attributes.layer
        } by {
            assert(b.contains(y));
            assert(b.node(y).identity == a.node(y).identity);
            assert(c.node(y).identity == b.node(y).identity);
        }
    }

    /// Nodes that have kept their children and their places form a tree as before.
    pub proof fn lemma_same_children_wf(pre: Arena, post: Arena)
        requires
            pre.wf(),
            post.root() == pre.root(),
            post.parents() == pre.parents(),
            post.depths() == pre.depths(),
            post.height() == pre.height(),
            post.entries().dom() == pre.entries().dom(),
            forall|y: NodeId|
                pre.contains(y) ==> #[trigger] post.children_of(y) == pre.children_of(y),
        ensures
            post.wf(),
    {
        assert forall|x: NodeId| #[trigger] post.contains(x) && x != post.root() implies {
            &&& post.parents().dom().contains(x)
            &&& post.contains(post.parents()[x])
            &&& post.children_of(post.parents()[x]).contains(x)
        } by {
            assert(pre.contains(x));
            assert(pre.contains(pre.parents()[x]));
            assert(post.children_of(pre.parents()[x]) == pre.children_of(pre.parents()[x]));
        }
        assert forall|x: NodeId, k: int|
            post.contains(x) && 0 <= k < post.children_of(x).len() implies #[trigger] post.hangs(
            x,
            k,
        ) by {
            assert(post.children_of(x) == pre.children_of(x));
            assert(pre.hangs(x, k));
        }
        assert forall|x: NodeId| post.contains(x) implies (#[trigger] post.children_of(
            x,
        )).no_duplicates() by {
            assert(post.children_of(x) == pre.children_of(x));
        }
    }

    /// Gives a node its region.
    pub(crate) fn set_rect(&mut self, id: NodeId, rect: LogicalRect)
        requires
            old(self).wf(),
            old(self).contains(id),
        ensures
            final(self).wf(),
            Self::same_tree(*old(self), *final(self)),
            final(self).node(id).rect == rect,
            final(self).node(id).attributes == old(self).node(id).attributes,
            forall|y: NodeId|
                old(self).contains(y) && y != id ==> #[trigger] final(self).entries()[y] == old(
                    self,
                ).entries()[y],
    {
        let ghost pre = *self;
        let node = slots_get_mut(&mut self.nodes, id);
        node.rect = rect;
        proof {
            assert(self.entries().dom() =~= pre.entries().dom());
            Self::lemma_same_tree_wf(pre, *self);
        }
    }

    /// Sets the render offset of a node.
    pub fn set_offset(&mut self, id: NodeId, x: i32, y: i32)
        requires
            old(self).wf(),
            old(self).contains(id),
        ensures
            final(self).wf(),
            Self::same_tree(*old(self), *final(self)),
            final(self).node(id).attributes.offset == (x, y),
            final(self).node(id).rect == old(self).node(id).rect,
            final(self).preorder() == old(self).preorder(),
            forall|z: NodeId|
                old(self).contains(z) && z != id ==> #[trigger] final(self).entries()[z] == old(
                    self,
                ).entries()[z],
    {
        let ghost pre = *self;
        let node = slots_get_mut(&mut self.nodes, id);
        node.attributes.offset = (x, y);
        proof {
            assert(self.entries().dom() =~= pre.entries().dom());
            Self::lemma_same_tree_wf(pre, *self);
            Self::lemma_same_tree_preorder(pre, *self);
        }
    }

    /// Sets the attributes of a node.
    pub fn set_attributes(&mut self, id: NodeId, attributes: NodeAttributes)
        requires
            old(self).wf(),
            old(self).contains(id),
        ensures
            final(self).wf(),
            final(self).root() == old(self).root(),
            final(self).entries().dom() == old(self).entries().dom(),
            final(self).node(id) == (NodeView { attributes, ..old(self).node(id) }),
            forall|y: NodeId|
                old(self).contains(y) && y != id ==> #[trigger] final(self).entries()[y] == old(
                    self,
                ).entries()[y],
            final(self).preorder() == old(self).preorder(),
    {
        let ghost pre = *self;
        let node = slots_get_mut(&mut self.nodes, id);
        node.attributes = attributes;
        proof {
            assert(self.entries().dom() =~= pre.entries().dom());
            Self::lemma_same_children_wf(pre, *self);
            Self::lemma_same_preorder(pre, *self, pre.root());
        }
    }
}

} // verus!
