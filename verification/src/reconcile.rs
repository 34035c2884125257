//! Reconciling the children of a node with what its composition yields.
//!
//! A composition yields descriptors. Each of them is held against the children that the node
//! had: the child of the same identity is reused if its properties are unchanged, and rebuilt
//! under its handle if they are not; a descriptor without such a child has a node built. What
//! no descriptor claims leaves the tree, with all that hangs below it.

use crate::arena::{copy_ids, slots_get, slots_get_mut, slots_insert, slots_len, slots_remove, Arena};
use crate::node::{fresh_view, ArenaNode, Descriptor, Identity, NodeId, NodeView};
use crate::rect::LogicalRect;
use vstd::prelude::*;

verus! {

/// What became of a descriptor when its parent was reconciled.
#[derive(Clone, Copy, Debug, PartialEq, Eq, Structural)]
pub enum Fate {
    /// No child had the descriptor's identity: a node was built for it.
    Built,
    /// A child had the identity and the same properties: it stands as it was.
    Reused,
    /// A child had the identity but other properties: it was built anew under its handle.
    Rebuilt,
}

/// The outcome of reconciling the children of one node.
pub struct Reconciled {
    /// The node's children, one for each descriptor, in the order of the descriptors.
    pub children: Vec<NodeId>,
    /// What became of each descriptor.
    pub fates: Vec<Fate>,
    /// The handles of the nodes that were taken out of the tree.
    pub removed: Vec<NodeId>,
}

/// Why the children of a node were not reconciled.
#[derive(Clone, Copy, Debug, PartialEq, Eq, Structural)]
pub enum ReconcileError {
    /// The handle names no node of the arena.
    UnknownNode,
    /// Two of the descriptors have the same identity.
    DuplicateIdentity,
    /// The arena cannot hold a node for each descriptor.
    Full,
}

/// The number of nodes that an arena can hold.
pub const CAPACITY: usize = 0xffff_fffe;

/// No two of the descriptors have the same identity.
pub open spec fn distinct_identities(ds: Seq<Descriptor>) -> bool {
    forall|a: int, b: int|
        0 <= a < b < ds.len() ==> (#[trigger] ds[a]).identity != (#[trigger] ds[b]).identity
}

/// The first place from `from` on where `olds` holds `ident`, or -1 where it holds it nowhere.
pub open spec fn position(olds: Seq<Identity>, ident: Identity, from: int) -> int
    decreases olds.len() - from,
{
    if from < 0 || from >= olds.len() {
        -1
    } else if olds[from] == ident {
        from
    } else {
        position(olds, ident, from + 1)
    }
}

/// The position of an identity is the first place that holds it: it is a place that holds it,
/// and no place before it does.
pub proof fn lemma_position(olds: Seq<Identity>, ident: Identity, from: int)
    requires
        0 <= from <= olds.len(),
    ensures
        position(olds, ident, from) == -1 || from <= position(olds, ident, from) < olds.len(),
        position(olds, ident, from) >= 0 ==> olds[position(olds, ident, from)] == ident,
        forall|j: int|
            from <= j < olds.len() && (position(olds, ident, from) == -1 || j < position(
                olds,
                ident,
                from,
            )) ==> olds[j] != ident,
    decreases olds.len() - from,
{
    if from < olds.len() && olds[from] != ident {
        lemma_position(olds, ident, from + 1);
    }
}

/// Where an identity stands at place `k` and nowhere before, its position is `k`.
pub proof fn lemma_position_is(olds: Seq<Identity>, ident: Identity, from: int, k: int)
    requires
        0 <= from <= k < olds.len(),
        olds[k] == ident,
        forall|j: int| from <= j < k ==> olds[j] != ident,
    ensures
        position(olds, ident, from) == k,
    decreases k - from,
{
    if from < k {
        lemma_position_is(olds, ident, from + 1, k);
    }
}

/// Whether `y` is the child that stands for a descriptor of the given fate.
pub open spec fn child_of_fate(kids: Seq<NodeId>, fates: Seq<Fate>, fate: Fate, y: NodeId) -> bool {
    exists|q: int| 0 <= q < kids.len() && fates[q] == fate && #[trigger] kids[q] == y
}

/// Whether `child` stands in `post` for the descriptor `d` of the children of `id`, as `pre`
/// and `d` demand.
pub open spec fn settled(
    pre: Arena,
    post: Arena,
    id: NodeId,
    ds: Seq<Descriptor>,
    k: int,
    child: NodeId,
    fate: Fate,
) -> bool {
    &&& fate == pre.fate_of(id, ds[k])
    &&& post.contains(child)
    &&& match fate {
        Fate::Built => {
            &&& !pre.kept(id, ds, child)
            &&& post.node(child) == fresh_view(ds[k].identity, ds[k].props@, ds[k].attributes)
        },
        Fate::Reused => {
            &&& child == pre.children_of(id)[pre.claimed(id, ds[k])]
            &&& post.node(child) == pre.node(child)
        },
        Fate::Rebuilt => {
            &&& child == pre.children_of(id)[pre.claimed(id, ds[k])]
            &&& post.node(child) == fresh_view(ds[k].identity, ds[k].props@, ds[k].attributes)
        },
    }
}

/// Whether `post` is `pre` after the children of `id` were reconciled with `ds`, with the
/// outcome `out`.
///
/// The node has one child for each descriptor, in their order. A descriptor whose identity no
/// child had is given a new node; one whose identity and properties a child had keeps that child
/// with all that hangs below it; one whose identity a child had with other properties keeps the
/// child's handle for a new node without children. Every other node below `id` has left the
/// tree, and nothing else has changed.
pub open spec fn reconciled(
    pre: Arena,
    post: Arena,
    id: NodeId,
    ds: Seq<Descriptor>,
    out: Reconciled,
) -> bool {
    let kids = out.children@;
    let fates = out.fates@;
    &&& post.wf()
    &&& post.root() == pre.root()
    &&& kids.len() == ds.len()
    &&& fates.len() == ds.len()
    &&& post.contains(id)
    &&& post.node(id) == (NodeView { children: kids, ..pre.node(id) })
    &&& forall|k: int|
        0 <= k < ds.len() ==> settled(pre, post, id, ds, k, #[trigger] kids[k], fates[k])
    &&& forall|y: NodeId| #[trigger] out.removed@.contains(y) <==> pre.dropped(id, ds, y)
    &&& forall|y: NodeId| #[trigger]
        post.contains(y) <==> pre.kept(id, ds, y) || child_of_fate(kids, fates, Fate::Built, y)
    &&& forall|y: NodeId|
        pre.kept(id, ds, y) && y != id && !child_of_fate(kids, fates, Fate::Rebuilt, y)
            ==> #[trigger] post.node(y) == pre.node(y)
}

/// The children so far and one more: what stands for a fate among them.
pub proof fn lemma_child_of_fate_push(
    kids: Seq<NodeId>,
    fates: Seq<Fate>,
    fate: Fate,
    c: NodeId,
    y: NodeId,
)
    requires
        kids.len() < fates.len(),
    ensures
        child_of_fate(kids.push(c), fates, fate, y) <==> child_of_fate(kids, fates, fate, y) || (
        fates[kids.len() as int] == fate && c == y),
{
    let more = kids.push(c);
    if child_of_fate(kids, fates, fate, y) {
        let q = choose|q: int| 0 <= q < kids.len() && fates[q] == fate && #[trigger] kids[q] == y;
        assert(more[q] == y);
    }
    if fates[kids.len() as int] == fate && c == y {
        assert(more[kids.len() as int] == y);
    }
    if child_of_fate(more, fates, fate, y) {
        let q = choose|q: int| 0 <= q < more.len() && fates[q] == fate && #[trigger] more[q] == y;
        if q < kids.len() {
            assert(kids[q] == y);
        }
    }
}

/// Copies an encoding.
fn copy_bytes(bytes: &Vec<u8>) -> (copy: Vec<u8>)
    ensures
        copy@ == bytes@,
{
    let mut copy: Vec<u8> = Vec::new();
    let mut i: usize = 0;
    while i < bytes.len()
        invariant
            i <= bytes.len(),
            copy.len() == i,
            forall|j: int| 0 <= j < i ==> copy[j] == bytes[j],
        decreases bytes.len() - i,
    {
        copy.push(bytes[i]);
        i = i + 1;
    }
    assert(copy@ =~= bytes@);
    copy
}

/// Tells whether no two of the descriptors have the same identity.
pub fn identities_distinct(descriptors: &Vec<Descriptor>) -> (distinct: bool)
    ensures
        distinct == distinct_identities(descriptors@),
{
    let n = descriptors.len();
    let mut b: usize = 0;
    while b < n
        invariant
            n == descriptors.len(),
            b <= n,
            forall|p: int, q: int|
                0 <= p < q < b ==> (#[trigger] descriptors[p]).identity != (
                #[trigger] descriptors[q]).identity,
        decreases n - b,
    {
        let mut a: usize = 0;
        while a < b
            invariant
                n == descriptors.len(),
                a <= b < n,
                forall|p: int|
                    0 <= p < a ==> (#[trigger] descriptors[p]).identity
                        != descriptors[b as int].identity,
            decreases b - a,
        {
            if descriptors[a].identity.matches(descriptors[b].identity) {
                return false;
            }
            a = a + 1;
        }
        b = b + 1;
    }
    true
}

impl Arena {
    /// The identities of the children of a node, in their order.
    pub open spec fn child_identities(&self, id: NodeId) -> Seq<Identity> {
        Seq::new(
            self.children_of(id).len(),
            |j: int| self.entries()[self.children_of(id)[j]].identity,
        )
    }

    /// The place among the children of `id` of the first child with the identity of `d`, or -1
    /// where no child has it.
    pub open spec fn claimed(&self, id: NodeId, d: Descriptor) -> int {
        position(self.child_identities(id), d.identity, 0)
    }

    /// What becomes of `d` when the children of `id` are reconciled with it.
    pub open spec fn fate_of(&self, id: NodeId, d: Descriptor) -> Fate {
        let j = self.claimed(id, d);
        if j < 0 {
            Fate::Built
        } else if self.entries()[self.children_of(id)[j]].props@ == d.props@ {
            Fate::Reused
        } else {
            Fate::Rebuilt
        }
    }

    /// Whether `d` keeps `y` in the tree: `y` lies in the subtree of the child that `d` reuses,
    /// or is the child that `d` rebuilds.
    pub open spec fn saves(&self, id: NodeId, d: Descriptor, y: NodeId) -> bool {
        let j = self.claimed(id, d);
        match self.fate_of(id, d) {
            Fate::Built => false,
            Fate::Reused => self.within(y, self.children_of(id)[j]),
            Fate::Rebuilt => y == self.children_of(id)[j],
        }
    }

    /// Whether `y` leaves the tree when the children of `id` are reconciled with `ds`: it lies
    /// below `id`, and no descriptor keeps it.
    pub open spec fn dropped(&self, id: NodeId, ds: Seq<Descriptor>, y: NodeId) -> bool {
        &&& self.contains(y)
        &&& self.within(y, id)
        &&& y != id
        &&& forall|k: int| 0 <= k < ds.len() ==> !self.saves(id, #[trigger] ds[k], y)
    }

    /// Whether `y` stays in the tree when the children of `id` are reconciled with `ds`.
    pub open spec fn kept(&self, id: NodeId, ds: Seq<Descriptor>, y: NodeId) -> bool {
        self.contains(y) && !self.dropped(id, ds, y)
    }

    /// Whether the removal of the children of `id` starts at `r`: `r` is a child of `id` that no
    /// descriptor claims, or a child of a child that is rebuilt.
    pub open spec fn doom_root(&self, id: NodeId, ds: Seq<Descriptor>, r: NodeId) -> bool {
        ||| exists|j: int|
            0 <= j < self.children_of(id).len() && r == #[trigger] self.children_of(id)[j]
                && forall|k: int| 0 <= k < ds.len() ==> self.claimed(id, #[trigger] ds[k]) != j
        ||| exists|k: int, i: int|
            0 <= k < ds.len() && self.fate_of(id, #[trigger] ds[k]) == Fate::Rebuilt && 0 <= i
                < self.children_of(self.children_of(id)[self.claimed(id, ds[k])]).len() && r
                == #[trigger] self.children_of(self.children_of(id)[self.claimed(id, ds[k])])[i]
    }

    /// Whether `y` lies in the subtree of one of `roots`.
    pub open spec fn under(&self, roots: Seq<NodeId>, y: NodeId) -> bool {
        exists|i: int| 0 <= i < roots.len() && self.within(y, #[trigger] roots[i])
    }

    /// Where nothing is left to visit, no node under `roots` is left: each such node would have a
    /// parent that is left and lies under `roots` as well, up to the root.
    proof fn lemma_none_left(&self, live: Set<NodeId>, roots: Seq<NodeId>, y: NodeId)
        requires
            self.wf(),
            forall|z: NodeId| live.contains(z) ==> self.contains(z),
            forall|z: NodeId|
                live.contains(z) && #[trigger] self.under(roots, z) ==> z != self.root()
                    && live.contains(self.parents()[z]) && self.under(roots, self.parents()[z]),
            live.contains(y),
        ensures
            !self.under(roots, y),
        decreases self.depths()[y],
    {
        if self.under(roots, y) {
            self.lemma_parent_step(y);
            self.lemma_none_left(live, roots, self.parents()[y]);
        }
    }

    /// Takes the subtrees of `roots` out of the slot map, and returns the handles of their
    /// nodes. What refers to them from outside is left as it is.
    fn prune(&mut self, roots: Vec<NodeId>) -> (removed: Vec<NodeId>)
        requires
            old(self).wf(),
            forall|i: int| 0 <= i < roots.len() ==> old(self).contains(#[trigger] roots[i]),
        ensures
            final(self).root() == old(self).root(),
            final(self).parents() == old(self).parents(),
            final(self).depths() == old(self).depths(),
            final(self).height() == old(self).height(),
            final(self).entries().dom().finite(),
            final(self).entries().dom().len() <= old(self).entries().dom().len(),
            forall|y: NodeId|
                final(self).contains(y) <==> old(self).contains(y) && !old(self).under(roots@, y),
            forall|y: NodeId|
                final(self).contains(y) ==> final(self).entries()[y] == old(self).entries()[y],
            forall|y: NodeId|
                removed@.contains(y) <==> old(self).contains(y) && old(self).under(roots@, y),
    {
        let ghost pre = *self;
        let ghost targets = roots@;
        let mut stack = roots;
        let mut removed: Vec<NodeId> = Vec::new();
        proof {
            assert forall|y: NodeId|
                self.contains(y) && #[trigger] pre.under(targets, y) && !stack@.contains(
                    y,
                ) implies y != pre.root() && self.contains(pre.parents()[y]) && pre.under(
                targets,
                pre.parents()[y],
            ) by {
                let i = choose|i: int| 0 <= i < targets.len() && pre.within(y, targets[i]);
                assert(y != targets[i]);
                assert(pre.within(pre.parents()[y], targets[i]));
                pre.lemma_within_depth(y, targets[i]);
                pre.lemma_parent_step(y);
            }
            assert forall|k: int| 0 <= k < stack.len() implies pre.under(
                targets,
                #[trigger] stack[k],
            ) by {
                assert(pre.within(targets[k], targets[k]));
            }
        }
        while stack.len() > 0
            invariant
                pre.wf(),
                self.root() == pre.root(),
                self.parents() == pre.parents(),
                self.depths() == pre.depths(),
                self.height() == pre.height(),
                self.entries().dom().finite(),
                self.entries().dom().len() <= pre.entries().dom().len(),
                forall|y: NodeId| self.contains(y) ==> pre.contains(y),
                forall|y: NodeId| self.contains(y) ==> self.entries()[y] == pre.entries()[y],
                forall|y: NodeId|
                    pre.contains(y) && !self.contains(y) ==> pre.under(targets, y),
                forall|y: NodeId|
                    #[trigger] removed@.contains(y) <==> pre.contains(y) && !self.contains(y),
                forall|k: int|
                    0 <= k < stack.len() ==> pre.contains(#[trigger] stack[k]) && pre.under(
                        targets,
                        stack[k],
                    ),
                forall|y: NodeId|
                    self.contains(y) && #[trigger] pre.under(targets, y) && !stack@.contains(y)
                        ==> y != pre.root() && self.contains(pre.parents()[y]) && pre.under(
                        targets,
                        pre.parents()[y],
                    ),
            decreases self.entries().dom().len(), stack.len(),
        {
            let ghost before = *self;
            let ghost full = stack@;
            let ghost taken = removed@;
            assert(forall|y: NodeId|
                #[trigger] taken.contains(y) <==> pre.contains(y) && !before.contains(y));
            let s = stack.pop().unwrap();
            let ghost base = stack@;
            proof {
                assert(s == full[full.len() - 1]);
                assert(base =~= full.drop_last());
                assert forall|y: NodeId| full.contains(y) && y != s implies base.contains(y) by {
                    let k = choose|k: int| 0 <= k < full.len() && full[k] == y;
                    assert(base[k] == y);
                }
            }
            match slots_remove(&mut self.nodes, s) {
                None => {
                    proof {
                        assert(self.entries() =~= before.entries());
                    }
                },
                Some(node) => {
                    assert(node == pre.entries()[s]);
                    removed.push(s);
                    let ghost kids = pre.children_of(s);
                    let n = node.children.len();
                    let mut j: usize = 0;
                    while j < n
                        invariant
                            n == node.children.len(),
                            node.children@ == kids,
                            j <= n,
                            stack@.len() == base.len() + j,
                            forall|k: int| 0 <= k < base.len() ==> stack[k] == base[k],
                            forall|k: int| 0 <= k < j ==> stack[base.len() + k] == kids[k],
                        decreases n - j,
                    {
                        stack.push(node.children[j]);
                        j = j + 1;
                    }
                    proof {
                        assert(self.entries().dom() =~= before.entries().dom().remove(s));
                        assert forall|y: NodeId| removed@.contains(y) <==> pre.contains(y)
                            && !self.contains(y) by {
                            assert(removed@ =~= taken.push(s));
                            assert(pre.contains(s) && !self.contains(s));
                            if removed@.contains(y) {
                                let k = choose|k: int| 0 <= k < removed@.len() && removed@[k] == y;
                                if k < taken.len() {
                                    assert(taken[k] == y);
                                    assert(taken.contains(y));
                                    assert(!before.contains(y));
                                } else {
                                    assert(y == s);
                                }
                            }
                            if pre.contains(y) && !self.contains(y) {
                                if y == s {
                                    assert(removed@[removed@.len() - 1] == y);
                                } else {
                                    assert(taken.contains(y));
                                    let k = choose|k: int| 0 <= k < taken.len() && taken[k] == y;
                                    assert(removed@[k] == y);
                                }
                            }
                        }
                        assert forall|k: int| 0 <= k < stack.len() implies pre.contains(
                            #[trigger] stack[k],
                        ) && pre.under(targets, stack[k]) by {
                            if k >= base.len() {
                                let c = kids[k - base.len()];
                                assert(stack[k] == c);
                                pre.lemma_child_within(s, k - base.len());
                                let i = choose|i: int|
                                    0 <= i < targets.len() && pre.within(s, targets[i]);
                                pre.lemma_within_trans(c, s, targets[i]);
                            } else {
                                assert(stack[k] == base[k]);
                                assert(base[k] == full[k]);
                            }
                        }
                        assert forall|y: NodeId|
                            self.contains(y) && #[trigger] pre.under(targets, y)
                                && !stack@.contains(y) implies y != pre.root() && self.contains(
                            pre.parents()[y],
                        ) && pre.under(targets, pre.parents()[y]) by {
                            if full.contains(y) {
                                assert(base.contains(y));
                                let k = choose|k: int| 0 <= k < base.len() && base[k] == y;
                                assert(stack@[k] == y);
                            }
                            assert(before.contains(y));
                            if pre.parents()[y] == s {
                                pre.lemma_parent_step(y);
                                let k = choose|k: int| 0 <= k < kids.len() && kids[k] == y;
                                assert(stack@[base.len() + k] == y);
                            }
                        }
                    }
                },
            }
        }
        proof {
            assert(stack@.len() == 0);
            assert forall|y: NodeId| self.contains(y) implies !pre.under(targets, y) by {
                pre.lemma_none_left(self.entries().dom(), targets, y);
            }
            assert forall|y: NodeId| removed@.contains(y) <==> pre.contains(y) && pre.under(
                targets,
                y,
            ) by {}
        }
        removed
    }

    /// The place of the child of `id` that a descriptor claims is a place of a child with the
    /// descriptor's identity; descriptors of different identities claim different places.
    pub proof fn lemma_claimed(&self, id: NodeId, d: Descriptor)
        ensures
            self.claimed(id, d) == -1 || 0 <= self.claimed(id, d) < self.children_of(id).len(),
            self.claimed(id, d) >= 0 ==> self.entries()[self.children_of(id)[self.claimed(
                id,
                d,
            )]].identity == d.identity,
    {
        lemma_position(self.child_identities(id), d.identity, 0);
    }

    /// The child that a descriptor claims is kept, and no other descriptor claims it.
    proof fn lemma_claimed_kept(&self, id: NodeId, ds: Seq<Descriptor>, k: int)
        requires
            self.wf(),
            self.contains(id),
            distinct_identities(ds),
            0 <= k < ds.len(),
            self.claimed(id, ds[k]) >= 0,
        ensures
            0 <= self.claimed(id, ds[k]) < self.children_of(id).len(),
            self.kept(id, ds, self.children_of(id)[self.claimed(id, ds[k])]),
            self.children_of(id)[self.claimed(id, ds[k])] != id,
            forall|q: int|
                0 <= q < ds.len() && self.claimed(id, #[trigger] ds[q]) == self.claimed(id, ds[k])
                    ==> q == k,
    {
        self.lemma_claimed(id, ds[k]);
        let j = self.claimed(id, ds[k]);
        let c = self.children_of(id)[j];
        assert(self.hangs(id, j));
        assert(self.within(c, c));
        assert(self.saves(id, ds[k], c));
        assert forall|q: int|
            0 <= q < ds.len() && self.claimed(id, #[trigger] ds[q]) == j implies q == k by {
            self.lemma_claimed(id, ds[q]);
        }
    }

    /// The node whose children are reconciled stays, and so does the root.
    proof fn lemma_kept_above(&self, id: NodeId, ds: Seq<Descriptor>)
        requires
            self.wf(),
            self.contains(id),
        ensures
            self.kept(id, ds, id),
            self.kept(id, ds, self.root()),
    {
        if self.within(self.root(), id) && self.root() != id {
            self.lemma_within_depth(self.root(), id);
        }
    }

    /// A kept node below `id` is kept by a descriptor.
    proof fn lemma_kept_saved(&self, id: NodeId, ds: Seq<Descriptor>, y: NodeId) -> (k: int)
        requires
            self.kept(id, ds, y),
            self.within(y, id),
            y != id,
        ensures
            0 <= k < ds.len(),
            self.saves(id, ds[k], y),
    {
        choose|k: int| 0 <= k < ds.len() && self.saves(id, #[trigger] ds[k], y)
    }

    /// The nodes that the removal reaches from its roots are the nodes that are dropped.
    proof fn lemma_roots_cover(&self, id: NodeId, ds: Seq<Descriptor>, roots: Seq<NodeId>, y: NodeId)
        requires
            self.wf(),
            self.contains(id),
            self.contains(y),
            distinct_identities(ds),
            forall|i: int| 0 <= i < roots.len() ==> self.doom_root(id, ds, #[trigger] roots[i]),
            forall|r: NodeId| #[trigger] self.doom_root(id, ds, r) ==> roots.contains(r),
        ensures
            self.under(roots, y) <==> self.dropped(id, ds, y),
    {
        let kids = self.children_of(id);
        if self.under(roots, y) {
            let i = choose|i: int| 0 <= i < roots.len() && self.within(y, roots[i]);
            let r = roots[i];
            assert(self.doom_root(id, ds, r));
            if exists|j: int|
                0 <= j < kids.len() && r == #[trigger] kids[j] && forall|k: int|
                    0 <= k < ds.len() ==> self.claimed(id, #[trigger] ds[k]) != j {
                let j = choose|j: int|
                    0 <= j < kids.len() && r == #[trigger] kids[j] && forall|k: int|
                        0 <= k < ds.len() ==> self.claimed(id, #[trigger] ds[k]) != j;
                self.lemma_child_within(id, j);
                self.lemma_within_trans(y, r, id);
                self.lemma_within_depth(y, r);
                assert(self.hangs(id, j));
                assert forall|k: int| 0 <= k < ds.len() implies !self.saves(
                    id,
                    #[trigger] ds[k],
                    y,
                ) by {
                    let jk = self.claimed(id, ds[k]);
                    self.lemma_claimed(id, ds[k]);
                    if self.saves(id, ds[k], y) {
                        assert(self.hangs(id, jk));
                        if self.fate_of(id, ds[k]) == Fate::Reused {
                            self.lemma_unique_ancestor(y, kids[jk], r);
                        } else {
                            self.lemma_within_depth(kids[jk], r);
                        }
                        assert(kids[jk] == kids[j]);
                    }
                }
            } else {
                let (k, c) = choose|k: int, c: int|
                    0 <= k < ds.len() && self.fate_of(id, #[trigger] ds[k]) == Fate::Rebuilt && 0
                        <= c < self.children_of(kids[self.claimed(id, ds[k])]).len() && r
                        == #[trigger] self.children_of(kids[self.claimed(id, ds[k])])[c];
                let jk = self.claimed(id, ds[k]);
                self.lemma_claimed(id, ds[k]);
                let b = kids[jk];
                assert(self.hangs(id, jk));
                self.lemma_child_within(id, jk);
                self.lemma_child_within(b, c);
                assert(self.hangs(b, c));
                self.lemma_within_trans(y, r, b);
                self.lemma_within_trans(y, b, id);
                self.lemma_within_depth(y, r);
                assert forall|q: int| 0 <= q < ds.len() implies !self.saves(
                    id,
                    #[trigger] ds[q],
                    y,
                ) by {
                    let jq = self.claimed(id, ds[q]);
                    self.lemma_claimed(id, ds[q]);
                    if self.saves(id, ds[q], y) {
                        assert(self.hangs(id, jq));
                        if self.fate_of(id, ds[q]) == Fate::Reused {
                            self.lemma_unique_ancestor(y, kids[jq], b);
                            assert(jq == jk);
                            assert(ds[q].identity == ds[k].identity);
                            assert(q == k);
                        }
                    }
                }
            }
        }
        if self.dropped(id, ds, y) {
            let j = self.lemma_below_child(y, id);
            assert(self.hangs(id, j));
            if forall|k: int| 0 <= k < ds.len() ==> self.claimed(id, #[trigger] ds[k]) != j {
                assert(self.doom_root(id, ds, kids[j]));
                assert(roots.contains(kids[j]));
                let i = choose|i: int| 0 <= i < roots.len() && roots[i] == kids[j];
                assert(self.within(y, roots[i]));
            } else {
                let k = choose|k: int| 0 <= k < ds.len() && self.claimed(id, #[trigger] ds[k]) == j;
                self.lemma_claimed(id, ds[k]);
                assert(!self.saves(id, ds[k], y));
                assert(self.fate_of(id, ds[k]) == Fate::Rebuilt);
                let c = self.lemma_below_child(y, kids[j]);
                let r = self.children_of(kids[j])[c];
                assert(self.doom_root(id, ds, r));
                assert(roots.contains(r));
                let i = choose|i: int| 0 <= i < roots.len() && roots[i] == r;
                assert(self.within(y, roots[i]));
            }
        }
    }

    /// Finds the first child of `id` with the given identity.
    fn claim(&self, id: NodeId, ident: Identity) -> (found: Option<usize>)
        requires
            self.wf(),
            self.contains(id),
        ensures
            match found {
                Some(j) => j as int == position(self.child_identities(id), ident, 0),
                None => position(self.child_identities(id), ident, 0) == -1,
            },
    {
        let node = slots_get(&self.nodes, id).unwrap();
        let n = node.children.len();
        let ghost olds = self.child_identities(id);
        let mut j: usize = 0;
        while j < n
            invariant
                self.wf(),
                self.contains(id),
                node.children@ == self.children_of(id),
                n == node.children.len(),
                olds == self.child_identities(id),
                j <= n,
                position(olds, ident, 0) == position(olds, ident, j as int),
            decreases n - j,
        {
            assert(self.hangs(id, j as int));
            let child = slots_get(&self.nodes, node.children[j]).unwrap();
            if child.identity.matches(ident) {
                return Some(j);
            }
            j = j + 1;
        }
        None
    }

    /// Decides what becomes of each descriptor, and which children of `id` are claimed.
    fn plan(&self, id: NodeId, descriptors: &Vec<Descriptor>) -> (r: (
        Vec<Fate>,
        Vec<Option<usize>>,
        Vec<bool>,
    ))
        requires
            self.wf(),
            self.contains(id),
        ensures
            r.0.len() == descriptors.len(),
            r.1.len() == descriptors.len(),
            r.2.len() == self.children_of(id).len(),
            forall|k: int|
                0 <= k < descriptors.len() ==> (#[trigger] r.0[k]) == self.fate_of(
                    id,
                    descriptors[k],
                ),
            forall|k: int|
                0 <= k < descriptors.len() ==> match #[trigger] r.1[k] {
                    Some(j) => j as int == self.claimed(id, descriptors[k]),
                    None => self.claimed(id, descriptors[k]) == -1,
                },
            forall|j: int|
                0 <= j < r.2.len() ==> ((#[trigger] r.2[j]) <==> exists|k: int|
                    0 <= k < descriptors.len() && self.claimed(id, #[trigger] descriptors[k])
                        == j),
    {
        let node = slots_get(&self.nodes, id).unwrap();
        let n = node.children.len();
        let m = descriptors.len();
        let mut flags: Vec<bool> = Vec::new();
        let mut j: usize = 0;
        while j < n
            invariant
                j <= n,
                flags.len() == j,
                forall|i: int| 0 <= i < j ==> !flags[i],
            decreases n - j,
        {
            flags.push(false);
            j = j + 1;
        }
        let mut fates: Vec<Fate> = Vec::new();
        let mut claims: Vec<Option<usize>> = Vec::new();
        let mut k: usize = 0;
        while k < m
            invariant
                self.wf(),
                self.contains(id),
                node.children@ == self.children_of(id),
                n == node.children.len(),
                m == descriptors.len(),
                k <= m,
                fates.len() == k,
                claims.len() == k,
                flags.len() == n,
                forall|q: int|
                    0 <= q < k ==> (#[trigger] fates[q]) == self.fate_of(id, descriptors[q]),
                forall|q: int|
                    0 <= q < k ==> match #[trigger] claims[q] {
                        Some(j) => j as int == self.claimed(id, descriptors[q]),
                        None => self.claimed(id, descriptors[q]) == -1,
                    },
                forall|j: int|
                    0 <= j < n ==> ((#[trigger] flags[j]) <==> exists|q: int|
                        0 <= q < k && self.claimed(id, #[trigger] descriptors[q]) == j),
            decreases m - k,
        {
            let ghost marked = flags@;
            let found = self.claim(id, descriptors[k].identity);
            proof {
                self.lemma_claimed(id, descriptors[k as int]);
            }
            let fate = match found {
                None => Fate::Built,
                Some(j) => {
                    assert(self.hangs(id, j as int));
                    let child = slots_get(&self.nodes, node.children[j]).unwrap();
                    flags.set(j, true);
                    if child.has_props(&descriptors[k].props) {
                        Fate::Reused
                    } else {
                        Fate::Rebuilt
                    }
                },
            };
            fates.push(fate);
            claims.push(found);
            proof {
                assert forall|j: int| 0 <= j < n implies ((#[trigger] flags[j]) <==> exists|q: int|
                    0 <= q < k + 1 && self.claimed(id, #[trigger] descriptors[q]) == j) by {
                    if flags[j] {
                        if marked[j] {
                            let q = choose|q: int|
                                0 <= q < k && self.claimed(id, #[trigger] descriptors[q]) == j;
                            assert(0 <= q < k + 1);
                        } else {
                            assert(self.claimed(id, descriptors[k as int]) == j);
                        }
                    }
                    if exists|q: int|
                        0 <= q < k + 1 && self.claimed(id, #[trigger] descriptors[q]) == j {
                        let q = choose|q: int|
                            0 <= q < k + 1 && self.claimed(id, #[trigger] descriptors[q]) == j;
                        if q < k {
                            assert(marked[j]);
                        }
                    }
                }
            }
            k = k + 1;
        }
        (fates, claims, flags)
    }

    /// Collects the nodes at which the removal starts.
    fn doomed(
        &self,
        id: NodeId,
        descriptors: &Vec<Descriptor>,
        fates: &Vec<Fate>,
        claims: &Vec<Option<usize>>,
        flags: &Vec<bool>,
    ) -> (roots: Vec<NodeId>)
        requires
            self.wf(),
            self.contains(id),
            fates.len() == descriptors.len(),
            claims.len() == descriptors.len(),
            flags.len() == self.children_of(id).len(),
            forall|k: int|
                0 <= k < descriptors.len() ==> (#[trigger] fates[k]) == self.fate_of(
                    id,
                    descriptors[k],
                ),
            forall|k: int|
                0 <= k < descriptors.len() ==> match #[trigger] claims[k] {
                    Some(j) => j as int == self.claimed(id, descriptors[k]),
                    None => self.claimed(id, descriptors[k]) == -1,
                },
            forall|j: int|
                0 <= j < flags.len() ==> ((#[trigger] flags[j]) <==> exists|k: int|
                    0 <= k < descriptors.len() && self.claimed(id, #[trigger] descriptors[k])
                        == j),
        ensures
            forall|i: int|
                0 <= i < roots.len() ==> self.contains(#[trigger] roots[i]) && self.doom_root(
                    id,
                    descriptors@,
                    roots[i],
                ),
            forall|r: NodeId| #[trigger] self.doom_root(id, descriptors@, r) ==> roots@.contains(r),
    {
        let ghost ds = descriptors@;
        let node = slots_get(&self.nodes, id).unwrap();
        let ghost kids = self.children_of(id);
        let n = node.children.len();
        let m = descriptors.len();
        let mut roots: Vec<NodeId> = Vec::new();
        let mut j: usize = 0;
        while j < n
            invariant
                self.wf(),
                self.contains(id),
                ds == descriptors@,
                kids == self.children_of(id),
                node.children@ == kids,
                n == kids.len(),
                flags.len() == n,
                j <= n,
                forall|j: int|
                    0 <= j < flags.len() ==> ((#[trigger] flags[j]) <==> exists|k: int|
                        0 <= k < ds.len() && self.claimed(id, #[trigger] ds[k]) == j),
                forall|i: int|
                    0 <= i < roots.len() ==> self.contains(#[trigger] roots[i]) && self.doom_root(
                        id,
                        ds,
                        roots[i],
                    ),
                forall|q: int| 0 <= q < j && !flags[q] ==> roots@.contains(#[trigger] kids[q]),
            decreases n - j,
        {
            if !flags[j] {
                let ghost had = roots@;
                roots.push(node.children[j]);
                proof {
                    assert(self.hangs(id, j as int));
                    assert(roots@[had.len() as int] == kids[j as int]);
                    assert forall|q: int| 0 <= q < j && !flags[q] implies roots@.contains(
                        #[trigger] kids[q],
                    ) by {
                        let i = choose|i: int| 0 <= i < had.len() && had[i] == kids[q];
                        assert(roots@[i] == kids[q]);
                    }
                }
            }
            j = j + 1;
        }
        let mut k: usize = 0;
        while k < m
            invariant
                self.wf(),
                self.contains(id),
                ds == descriptors@,
                kids == self.children_of(id),
                node.children@ == kids,
                n == kids.len(),
                m == ds.len(),
                fates.len() == m,
                claims.len() == m,
                k <= m,
                forall|k: int| 0 <= k < m ==> (#[trigger] fates[k]) == self.fate_of(id, ds[k]),
                forall|k: int|
                    0 <= k < m ==> match #[trigger] claims[k] {
                        Some(j) => j as int == self.claimed(id, ds[k]),
                        None => self.claimed(id, ds[k]) == -1,
                    },
                forall|i: int|
                    0 <= i < roots.len() ==> self.contains(#[trigger] roots[i]) && self.doom_root(
                        id,
                        ds,
                        roots[i],
                    ),
                forall|q: int| 0 <= q < n && !flags[q] ==> roots@.contains(#[trigger] kids[q]),
                forall|q: int, c: int|
                    0 <= q < k && self.fate_of(id, #[trigger] ds[q]) == Fate::Rebuilt && 0 <= c
                        < self.children_of(kids[self.claimed(id, ds[q])]).len()
                        ==> roots@.contains(
                        #[trigger] self.children_of(kids[self.claimed(id, ds[q])])[c],
                    ),
            decreases m - k,
        {
            let ghost start = roots@;
            match (fates[k], claims[k]) {
                (Fate::Rebuilt, Some(j)) => {
                    proof {
                        self.lemma_claimed(id, ds[k as int]);
                        assert(self.hangs(id, j as int));
                    }
                    let child = slots_get(&self.nodes, node.children[j]).unwrap();
                    let ghost grand = self.children_of(kids[j as int]);
                    let g = child.children.len();
                    let mut c: usize = 0;
                    while c < g
                        invariant
                            self.wf(),
                            self.contains(id),
                            self.contains(kids[j as int]),
                            kids == self.children_of(id),
                            0 <= k < ds.len(),
                            self.fate_of(id, ds[k as int]) == Fate::Rebuilt,
                            j as int == self.claimed(id, ds[k as int]),
                            grand == self.children_of(kids[j as int]),
                            child.children@ == grand,
                            g == grand.len(),
                            c <= g,
                            roots.len() == start.len() + c,
                            forall|i: int| 0 <= i < start.len() ==> roots[i] == start[i],
                            forall|i: int| 0 <= i < c ==> roots[start.len() + i] == grand[i],
                        decreases g - c,
                    {
                        roots.push(child.children[c]);
                        c = c + 1;
                    }
                    proof {
                        assert forall|i: int| 0 <= i < roots.len() implies self.contains(
                            #[trigger] roots[i],
                        ) && self.doom_root(id, ds, roots[i]) by {
                            if i >= start.len() {
                                let c = i - start.len();
                                assert(roots[i] == grand[c]);
                                assert(self.hangs(kids[j as int], c));
                                assert(roots[i] == self.children_of(
                                    kids[self.claimed(id, ds[k as int])],
                                )[c]);
                            } else {
                                assert(roots[i] == start[i]);
                            }
                        }
                    }
                },
                _ => {},
            }
            proof {
                assert forall|r: NodeId| start.contains(r) implies roots@.contains(r) by {
                    let i = choose|i: int| 0 <= i < start.len() && start[i] == r;
                    assert(roots@[i] == r);
                }
                assert forall|q: int, c: int|
                    0 <= q < k + 1 && self.fate_of(id, #[trigger] ds[q]) == Fate::Rebuilt && 0 <= c
                        < self.children_of(
                        kids[self.claimed(id, ds[q])],
                    ).len() implies roots@.contains(
                    #[trigger] self.children_of(kids[self.claimed(id, ds[q])])[c],
                ) by {
                    if q == k {
                        self.lemma_claimed(id, ds[k as int]);
                        assert(roots@[start.len() + c] == self.children_of(
                            kids[self.claimed(id, ds[q])],
                        )[c]);
                    } else {
                        assert(start.contains(self.children_of(kids[self.claimed(id, ds[q])])[c]));
                    }
                }
            }
            k = k + 1;
        }
        proof {
            assert forall|r: NodeId| #[trigger] self.doom_root(id, ds, r) implies roots@.contains(
                r,
            ) by {
                if exists|j: int|
                    0 <= j < kids.len() && r == #[trigger] kids[j] && forall|k: int|
                        0 <= k < ds.len() ==> self.claimed(id, #[trigger] ds[k]) != j {
                    let j = choose|j: int|
                        0 <= j < kids.len() && r == #[trigger] kids[j] && forall|k: int|
                            0 <= k < ds.len() ==> self.claimed(id, #[trigger] ds[k]) != j;
                    assert(!flags[j]);
                } else {
                    let (q, c) = choose|q: int, c: int|
                        0 <= q < ds.len() && self.fate_of(id, #[trigger] ds[q]) == Fate::Rebuilt
                            && 0 <= c < self.children_of(kids[self.claimed(id, ds[q])]).len() && r
                            == #[trigger] self.children_of(kids[self.claimed(id, ds[q])])[c];
                }
            }
        }
        roots
    }

    /// After the children of `id` were reconciled the nodes form a tree again.
    #[verifier::rlimit(60)]
    #[verifier::spinoff_prover]
    proof fn lemma_reconcile_wf(
        pre: Arena,
        post: Arena,
        id: NodeId,
        ds: Seq<Descriptor>,
        kids: Seq<NodeId>,
        fates: Seq<Fate>,
    )
        requires
            pre.wf(),
            pre.contains(id),
            distinct_identities(ds),
            kids.len() == ds.len(),
            fates.len() == ds.len(),
            kids.no_duplicates(),
            post.root() == pre.root(),
            post.height() == pre.height() + 1,
            post.entries().dom().finite(),
            post.children_of(id) == kids,
            forall|y: NodeId| #[trigger]
                post.contains(y) <==> pre.kept(id, ds, y) || child_of_fate(
                    kids,
                    fates,
                    Fate::Built,
                    y,
                ),
            forall|k: int|
                0 <= k < ds.len() ==> (#[trigger] fates[k]) == pre.fate_of(id, ds[k]),
            forall|k: int|
                0 <= k < ds.len() && fates[k] == Fate::Built ==> {
                    &&& !pre.kept(id, ds, #[trigger] kids[k])
                    &&& post.children_of(kids[k]).len() == 0
                    &&& post.parents().dom().contains(kids[k])
                    &&& post.parents()[kids[k]] == id
                    &&& post.depths()[kids[k]] == pre.depths()[id] + 1
                },
            forall|k: int|
                0 <= k < ds.len() && fates[k] != Fate::Built ==> (#[trigger] kids[k])
                    == pre.children_of(id)[pre.claimed(id, ds[k])],
            forall|k: int|
                0 <= k < ds.len() && fates[k] == Fate::Rebuilt ==> post.children_of(
                    #[trigger] kids[k],
                ).len() == 0,
            forall|y: NodeId|
                pre.kept(id, ds, y) && y != id && !child_of_fate(kids, fates, Fate::Rebuilt, y)
                    ==> #[trigger] post.children_of(y) == pre.children_of(y),
            forall|y: NodeId| #[trigger]
                pre.kept(id, ds, y) ==> {
                    &&& post.parents().dom().contains(y) == pre.parents().dom().contains(y)
                    &&& post.parents()[y] == pre.parents()[y]
                    &&& post.depths()[y] == pre.depths()[y]
                },
        ensures
            post.wf(),
    {
        let old_kids = pre.children_of(id);
        pre.lemma_kept_above(id, ds);
        pre.lemma_depth_bound(id);
        assert(post.contains(id));
        assert(post.contains(post.root()));
        // Each child that stands for a descriptor hangs below `id`.
        assert forall|k: int| 0 <= k < kids.len() implies #[trigger] post.hangs(id, k) by {
            if fates[k] == Fate::Built {
                assert(child_of_fate(kids, fates, Fate::Built, kids[k]));
            } else {
                pre.lemma_claimed(id, ds[k]);
                pre.lemma_claimed_kept(id, ds, k);
                assert(pre.hangs(id, pre.claimed(id, ds[k])));
            }
        }
        // A kept node has a kept parent, which still names it as a child.
        assert forall|x: NodeId| #[trigger] post.contains(x) && x != post.root() implies {
            &&& post.parents().dom().contains(x)
            &&& post.contains(post.parents()[x])
            &&& post.children_of(post.parents()[x]).contains(x)
        } by {
            if pre.kept(id, ds, x) {
                pre.lemma_parent_step(x);
                let p = pre.parents()[x];
                assert(post.parents()[x] == p);
                if p == id {
                    let j = choose|j: int| 0 <= j < old_kids.len() && old_kids[j] == x;
                    pre.lemma_child_within(id, j);
                    assert(pre.hangs(id, j));
                    let k = pre.lemma_kept_saved(id, ds, x);
                    pre.lemma_claimed(id, ds[k]);
                    let jk = pre.claimed(id, ds[k]);
                    assert(pre.hangs(id, jk));
                    if pre.fate_of(id, ds[k]) == Fate::Reused {
                        assert(pre.within(x, x));
                        pre.lemma_unique_ancestor(x, old_kids[jk], x);
                    }
                    assert(kids[k] == x);
                } else {
                    pre.lemma_within_depth(x, x);
                    if pre.dropped(id, ds, p) {
                        assert(pre.within(x, id));
                        pre.lemma_within_depth(p, id);
                        let k = pre.lemma_kept_saved(id, ds, x);
                        pre.lemma_claimed(id, ds[k]);
                        let jk = pre.claimed(id, ds[k]);
                        assert(pre.hangs(id, jk));
                        assert(pre.saves(id, ds[k], p));
                    }
                    assert(pre.kept(id, ds, p));
                    if child_of_fate(kids, fates, Fate::Rebuilt, p) {
                        let q = choose|q: int|
                            0 <= q < kids.len() && fates[q] == Fate::Rebuilt && #[trigger] kids[q]
                                == p;
                        pre.lemma_claimed(id, ds[q]);
                        pre.lemma_claimed_kept(id, ds, q);
                        let jq = pre.claimed(id, ds[q]);
                        assert(pre.hangs(id, jq));
                        assert(p == old_kids[jq]);
                        pre.lemma_child_within(id, jq);
                        assert(pre.within(x, id)) by {
                            assert(pre.within(p, id));
                        }
                        assert(pre.depths()[x] == pre.depths()[id] + 2);
                        let k = pre.lemma_kept_saved(id, ds, x);
                        pre.lemma_claimed(id, ds[k]);
                        let jk = pre.claimed(id, ds[k]);
                        assert(pre.hangs(id, jk));
                        if pre.fate_of(id, ds[k]) == Fate::Reused {
                            assert(pre.within(p, old_kids[jk]));
                            assert(pre.within(p, p));
                            pre.lemma_unique_ancestor(p, old_kids[jk], p);
                            assert(jk == jq);
                        }
                        assert(false);
                    }
                    assert(post.children_of(p) == pre.children_of(p));
                }
            } else {
                let q = choose|q: int|
                    0 <= q < kids.len() && fates[q] == Fate::Built && #[trigger] kids[q] == x;
                assert(post.children_of(id)[q] == x);
            }
        }
        assert forall|x: NodeId, k: int|
            post.contains(x) && 0 <= k < post.children_of(x).len() implies #[trigger] post.hangs(
            x,
            k,
        ) by {
            if x == id {
            } else if child_of_fate(kids, fates, Fate::Built, x) {
                let q = choose|q: int|
                    0 <= q < kids.len() && fates[q] == Fate::Built && #[trigger] kids[q] == x;
            } else if child_of_fate(kids, fates, Fate::Rebuilt, x) {
                let q = choose|q: int|
                    0 <= q < kids.len() && fates[q] == Fate::Rebuilt && #[trigger] kids[q] == x;
            } else {
                assert(pre.kept(id, ds, x));
                assert(post.children_of(x) == pre.children_of(x));
                assert(pre.hangs(x, k));
                let c = pre.children_of(x)[k];
                pre.lemma_depth_bound(c);
                if pre.dropped(id, ds, c) {
                    assert(pre.within(x, id));
                    let q = pre.lemma_kept_saved(id, ds, x);
                    pre.lemma_claimed(id, ds[q]);
                    let jq = pre.claimed(id, ds[q]);
                    if pre.fate_of(id, ds[q]) == Fate::Reused {
                        assert(pre.within(c, old_kids[jq]));
                        assert(pre.saves(id, ds[q], c));
                    } else {
                        assert(kids[q] == x);
                        assert(child_of_fate(kids, fates, Fate::Rebuilt, x));
                    }
                }
                assert(pre.kept(id, ds, c));
            }
        }
        assert forall|x: NodeId| post.contains(x) implies (#[trigger] post.children_of(
            x,
        )).no_duplicates() by {
            if x == id {
            } else if child_of_fate(kids, fates, Fate::Built, x) {
                let q = choose|q: int|
                    0 <= q < kids.len() && fates[q] == Fate::Built && #[trigger] kids[q] == x;
            } else if child_of_fate(kids, fates, Fate::Rebuilt, x) {
                let q = choose|q: int|
                    0 <= q < kids.len() && fates[q] == Fate::Rebuilt && #[trigger] kids[q] == x;
            } else {
                assert(pre.kept(id, ds, x));
                assert(post.children_of(x) == pre.children_of(x));
            }
        }
    }

    /// Re-derives the children of `id` from the descriptors that its composition has yielded.
    ///
    /// Each descriptor is held against the children that `id` had: it reuses the child of its
    /// identity if the properties are the same, rebuilds that child in place if they are not,
    /// and has a node built if there is no such child. Children that no descriptor claims leave
    /// the tree with all that hangs below them, and so does what hung below a rebuilt child.
    #[verifier::rlimit(80)]
    #[verifier::spinoff_prover]
    pub fn reconcile_children(&mut self, id: NodeId, descriptors: &Vec<Descriptor>) -> (out:
        Reconciled)
        requires
            old(self).wf(),
            old(self).contains(id),
            distinct_identities(descriptors@),
            old(self).entries().dom().len() + descriptors.len() < CAPACITY,
        ensures
            reconciled(*old(self), *final(self), id, descriptors@, out),
    {
        let ghost pre = *self;
        let ghost ds = descriptors@;
        let m = descriptors.len();
        let (fates, claims, flags) = self.plan(id, descriptors);
        let roots = self.doomed(id, descriptors, &fates, &claims, &flags);
        let old_children = copy_ids(&slots_get(&self.nodes, id).unwrap().children);
        let ghost targets = roots@;
        let removed = self.prune(roots);
        proof {
            pre.lemma_kept_above(id, ds);
            assert forall|y: NodeId| #[trigger] removed@.contains(y) <==> pre.dropped(
                id,
                ds,
                y,
            ) by {
                if pre.contains(y) {
                    pre.lemma_roots_cover(id, ds, targets, y);
                }
            }
            assert forall|y: NodeId| #[trigger] self.contains(y) <==> pre.kept(id, ds, y) by {
                if pre.contains(y) {
                    pre.lemma_roots_cover(id, ds, targets, y);
                }
            }
        }
        let mut kids: Vec<NodeId> = Vec::new();
        let mut k: usize = 0;
        while k < m
            invariant
                pre.wf(),
                pre.contains(id),
                distinct_identities(ds),
                ds == descriptors@,
                m == ds.len(),
                fates.len() == m,
                claims.len() == m,
                k <= m,
                old_children@ == pre.children_of(id),
                forall|q: int| 0 <= q < m ==> (#[trigger] fates[q]) == pre.fate_of(id, ds[q]),
                forall|q: int|
                    0 <= q < m ==> match #[trigger] claims[q] {
                        Some(j) => j as int == pre.claimed(id, ds[q]),
                        None => pre.claimed(id, ds[q]) == -1,
                    },
                self.root() == pre.root(),
                self.height() == pre.height(),
                self.entries().dom().finite(),
                self.entries().dom().len() <= pre.entries().dom().len() + k,
                pre.entries().dom().len() + m < CAPACITY,
                kids.len() == k,
                kids@.no_duplicates(),
                forall|y: NodeId| #[trigger]
                    self.contains(y) <==> pre.kept(id, ds, y) || child_of_fate(
                        kids@,
                        fates@,
                        Fate::Built,
                        y,
                    ),
                forall|q: int|
                    0 <= q < k && fates[q] == Fate::Built ==> {
                        &&& !pre.kept(id, ds, #[trigger] kids[q])
                        &&& self.node(kids[q]) == fresh_view(
                            ds[q].identity,
                            ds[q].props@,
                            ds[q].attributes,
                        )
                        &&& self.parents().dom().contains(kids[q])
                        &&& self.parents()[kids[q]] == id
                        &&& self.depths()[kids[q]] == pre.depths()[id] + 1
                    },
                forall|q: int|
                    0 <= q < k && fates[q] != Fate::Built ==> (#[trigger] kids[q])
                        == pre.children_of(id)[pre.claimed(id, ds[q])],
                forall|q: int|
                    0 <= q < k && fates[q] == Fate::Rebuilt ==> self.node(#[trigger] kids[q])
                        == fresh_view(ds[q].identity, ds[q].props@, ds[q].attributes),
                forall|y: NodeId|
                    pre.kept(id, ds, y) && !child_of_fate(kids@, fates@, Fate::Rebuilt, y)
                        ==> #[trigger] self.entries()[y] == pre.entries()[y],
                forall|y: NodeId| #[trigger]
                    pre.kept(id, ds, y) ==> {
                        &&& self.parents().dom().contains(y) == pre.parents().dom().contains(y)
                        &&& self.parents()[y] == pre.parents()[y]
                        &&& self.depths()[y] == pre.depths()[y]
                    },
            decreases m - k,
        {
            let ghost before = *self;
            let ghost had = kids@;
            let d = &descriptors[k];
            let fresh = ArenaNode {
                identity: d.identity,
                props: copy_bytes(&d.props),
                attributes: d.attributes,
                rect: LogicalRect::zeroed(),
                children: Vec::new(),
            };
            assert(fresh@ == fresh_view(ds[k as int].identity, ds[k as int].props@, ds[k as int].attributes));
            let child = match claims[k] {
                None => {
                    let c = slots_insert(&mut self.nodes, fresh);
                    proof {
                        self.parent = Ghost(self.parent@.insert(c, id));
                        self.depth = Ghost(self.depth@.insert(c, (pre.depths()[id] + 1) as nat));
                    }
                    c
                },
                Some(j) => {
                    proof {
                        pre.lemma_claimed_kept(id, ds, k as int);
                    }
                    let c = old_children[j];
                    assert(pre.kept(id, ds, c));
                    assert(self.contains(c));
                    if let Fate::Rebuilt = fates[k] {
                        let node = slots_get_mut(&mut self.nodes, c);
                        *node = fresh;
                    }
                    c
                },
            };
            kids.push(child);
            proof {
                let f = fates[k as int];
                assert(kids@ =~= had.push(child));
                assert forall|y: NodeId|
                    child_of_fate(kids@, fates@, Fate::Built, y) <==> child_of_fate(
                        had,
                        fates@,
                        Fate::Built,
                        y,
                    ) || (f == Fate::Built && child == y) by {
                    lemma_child_of_fate_push(had, fates@, Fate::Built, child, y);
                }
                assert forall|y: NodeId|
                    child_of_fate(kids@, fates@, Fate::Rebuilt, y) <==> child_of_fate(
                        had,
                        fates@,
                        Fate::Rebuilt,
                        y,
                    ) || (f == Fate::Rebuilt && child == y) by {
                    lemma_child_of_fate_push(had, fates@, Fate::Rebuilt, child, y);
                }
                if f == Fate::Built {
                    assert(!before.contains(child));
                    assert(self.entries().dom() =~= before.entries().dom().insert(child));
                } else {
                    pre.lemma_claimed_kept(id, ds, k as int);
                    assert(pre.kept(id, ds, child));
                    assert(self.entries().dom() =~= before.entries().dom());
                    assert forall|q: int| 0 <= q < k implies had[q] != child by {
                        if fates[q] != Fate::Built {
                            pre.lemma_claimed(id, ds[q]);
                            pre.lemma_claimed_kept(id, ds, q);
                            let jq = pre.claimed(id, ds[q]);
                            let jk = pre.claimed(id, ds[k as int]);
                            if had[q] == child {
                                assert(pre.children_of(id)[jq] == pre.children_of(id)[jk]);
                                assert(jq == jk);
                            }
                        }
                    }
                    assert(!child_of_fate(had, fates@, Fate::Rebuilt, child)) by {
                        if child_of_fate(had, fates@, Fate::Rebuilt, child) {
                            let q = choose|q: int|
                                0 <= q < had.len() && fates@[q] == Fate::Rebuilt
                                    && #[trigger] had[q] == child;
                            assert(had[q] != child);
                        }
                    }
                }
                assert forall|y: NodeId| #[trigger]
                    self.contains(y) <==> pre.kept(id, ds, y) || child_of_fate(
                        kids@,
                        fates@,
                        Fate::Built,
                        y,
                    ) by {
                    assert(before.contains(y) <==> pre.kept(id, ds, y) || child_of_fate(
                        had,
                        fates@,
                        Fate::Built,
                        y,
                    ));
                    if f == Fate::Built {
                        assert(self.contains(y) <==> before.contains(y) || y == child);
                    } else {
                        assert(self.contains(y) <==> before.contains(y));
                    }
                }
                assert(kids@.no_duplicates()) by {
                    assert forall|a: int, b: int|
                        0 <= a < kids@.len() && 0 <= b < kids@.len() && a != b implies kids@[a]
                        != kids@[b] by {
                        if a < k && b < k {
                            assert(had[a] != had[b]);
                        } else {
                            let o = if a < k {
                                a
                            } else {
                                b
                            };
                            if f == Fate::Built {
                                if fates[o] == Fate::Built {
                                    assert(child_of_fate(had, fates@, Fate::Built, had[o]));
                                } else {
                                    pre.lemma_claimed_kept(id, ds, o);
                                }
                                assert(before.contains(had[o]));
                            } else {
                                assert(had[o] != child);
                            }
                        }
                    }
                }
                assert forall|q: int| 0 <= q < k + 1 && fates[q] == Fate::Built implies {
                    &&& !pre.kept(id, ds, #[trigger] kids[q])
                    &&& self.node(kids[q]) == fresh_view(
                        ds[q].identity,
                        ds[q].props@,
                        ds[q].attributes,
                    )
                    &&& self.parents().dom().contains(kids[q])
                    &&& self.parents()[kids[q]] == id
                    &&& self.depths()[kids[q]] == pre.depths()[id] + 1
                } by {
                    if q < k {
                        assert(kids[q] == had[q]);
                        assert(before.contains(had[q])) by {
                            assert(child_of_fate(had, fates@, Fate::Built, had[q]));
                        }
                        assert(had[q] != child);
                    }
                }
                assert forall|q: int|
                    0 <= q < k + 1 && fates[q] == Fate::Rebuilt implies self.node(
                    #[trigger] kids[q],
                ) == fresh_view(ds[q].identity, ds[q].props@, ds[q].attributes) by {
                    if q < k {
                        assert(kids[q] == had[q]);
                        assert(had[q] != child);
                    }
                }
                assert forall|y: NodeId|
                    pre.kept(id, ds, y) && !child_of_fate(
                        kids@,
                        fates@,
                        Fate::Rebuilt,
                        y,
                    ) implies #[trigger] self.entries()[y] == pre.entries()[y] by {
                    assert(!child_of_fate(had, fates@, Fate::Rebuilt, y));
                    assert(before.entries()[y] == pre.entries()[y]);
                    assert(before.contains(y));
                }
            }
            k = k + 1;
        }
        let copy = copy_ids(&kids);
        proof {
            pre.lemma_kept_above(id, ds);
            pre.lemma_depth_bound(id);
            assert(!child_of_fate(kids@, fates@, Fate::Rebuilt, id)) by {
                if child_of_fate(kids@, fates@, Fate::Rebuilt, id) {
                    let q = choose|q: int|
                        0 <= q < kids@.len() && fates@[q] == Fate::Rebuilt && #[trigger] kids@[q]
                            == id;
                    pre.lemma_claimed_kept(id, ds, q);
                }
            }
            assert(pre.kept(id, ds, id));
            assert(self.contains(id));
            assert(self.entries()[id] == pre.entries()[id]);
        }
        let ghost built = *self;
        let node = slots_get_mut(&mut self.nodes, id);
        node.children = copy;
        proof {
            self.height = Ghost(self.height@ + 1);
        }
        proof {
            assert(self.entries().dom() =~= built.entries().dom());
            assert forall|y: NodeId| #[trigger]
                self.contains(y) <==> pre.kept(id, ds, y) || child_of_fate(
                    kids@,
                    fates@,
                    Fate::Built,
                    y,
                ) by {
                assert(self.contains(y) <==> built.contains(y));
            }
            assert forall|q: int| 0 <= q < m && fates[q] != Fate::Built implies kids[q] != id by {
                pre.lemma_claimed_kept(id, ds, q);
            }
            assert forall|q: int| 0 <= q < m && fates[q] == Fate::Built implies kids[q] != id by {}
            Self::lemma_reconcile_wf(pre, *self, id, ds, kids@, fates@);
            assert forall|q: int| 0 <= q < ds.len() implies settled(
                pre,
                *self,
                id,
                ds,
                q,
                #[trigger] kids@[q],
                fates@[q],
            ) by {
                if fates[q] == Fate::Built {
                    assert(child_of_fate(kids@, fates@, Fate::Built, kids@[q]));
                } else {
                    pre.lemma_claimed_kept(id, ds, q);
                    if fates[q] == Fate::Reused {
                        assert(!child_of_fate(kids@, fates@, Fate::Rebuilt, kids@[q])) by {
                            if child_of_fate(kids@, fates@, Fate::Rebuilt, kids@[q]) {
                                let r = choose|r: int|
                                    0 <= r < kids@.len() && fates@[r] == Fate::Rebuilt
                                        && #[trigger] kids@[r] == kids@[q];
                                assert(r == q);
                            }
                        }
                    }
                }
            }
        }
        Reconciled { children: kids, fates, removed }
    }

    /// Reconciles the children of `id` if that can be done, and says why not if it cannot.
    ///
    /// See [`Arena::reconcile_children`]. The handle must name a node, the descriptors must
    /// differ in their identities, and the arena must have room for a node for each of them;
    /// else nothing changes.
    pub fn try_reconcile_children(&mut self, id: NodeId, descriptors: &Vec<Descriptor>) -> (r:
        Result<Reconciled, ReconcileError>)
        requires
            old(self).wf(),
        ensures
            match r {
                Ok(out) => {
                    &&& old(self).contains(id)
                    &&& distinct_identities(descriptors@)
                    &&& old(self).entries().dom().len() + descriptors.len() < CAPACITY
                    &&& reconciled(*old(self), *final(self), id, descriptors@, out)
                },
                Err(ReconcileError::UnknownNode) => {
                    &&& !old(self).contains(id)
                    &&& *final(self) == *old(self)
                },
                Err(ReconcileError::DuplicateIdentity) => {
                    &&& old(self).contains(id)
                    &&& !distinct_identities(descriptors@)
                    &&& *final(self) == *old(self)
                },
                Err(ReconcileError::Full) => {
                    &&& old(self).contains(id)
                    &&& distinct_identities(descriptors@)
                    &&& old(self).entries().dom().len() + descriptors.len() >= CAPACITY
                    &&& *final(self) == *old(self)
                },
            },
    {
        if slots_get(&self.nodes, id).is_none() {
            return Err(ReconcileError::UnknownNode);
        }
        if !identities_distinct(descriptors) {
            return Err(ReconcileError::DuplicateIdentity);
        }
        let held = slots_len(&self.nodes);
        if held >= CAPACITY || descriptors.len() >= CAPACITY - held {
            return Err(ReconcileError::Full);
        }
        Ok(self.reconcile_children(id, descriptors))
    }

    /// Reconciling the children of a node a second time with the same descriptors changes
    /// nothing: every descriptor reuses the child that stands for it, no node leaves the tree,
    /// and every node keeps its handle and its value.
    pub proof fn lemma_reconcile_stable(
        a0: Arena,
        a1: Arena,
        a2: Arena,
        id: NodeId,
        ds: Seq<Descriptor>,
        first: Reconciled,
        second: Reconciled,
    )
        requires
            a0.wf(),
            a0.contains(id),
            distinct_identities(ds),
            reconciled(a0, a1, id, ds, first),
            reconciled(a1, a2, id, ds, second),
        ensures
            second.children@ == first.children@,
            forall|k: int| 0 <= k < ds.len() ==> second.fates@[k] == Fate::Reused,
            second.removed@.len() == 0,
            a2.nodes() == a1.nodes(),
    {
        let kids = first.children@;
        let olds = a1.child_identities(id);
        assert(a1.children_of(id) == kids);
        assert forall|k: int| 0 <= k < ds.len() implies olds[k] == ds[k].identity && a1.entries()[kids[k]].props@
            == ds[k].props@ by {
            assert(settled(a0, a1, id, ds, k, kids[k], first.fates@[k]));
            a0.lemma_claimed(id, ds[k]);
        }
        assert forall|k: int| 0 <= k < ds.len() implies a1.claimed(id, ds[k]) == k && a1.fate_of(
            id,
            ds[k],
        ) == Fate::Reused by {
            assert forall|j: int| 0 <= j < k implies olds[j] != ds[k].identity by {
                assert(ds[j].identity != ds[k].identity);
            }
            lemma_position_is(olds, ds[k].identity, 0, k);
        }
        assert forall|k: int| 0 <= k < ds.len() implies second.fates@[k] == Fate::Reused
            && second.children@[k] == kids[k] by {
            assert(settled(a1, a2, id, ds, k, second.children@[k], second.fates@[k]));
        }
        assert(second.children@ =~= kids);
        assert forall|k: int| 0 <= k < ds.len() implies #[trigger] second.fates@[k]
            == Fate::Reused by {
            assert(settled(a1, a2, id, ds, k, second.children@[k], second.fates@[k]));
        }
        assert forall|y: NodeId| !a1.dropped(id, ds, y) by {
            if a1.dropped(id, ds, y) {
                let j = a1.lemma_below_child(y, id);
                assert(a1.saves(id, ds[j], y));
            }
        }
        if second.removed@.len() > 0 {
            assert(second.removed@.contains(second.removed@[0]));
        }
        assert forall|y: NodeId| !child_of_fate(second.children@, second.fates@, Fate::Built, y)
            && !child_of_fate(second.children@, second.fates@, Fate::Rebuilt, y) by {}
        assert forall|y: NodeId| a2.contains(y) <==> a1.contains(y) by {}
        assert forall|y: NodeId| a1.contains(y) implies a2.node(y) == a1.node(y) by {
            if y != id {
                assert(a1.kept(id, ds, y));
            }
        }
        assert(a2.nodes() =~= a1.nodes());
    }

    /// A child that is found again keeps its handle. With the same properties it keeps all that
    /// it held, value and subtree; with other properties it is a new node under the old handle.
    pub proof fn lemma_reuse_preserves(
        pre: Arena,
        post: Arena,
        id: NodeId,
        ds: Seq<Descriptor>,
        out: Reconciled,
        k: int,
    )
        requires
            reconciled(pre, post, id, ds, out),
            0 <= k < ds.len(),
            pre.claimed(id, ds[k]) >= 0,
        ensures
            out.children@[k] == pre.children_of(id)[pre.claimed(id, ds[k])],
            pre.node(out.children@[k]).props == ds[k].props@ ==> out.fates@[k] == Fate::Reused
                && post.node(out.children@[k]) == pre.node(out.children@[k]),
            pre.node(out.children@[k]).props != ds[k].props@ ==> out.fates@[k] == Fate::Rebuilt
                && post.node(out.children@[k]) == fresh_view(
                ds[k].identity,
                ds[k].props@,
                ds[k].attributes,
            ),
    {
        assert(settled(pre, post, id, ds, k, out.children@[k], out.fates@[k]));
    }
}

} // verus!
