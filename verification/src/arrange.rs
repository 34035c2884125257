//! The layout pass: every node receives its region.
//!
//! The pass walks the tree from the root down. The root receives the viewport; the region of a
//! node is divided among its children as the node's flow and placement and the measures of the
//! children say.

use crate::arena::{copy_ids, slots_get, Arena};
use crate::layout::{compute_split, split_rect, Measure};
use crate::node::NodeId;
use crate::rect::LogicalRect;
use vstd::prelude::*;

verus! {

impl Arena {
    /// The measures of the children of a node, in their order.
    pub open spec fn child_measures(&self, x: NodeId) -> Seq<Measure> {
        Seq::new(
            self.children_of(x).len(),
            |k: int| self.entries()[self.children_of(x)[k]].attributes.measure,
        )
    }

    /// The region that child `k` of `x` is due, given the region of `x`.
    pub open spec fn child_region(&self, x: NodeId, k: int) -> LogicalRect {
        split_rect(
            self.entries()[x].attributes.flow,
            self.entries()[x].attributes.placement,
            self.entries()[x].rect,
            self.child_measures(x),
            k,
        )
    }

    /// Whether every node has its region: the root the viewport, every other node the part of
    /// its parent's region that the parent's flow and placement and the measures of the parent's
    /// children give it.
    pub open spec fn laid_out(&self, viewport: LogicalRect) -> bool {
        &&& self.entries()[self.root()].rect == viewport
        &&& forall|x: NodeId, k: int|
            self.contains(x) && 0 <= k < self.children_of(x).len() ==> self.entries()[self.children_of(
                x,
            )[k]].rect == #[trigger] self.child_region(x, k)
    }

    /// The region that a child is due depends on its parent's region and attributes and on the
    /// measures of the parent's children alone.
    proof fn lemma_child_region_same(a: Arena, b: Arena, x: NodeId, k: int)
        requires
            a.children_of(x) == b.children_of(x),
            a.entries()[x].attributes == b.entries()[x].attributes,
            a.entries()[x].rect == b.entries()[x].rect,
            forall|i: int|
                0 <= i < a.children_of(x).len() ==> a.entries()[#[trigger] a.children_of(
                    x,
                )[i]].attributes == b.entries()[a.children_of(x)[i]].attributes,
        ensures
            a.child_region(x, k) == b.child_region(x, k),
    {
        assert(a.child_measures(x) =~= b.child_measures(x));
    }

    /// Where the root is visited, and with each visited node its children, every node is
    /// visited.
    proof fn lemma_all_visited(&self, done: Set<NodeId>, y: NodeId)
        requires
            self.wf(),
            self.contains(y),
            done.contains(self.root()),
            forall|x: NodeId, k: int|
                done.contains(x) && self.contains(x) && 0 <= k < self.children_of(x).len()
                    ==> done.contains(#[trigger] self.children_of(x)[k]),
        ensures
            done.contains(y),
        decreases self.depths()[y],
    {
        if y != self.root() {
            self.lemma_parent_step(y);
            let p = self.parents()[y];
            self.lemma_all_visited(done, p);
            let k = choose|k: int| 0 <= k < self.children_of(p).len() && self.children_of(p)[k] == y;
            assert(done.contains(self.children_of(p)[k]));
        }
    }

    /// Reads the measures of the children of a node.
    fn measures_of(&self, children: &Vec<NodeId>, x: Ghost<NodeId>) -> (measures: Vec<Measure>)
        requires
            self.wf(),
            self.contains(x@),
            children@ == self.children_of(x@),
        ensures
            measures@ == self.child_measures(x@),
    {
        let n = children.len();
        let mut measures: Vec<Measure> = Vec::new();
        let mut k: usize = 0;
        while k < n
            invariant
                self.wf(),
                self.contains(x@),
                children@ == self.children_of(x@),
                n == children.len(),
                k <= n,
                measures.len() == k,
                forall|i: int| 0 <= i < k ==> measures[i] == self.child_measures(x@)[i],
            decreases n - k,
        {
            assert(self.hangs(x@, k as int));
            let child = slots_get(&self.nodes, children[k]).unwrap();
            measures.push(child.attributes.measure);
            k = k + 1;
        }
        assert(measures@ =~= self.child_measures(x@));
        measures
    }

    /// Assigns areas to nodes given their layout.
    ///
    /// The root receives the viewport. The region of every other node is its part of the region
    /// of its parent, as [`compute_split`] divides it among the parent's children.
    #[verifier::rlimit(80)]
    #[verifier::spinoff_prover]
    pub fn compute_layout(&mut self, viewport: LogicalRect)
        requires
            old(self).wf(),
        ensures
            final(self).wf(),
            Self::same_tree(*old(self), *final(self)),
            final(self).laid_out(viewport),
            final(self).preorder() == old(self).preorder(),
            forall|y: NodeId|
                old(self).contains(y) ==> (#[trigger] final(self).node(y)).attributes == old(
                    self,
                ).node(y).attributes,
    {
        let ghost pre = *self;
        let root = self.root;
        self.set_rect(root, viewport);
        let mut stack: Vec<NodeId> = Vec::new();
        stack.push(root);
        let ghost mut done: Set<NodeId> = Set::empty();
        proof {
            assert(stack@ =~= seq![root]);
            assert(stack@[0] == root);
        }
        while stack.len() > 0
            invariant
                pre.wf(),
                self.wf(),
                root == self.root(),
                Self::same_tree(pre, *self),
                forall|y: NodeId|
                    pre.contains(y) ==> (#[trigger] self.node(y)).attributes == pre.node(
                        y,
                    ).attributes,
                self.entries()[root].rect == viewport,
                done.finite(),
                forall|y: NodeId| done.contains(y) ==> self.contains(y),
                stack@.no_duplicates(),
                forall|i: int|
                    0 <= i < stack.len() ==> {
                        &&& self.contains(#[trigger] stack[i])
                        &&& !done.contains(stack[i])
                        &&& (stack[i] == root || done.contains(self.parents()[stack[i]]))
                    },
                forall|x: NodeId| #[trigger]
                    done.contains(x) ==> x == root || done.contains(self.parents()[x]),
                forall|x: NodeId, k: int|
                    done.contains(x) && 0 <= k < self.children_of(x).len() ==> {
                        &&& self.entries()[self.children_of(x)[k]].rect
                            == #[trigger] self.child_region(x, k)
                        &&& (done.contains(self.children_of(x)[k]) || stack@.contains(
                            self.children_of(x)[k],
                        ))
                    },
                done.contains(root) || stack@.contains(root),
            decreases self.entries().dom().len() - done.len(),
        {
            let ghost full = stack@;
            let x = stack.pop().unwrap();
            let ghost base = stack@;
            proof {
                assert(base =~= full.drop_last());
                assert(x == full[full.len() - 1]);
                assert forall|i: int| 0 <= i < base.len() implies base[i] != x by {
                    assert(full[i] != full[full.len() - 1]);
                }
                vstd::set_lib::lemma_len_subset(done.insert(x), self.entries().dom());
            }
            let node = slots_get(&self.nodes, x).unwrap();
            let flow = node.attributes.flow;
            let placement = node.attributes.placement;
            let rect = node.rect;
            let children = copy_ids(&node.children);
            let measures = self.measures_of(&children, Ghost(x));
            let splits = compute_split(flow, placement, rect, &measures);
            let ghost mid = *self;
            let ghost kids = mid.children_of(x);
            let n = children.len();
            proof {
                assert forall|k: int| 0 <= k < n implies #[trigger] mid.hangs(x, k) by {}
                assert forall|k: int| 0 <= k < n implies splits[k] == mid.child_region(x, k) by {}
            }
            let mut k: usize = 0;
            while k < n
                invariant
                    mid.wf(),
                    self.wf(),
                    Self::same_tree(mid, *self),
                    mid.contains(x),
                    children@ == kids,
                    kids == mid.children_of(x),
                    kids.no_duplicates(),
                    n == kids.len(),
                    splits.len() == n,
                    k <= n,
                    forall|i: int| 0 <= i < n ==> #[trigger] mid.hangs(x, i),
                    forall|y: NodeId|
                        mid.contains(y) ==> (#[trigger] self.node(y)).attributes == mid.node(
                            y,
                        ).attributes,
                    forall|y: NodeId|
                        mid.contains(y) && !kids.contains(y) ==> (#[trigger] self.node(y)).rect
                            == mid.node(y).rect,
                    forall|i: int| 0 <= i < k ==> self.node(#[trigger] kids[i]).rect == splits[i],
                    stack@.len() == base.len() + k,
                    forall|i: int| 0 <= i < base.len() ==> stack[i] == base[i],
                    forall|i: int| 0 <= i < k ==> stack[base.len() + i] == kids[i],
                decreases n - k,
            {
                let ghost was = *self;
                assert(mid.hangs(x, k as int));
                self.set_rect(children[k], splits[k]);
                stack.push(children[k]);
                proof {
                    assert forall|i: int| 0 <= i < k implies self.node(#[trigger] kids[i]).rect
                        == splits[i] by {
                        assert(kids[i] != kids[k as int]);
                        assert(mid.hangs(x, i));
                        assert(was.node(kids[i]).rect == splits[i]);
                        assert(self.entries()[kids[i]] == was.entries()[kids[i]]);
                    }
                    assert forall|y: NodeId| mid.contains(y) implies (#[trigger] self.node(
                        y,
                    )).attributes == mid.node(y).attributes by {
                        assert(was.node(y).attributes == mid.node(y).attributes);
                    }
                    assert forall|y: NodeId| mid.contains(y) && !kids.contains(y) implies (
                    #[trigger] self.node(y)).rect == mid.node(y).rect by {
                        assert(was.node(y).rect == mid.node(y).rect);
                        assert(y != kids[k as int]);
                    }
                }
                k = k + 1;
            }
            proof {
                let before = done;
                done = done.insert(x);
                // No child of `x` was visited or waiting: its parent is only now visited.
                assert forall|i: int| 0 <= i < n implies !before.contains(#[trigger] kids[i])
                    && !base.contains(kids[i]) && kids[i] != root && kids[i] != x by {
                    assert(mid.hangs(x, i));
                    mid.lemma_depth_bound(x);
                    if base.contains(kids[i]) {
                        let j = choose|j: int| 0 <= j < base.len() && base[j] == kids[i];
                        assert(full[j] == kids[i]);
                    }
                }
                assert(x == root || before.contains(mid.parents()[x]));
                assert(!kids.contains(x)) by {
                    if kids.contains(x) {
                        let i = choose|i: int| 0 <= i < kids.len() && kids[i] == x;
                        assert(kids[i] != x);
                    }
                }
                assert(self.entries()[root].rect == viewport) by {
                    assert(!kids.contains(root)) by {
                        if kids.contains(root) {
                            let i = choose|i: int| 0 <= i < kids.len() && kids[i] == root;
                            assert(kids[i] != root);
                        }
                    }
                    assert(self.node(root).rect == mid.node(root).rect);
                }
                assert forall|y: NodeId| pre.contains(y) implies (#[trigger] self.node(
                    y,
                )).attributes == pre.node(y).attributes by {
                    assert(mid.node(y).attributes == pre.node(y).attributes);
                }
                assert(stack@.no_duplicates()) by {
                    assert forall|a: int, b: int|
                        0 <= a < stack@.len() && 0 <= b < stack@.len() && a != b implies stack@[a]
                        != stack@[b] by {
                        if a < base.len() {
                            assert(stack@[a] == base[a]);
                            assert(base[a] == full[a]);
                            assert(base.contains(base[a]));
                        } else {
                            assert(stack@[a] == kids[a - base.len()]);
                        }
                        if b < base.len() {
                            assert(stack@[b] == base[b]);
                            assert(base[b] == full[b]);
                            assert(base.contains(base[b]));
                        } else {
                            assert(stack@[b] == kids[b - base.len()]);
                        }
                        if a < base.len() && b < base.len() {
                            assert(full[a] != full[b]);
                        } else if a >= base.len() && b >= base.len() {
                            assert(kids[a - base.len()] != kids[b - base.len()]);
                        }
                    }
                }
                assert forall|i: int| 0 <= i < stack.len() implies {
                    &&& self.contains(#[trigger] stack[i])
                    &&& !done.contains(stack[i])
                    &&& (stack[i] == root || done.contains(self.parents()[stack[i]]))
                } by {
                    if i < base.len() {
                        assert(stack[i] == base[i]);
                        assert(base[i] == full[i]);
                    } else {
                        assert(stack[i] == kids[i - base.len()]);
                        assert(mid.hangs(x, i - base.len()));
                    }
                }
                assert forall|y: NodeId, j: int|
                    done.contains(y) && 0 <= j < self.children_of(y).len() implies {
                    &&& self.entries()[self.children_of(y)[j]].rect
                        == #[trigger] self.child_region(y, j)
                    &&& (done.contains(self.children_of(y)[j]) || stack@.contains(
                        self.children_of(y)[j],
                    ))
                } by {
                    assert(self.node(y).children == mid.node(y).children);
                    let c = mid.children_of(y)[j];
                    assert(mid.hangs(y, j));
                    assert(!kids.contains(y)) by {
                        if kids.contains(y) {
                            let i = choose|i: int| 0 <= i < kids.len() && kids[i] == y;
                            assert(!before.contains(kids[i]));
                        }
                    }
                    assert(self.node(y).rect == mid.node(y).rect);
                    assert(self.node(y).attributes == mid.node(y).attributes);
                    assert forall|i: int| 0 <= i < mid.children_of(y).len() implies self.entries()[
                    #[trigger] mid.children_of(y)[i]].attributes == mid.entries()[mid.children_of(
                        y,
                    )[i]].attributes by {
                        assert(mid.hangs(y, i));
                        assert(self.node(mid.children_of(y)[i]).attributes == mid.node(
                            mid.children_of(y)[i],
                        ).attributes);
                    }
                    Self::lemma_child_region_same(*self, mid, y, j);
                    if y == x {
                        assert(self.node(kids[j]).rect == splits[j]);
                        assert(stack@[base.len() + j] == kids[j]);
                    } else {
                        assert(before.contains(y));
                        assert(!kids.contains(c)) by {
                            if kids.contains(c) {
                                let i = choose|i: int| 0 <= i < kids.len() && kids[i] == c;
                                assert(mid.hangs(x, i));
                            }
                        }
                        assert(self.node(c).rect == mid.node(c).rect);
                        assert(mid.entries()[c].rect == mid.child_region(y, j));
                        if !before.contains(c) && c != x {
                            assert(full.contains(c));
                            let i = choose|i: int| 0 <= i < full.len() && full[i] == c;
                            assert(base[i] == full[i]);
                            assert(stack@[i] == base[i]);
                        }
                    }
                }
                assert(done.contains(root) || stack@.contains(root)) by {
                    if !done.contains(root) {
                        assert(full.contains(root));
                        let i = choose|i: int| 0 <= i < full.len() && full[i] == root;
                        assert(base[i] == full[i]);
                        assert(stack@[i] == base[i]);
                    }
                }
            }
        }
        proof {
            assert forall|x: NodeId, k: int|
                done.contains(x) && self.contains(x) && 0 <= k < self.children_of(x).len()
                    implies done.contains(#[trigger] self.children_of(x)[k]) by {
                assert(self.entries()[self.children_of(x)[k]].rect == self.child_region(x, k));
                if stack@.contains(self.children_of(x)[k]) {
                    let i = choose|i: int|
                        0 <= i < stack@.len() && stack@[i] == self.children_of(x)[k];
                }
            }
            if stack@.contains(root) {
                let i = choose|i: int| 0 <= i < stack@.len() && stack@[i] == root;
            }
            assert forall|x: NodeId, k: int|
                self.contains(x) && 0 <= k < self.children_of(x).len() implies self.entries()[self.children_of(
                x,
            )[k]].rect == #[trigger] self.child_region(x, k) by {
                self.lemma_all_visited(done, x);
            }
            Self::lemma_same_tree_preorder(pre, *self);
        }
    }
}

} // verus!
