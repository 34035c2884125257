//! The order in which the nodes are drawn, and the node that a pointer lands on.
//!
//! Nodes are drawn layer by layer, and within a layer in the forward order of traversal. A
//! pointer lands on the node that is drawn last of those whose regions hold its cell: what is
//! drawn on top wins.

use crate::apportion::{
    as_ints, lemma_count_all, lemma_rank_below, lemma_rank_distinct, lemma_rank_monotone,
    lemma_rank_onto, outranks, rank, serve,
};
use crate::arena::{slots_get, Arena};
use crate::node::NodeId;
use crate::rect::LogicalRect;
use crate::traversal::precedes;
use vstd::prelude::*;

verus! {

impl Arena {
    /// The keys by which the nodes of `order` are drawn: the lower the layer, the higher the
    /// key.
    pub open spec fn layer_keys(&self, order: Seq<NodeId>) -> Seq<int> {
        Seq::new(order.len(), |i: int| i32::MAX - self.entries()[order[i]].attributes.layer)
    }

    /// The place in the order of drawing of the node at place `i` of the traversal: the number
    /// of nodes of a lower layer, or of the same layer and earlier in the traversal.
    pub open spec fn draw_rank(&self, i: int) -> int {
        rank(
            self.layer_keys(self.preorder()),
            Seq::new(self.preorder().len(), |j: int| true),
            i,
        )
    }

    /// Whether `drawn` holds the nodes in the order of drawing: sorted by layer, and within a
    /// layer in the order of the traversal.
    pub open spec fn is_draw_order(&self, drawn: Seq<NodeId>) -> bool {
        &&& drawn.len() == self.preorder().len()
        &&& forall|i: int|
            0 <= i < self.preorder().len() ==> 0 <= #[trigger] self.draw_rank(i) < drawn.len()
                && drawn[self.draw_rank(i)] == self.preorder()[i]
    }

    /// Whether the region of a node holds the cell at `(x, y)`.
    pub open spec fn hits(&self, id: NodeId, x: u16, y: u16) -> bool {
        self.entries()[id].rect.overlaps(
            LogicalRect { x: x as i32, y: y as i32, width: 1, height: 1 },
        )
    }

    /// Whether `target` is the node that a pointer at `(x, y)` lands on: of the nodes whose
    /// regions hold the cell, the one that is drawn last.
    pub open spec fn is_target(&self, target: Option<NodeId>, x: u16, y: u16) -> bool {
        match target {
            Some(id) => exists|i: int|
                {
                    &&& 0 <= i < self.preorder().len()
                    &&& #[trigger] self.preorder()[i] == id
                    &&& self.hits(id, x, y)
                    &&& forall|j: int|
                        0 <= j < self.preorder().len() && self.hits(
                            #[trigger] self.preorder()[j],
                            x,
                            y,
                        ) ==> self.draw_rank(j) <= self.draw_rank(i)
                },
            None => forall|j: int|
                0 <= j < self.preorder().len() ==> !self.hits(#[trigger] self.preorder()[j], x, y),
        }
    }

    /// For each place in the order of drawing, finds the place in the traversal of the node
    /// that is drawn there.
    fn draw_picks(&self, order: &Vec<NodeId>) -> (picks: Vec<usize>)
        requires
            self.wf(),
            order@ == self.preorder(),
        ensures
            picks.len() == order.len(),
            forall|t: int|
                0 <= t < picks.len() ==> (#[trigger] picks[t]) < order.len() && self.draw_rank(
                    picks[t] as int,
                ) == t,
            forall|i: int|
                0 <= i < order.len() ==> 0 <= #[trigger] self.draw_rank(i) < order.len()
                    && picks@[self.draw_rank(i)] == i,
    {
        let n = order.len();
        let mut keys: Vec<u128> = Vec::new();
        let mut all: Vec<bool> = Vec::new();
        let mut i: usize = 0;
        while i < n
            invariant
                self.wf(),
                order@ == self.preorder(),
                n == order.len(),
                i <= n,
                keys.len() == i,
                all.len() == i,
                forall|j: int| 0 <= j < i ==> all[j],
                forall|j: int|
                    0 <= j < i ==> keys[j] as int == i32::MAX - self.entries()[order[j]].attributes.layer,
            decreases n - i,
        {
            proof {
                self.lemma_traversed_within(self.root(), i as int);
            }
            let node = slots_get(&self.nodes, order[i]).unwrap();
            let key: i64 = 2147483647i64 - node.attributes.layer as i64;
            keys.push(key as u128);
            all.push(true);
            i = i + 1;
        }
        let (chosen, picks) = serve(&keys, &all, n);
        proof {
            let everyone = Seq::new(self.preorder().len(), |j: int| true);
            assert(as_ints(keys@) =~= self.layer_keys(self.preorder()));
            assert(all@ =~= everyone);
            lemma_count_all(all@, n as int);
            assert forall|i: int| 0 <= i < n implies 0 <= #[trigger] self.draw_rank(i) < n
                && picks@[self.draw_rank(i)] == i by {
                lemma_rank_below(self.layer_keys(self.preorder()), everyone, i, n as int);
            }
        }
        picks
    }

    /// Returns the nodes in the order in which they are drawn: by layer, and within a layer in
    /// the forward traversal order, so that what is composed later is drawn over what is
    /// composed earlier.
    pub fn draw_order(&self) -> (drawn: Vec<NodeId>)
        requires
            self.wf(),
        ensures
            self.is_draw_order(drawn@),
    {
        let order = self.traverse();
        let picks = self.draw_picks(&order);
        let n = order.len();
        let mut drawn: Vec<NodeId> = Vec::new();
        let mut t: usize = 0;
        while t < n
            invariant
                n == order.len(),
                picks.len() == n,
                t <= n,
                drawn.len() == t,
                forall|k: int| 0 <= k < n ==> (#[trigger] picks[k]) < n,
                forall|k: int| 0 <= k < t ==> drawn[k] == order[picks[k] as int],
            decreases n - t,
        {
            drawn.push(order[picks[t]]);
            t = t + 1;
        }
        drawn
    }

    /// Resolves the node that a pointer at `(x, y)` lands on: the node drawn on top wins.
    pub fn hit_test(&self, x: u16, y: u16) -> (target: Option<NodeId>)
        requires
            self.wf(),
        ensures
            self.is_target(target, x, y),
    {
        let order = self.traverse();
        let picks = self.draw_picks(&order);
        let cursor = LogicalRect::new(x as i32, y as i32, 1, 1);
        let n = order.len();
        let mut t: usize = n;
        while t > 0
            invariant
                self.wf(),
                order@ == self.preorder(),
                n == order.len(),
                picks.len() == n,
                t <= n,
                cursor == (LogicalRect { x: x as i32, y: y as i32, width: 1, height: 1 }),
                forall|k: int|
                    0 <= k < n ==> (#[trigger] picks[k]) < n && self.draw_rank(picks[k] as int)
                        == k,
                forall|i: int|
                    0 <= i < n ==> 0 <= #[trigger] self.draw_rank(i) < n && picks@[self.draw_rank(
                        i,
                    )] == i,
                forall|k: int| t <= k < n ==> !self.hits(order[#[trigger] picks[k] as int], x, y),
            decreases t,
        {
            t = t - 1;
            let i = picks[t];
            proof {
                self.lemma_traversed_within(self.root(), i as int);
            }
            let node = slots_get(&self.nodes, order[i]).unwrap();
            if node.rect.intersects(cursor) {
                proof {
                    assert(self.preorder()[i as int] == order[i as int]);
                    assert forall|j: int|
                        0 <= j < n && self.hits(#[trigger] self.preorder()[j], x, y)
                            implies self.draw_rank(j) <= self.draw_rank(i as int) by {
                        let r = self.draw_rank(j);
                        if r > t {
                            assert(picks@[r] == j);
                            assert(!self.hits(order[picks[r] as int], x, y));
                        }
                    }
                }
                return Some(order[i]);
            }
        }
        proof {
            assert forall|j: int| 0 <= j < n implies !self.hits(
                #[trigger] self.preorder()[j],
                x,
                y,
            ) by {
                let r = self.draw_rank(j);
                assert(picks@[r] == j);
                assert(!self.hits(order[picks[r] as int], x, y));
            }
        }
        None
    }

    /// Of two nodes that hold the pointer's cell, the one that stands earlier in the traversal
    /// and on no higher layer is not the target: what is drawn on top wins. So of two children
    /// of one node that overlap, the one that is composed later is hit where both are, unless a
    /// layer raises the other.
    pub proof fn lemma_top_wins(&self, a: NodeId, b: NodeId, target: Option<NodeId>, x: u16, y: u16)
        requires
            self.wf(),
            precedes(self.preorder(), a, b),
            self.entries()[a].attributes.layer <= self.entries()[b].attributes.layer,
            self.hits(a, x, y),
            self.hits(b, x, y),
            self.is_target(target, x, y),
        ensures
            target is Some,
            target != Some(a),
    {
        let order = self.preorder();
        let (pa, pb) = choose|i: int, j: int|
            0 <= i < j < order.len() && #[trigger] order[i] == a && #[trigger] order[j] == b;
        let keys = self.layer_keys(order);
        let all = Seq::new(order.len(), |j: int| true);
        assert(outranks(keys, all, pa, pb));
        lemma_rank_monotone(keys, all, pa, pb, order.len() as int);
        assert(self.draw_rank(pa) < self.draw_rank(pb));
        self.lemma_traversal_complete();
        match target {
            None => {
                assert(!self.hits(order[pa], x, y));
            },
            Some(t) => {
                let i = choose|i: int|
                    {
                        &&& 0 <= i < order.len()
                        &&& #[trigger] order[i] == t
                        &&& self.hits(t, x, y)
                        &&& forall|j: int|
                            0 <= j < order.len() && self.hits(#[trigger] order[j], x, y)
                                ==> self.draw_rank(j) <= self.draw_rank(i)
                    };
                assert(self.hits(order[pb], x, y));
                assert(self.draw_rank(pb) <= self.draw_rank(i));
                if t == a {
                    assert(i == pa);
                }
            },
        }
    }

    /// There is one order of drawing: every place of it is the place of a node.
    pub proof fn lemma_draw_order_unique(&self, first: Seq<NodeId>, second: Seq<NodeId>)
        requires
            self.is_draw_order(first),
            self.is_draw_order(second),
        ensures
            first == second,
    {
        let order = self.preorder();
        let n = order.len() as int;
        let all = Seq::new(order.len(), |j: int| true);
        assert forall|k: int| 0 <= k < n implies first[k] == second[k] by {
            lemma_count_all(all, n);
            let i = lemma_rank_onto(self.layer_keys(order), all, k);
            assert(self.draw_rank(i) == k);
        }
        assert(first =~= second);
    }

    /// A pointer lands on one node at most: the target of a cell is determined.
    pub proof fn lemma_target_unique(
        &self,
        first: Option<NodeId>,
        second: Option<NodeId>,
        x: u16,
        y: u16,
    )
        requires
            self.is_target(first, x, y),
            self.is_target(second, x, y),
        ensures
            first == second,
    {
        let order = self.preorder();
        let keys = self.layer_keys(order);
        let all = Seq::new(order.len(), |j: int| true);
        if let Some(a) = first {
            let i = choose|i: int|
                {
                    &&& 0 <= i < order.len()
                    &&& #[trigger] order[i] == a
                    &&& self.hits(a, x, y)
                    &&& forall|j: int|
                        0 <= j < order.len() && self.hits(#[trigger] order[j], x, y)
                            ==> self.draw_rank(j) <= self.draw_rank(i)
                };
            match second {
                None => {
                    assert(!self.hits(order[i], x, y));
                },
                Some(b) => {
                    let k = choose|k: int|
                        {
                            &&& 0 <= k < order.len()
                            &&& #[trigger] order[k] == b
                            &&& self.hits(b, x, y)
                            &&& forall|j: int|
                                0 <= j < order.len() && self.hits(#[trigger] order[j], x, y)
                                    ==> self.draw_rank(j) <= self.draw_rank(k)
                        };
                    assert(self.hits(order[i], x, y));
                    assert(self.hits(order[k], x, y));
                    if i != k {
                        lemma_rank_distinct(keys, all, i, k);
                    }
                },
            }
        } else if let Some(b) = second {
            let k = choose|k: int|
                {
                    &&& 0 <= k < order.len()
                    &&& #[trigger] order[k] == b
                    &&& self.hits(b, x, y)
                    &&& forall|j: int|
                        0 <= j < order.len() && self.hits(#[trigger] order[j], x, y)
                            ==> self.draw_rank(j) <= self.draw_rank(k)
                };
            assert(!self.hits(order[k], x, y));
        }
    }
}

} // verus!
