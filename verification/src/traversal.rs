//! The orders in which the nodes of the tree are visited.
//!
//! The forward order is pre-order: every node before its children, the children in the order
//! of their composition. Nodes are drawn in this order, so that what is composed later covers
//! what is composed earlier. Events travel in the reverse order, so that a node hears of an
//! event before its parent does.

use crate::arena::{slots_get, Arena};
use crate::node::NodeId;
use vstd::prelude::*;

verus! {

/// Whether a stack holds `todo` with the element that is due first on top.
pub open spec fn mirrors(stack: Seq<NodeId>, todo: Seq<NodeId>) -> bool {
    &&& stack.len() == todo.len()
    &&& forall|k: int| 0 <= k < todo.len() ==> stack[stack.len() - 1 - k] == #[trigger] todo[k]
}

/// Whether `a` stands before `b` in a sequence.
pub open spec fn precedes(s: Seq<NodeId>, a: NodeId, b: NodeId) -> bool {
    exists|i: int, j: int| 0 <= i < j < s.len() && #[trigger] s[i] == a && #[trigger] s[j] == b
}

/// What stands before something in a part of a sequence stands before it in the sequence.
pub proof fn lemma_precedes_embedded(
    front: Seq<NodeId>,
    part: Seq<NodeId>,
    back: Seq<NodeId>,
    a: NodeId,
    b: NodeId,
)
    requires
        precedes(part, a, b),
    ensures
        precedes(front + part + back, a, b),
{
    let (i, j) = choose|i: int, j: int|
        0 <= i < j < part.len() && #[trigger] part[i] == a && #[trigger] part[j] == b;
    let whole = front + part + back;
    assert(whole[front.len() + i] == a);
    assert(whole[front.len() + j] == b);
}

/// In the reverse of a sequence the order of any two elements is turned around.
pub proof fn lemma_precedes_reversed(s: Seq<NodeId>, a: NodeId, b: NodeId)
    requires
        precedes(s, a, b),
    ensures
        precedes(s.reverse(), b, a),
{
    let (i, j) = choose|i: int, j: int|
        0 <= i < j < s.len() && #[trigger] s[i] == a && #[trigger] s[j] == b;
    let r = s.reverse();
    assert(r[s.len() - 1 - j] == b);
    assert(r[s.len() - 1 - i] == a);
}

impl Arena {
    /// The nodes of the subtree of `x`, parents before their children, children in the order of
    /// composition.
    pub open spec fn preorder_from(&self, x: NodeId) -> Seq<NodeId>
        decreases self.height() - self.depths()[x], self.children_of(x).len() + 1,
    {
        seq![x] + self.preorder_rest(x, 0)
    }

    /// The nodes of the subtrees of the children of `x` from child `k` on.
    pub open spec fn preorder_rest(&self, x: NodeId, k: int) -> Seq<NodeId>
        decreases self.height() - self.depths()[x], self.children_of(x).len() - k,
    {
        if 0 <= k < self.children_of(x).len() {
            let c = self.children_of(x)[k];
            let first = if self.depths()[c] == self.depths()[x] + 1 && self.depths()[c]
                < self.height() {
                self.preorder_from(c)
            } else {
                Seq::empty()
            };
            first + self.preorder_rest(x, k + 1)
        } else {
            Seq::empty()
        }
    }

    /// The nodes of the subtrees of `ids`, one subtree after the other.
    pub open spec fn preorder_list(&self, ids: Seq<NodeId>) -> Seq<NodeId>
        decreases ids.len(),
    {
        if ids.len() == 0 {
            Seq::empty()
        } else {
            self.preorder_from(ids[0]) + self.preorder_list(ids.drop_first())
        }
    }

    /// All nodes in pre-order: the order in which they are drawn where no layer says otherwise.
    pub open spec fn preorder(&self) -> Seq<NodeId> {
        self.preorder_from(self.root())
    }

    /// The subtrees of two lists, one after the other, are the subtrees of their concatenation.
    pub proof fn lemma_preorder_list_concat(&self, a: Seq<NodeId>, b: Seq<NodeId>)
        ensures
            self.preorder_list(a + b) == self.preorder_list(a) + self.preorder_list(b),
        decreases a.len(),
    {
        if a.len() == 0 {
            assert(a + b =~= b);
        } else {
            assert((a + b).drop_first() =~= a.drop_first() + b);
            self.lemma_preorder_list_concat(a.drop_first(), b);
        }
    }

    /// The subtrees of the children of `x` from child `k` on are the subtrees of that part of
    /// the list of children.
    pub proof fn lemma_preorder_rest_is_list(&self, x: NodeId, k: int)
        requires
            self.wf(),
            self.contains(x),
            0 <= k <= self.children_of(x).len(),
        ensures
            self.preorder_rest(x, k) == self.preorder_list(
                self.children_of(x).subrange(k, self.children_of(x).len() as int),
            ),
        decreases self.children_of(x).len() - k,
    {
        let all = self.children_of(x);
        let part = all.subrange(k, all.len() as int);
        if k < all.len() {
            assert(self.hangs(x, k));
            assert(part[0] == all[k]);
            assert(part.drop_first() =~= all.subrange(k + 1, all.len() as int));
            self.lemma_preorder_rest_is_list(x, k + 1);
        }
    }

    /// The traversal of the children of `x` from child `k` on begins with the traversal of
    /// child `k`.
    pub proof fn lemma_preorder_rest_unfold(&self, x: NodeId, k: int)
        requires
            self.wf(),
            self.contains(x),
            0 <= k < self.children_of(x).len(),
        ensures
            self.preorder_rest(x, k) == self.preorder_from(self.children_of(x)[k])
                + self.preorder_rest(x, k + 1),
            self.contains(self.children_of(x)[k]),
            self.depths()[self.children_of(x)[k]] == self.depths()[x] + 1,
            self.depths()[self.children_of(x)[k]] < self.height(),
    {
        assert(self.hangs(x, k));
    }

    /// Returns the nodes in the forward traversal order: pre-order, each parent before its
    /// children, the children in the order of composition.
    pub fn traverse(&self) -> (order: Vec<NodeId>)
        requires
            self.wf(),
        ensures
            order@ == self.preorder(),
    {
        let mut order: Vec<NodeId> = Vec::new();
        let mut stack: Vec<NodeId> = Vec::new();
        stack.push(self.root);
        let ghost mut todo: Seq<NodeId> = seq![self.root];
        proof {
            assert(todo.drop_first() =~= Seq::<NodeId>::empty());
            assert(self.preorder_list(todo.drop_first()) =~= Seq::<NodeId>::empty());
            assert(self.preorder_list(todo) =~= self.preorder());
        }
        while stack.len() > 0
            invariant
                self.wf(),
                mirrors(stack@, todo),
                forall|k: int| 0 <= k < todo.len() ==> self.contains(#[trigger] todo[k]),
                order@ + self.preorder_list(todo) == self.preorder(),
            decreases self.preorder_list(todo).len(),
        {
            let ghost before = todo;
            let ghost rest = todo.drop_first();
            let ghost full = stack@;
            let id = stack.pop().unwrap();
            assert(id == todo[0]);
            assert(self.contains(todo[0]));
            let node = slots_get(&self.nodes, id).unwrap();
            let ghost kids = self.children_of(id);
            order.push(id);
            let ghost base = stack@;
            let mut j: usize = node.children.len();
            while j > 0
                invariant
                    j <= node.children.len(),
                    node.children@ == kids,
                    stack@.len() == base.len() + (kids.len() - j),
                    forall|k: int| 0 <= k < base.len() ==> stack[k] == base[k],
                    forall|k: int|
                        j <= k < kids.len() ==> stack[base.len() + (kids.len() - 1 - k)]
                            == #[trigger] kids[k],
                decreases j,
            {
                j = j - 1;
                stack.push(node.children[j]);
            }
            proof {
                todo = kids + rest;
                assert(mirrors(stack@, todo)) by {
                    assert forall|k: int| 0 <= k < todo.len() implies stack[stack.len() - 1 - k]
                        == #[trigger] todo[k] by {
                        if k >= kids.len() {
                            let m = k - kids.len() + 1;
                            assert(todo[k] == rest[k - kids.len()]);
                            assert(rest[k - kids.len()] == before[m]);
                            assert(full[full.len() - 1 - m] == before[m]);
                            assert(base[base.len() - m] == full[full.len() - 1 - m]);
                            assert(stack[base.len() - m] == base[base.len() - m]);
                        } else {
                            assert(todo[k] == kids[k]);
                        }
                    }
                }
                assert forall|k: int| 0 <= k < todo.len() implies self.contains(
                    #[trigger] todo[k],
                ) by {
                    if k < kids.len() {
                        assert(self.hangs(id, k));
                    } else {
                        assert(todo[k] == before[k - kids.len() + 1]);
                    }
                }
                self.lemma_preorder_list_concat(kids, rest);
                self.lemma_preorder_rest_is_list(id, 0);
                assert(kids.subrange(0, kids.len() as int) =~= kids);
                assert(self.preorder_list(before) == self.preorder_from(id) + self.preorder_list(
                    rest,
                ));
                assert(order@ + self.preorder_list(todo) =~= self.preorder());
            }
        }
        proof {
            assert(todo =~= Seq::<NodeId>::empty());
            assert(order@ =~= order@ + self.preorder_list(todo));
        }
        order
    }

    /// Returns the nodes in the order in which an event reaches them: the forward traversal
    /// order reversed, so that a node hears of an event before its parent does.
    pub fn dispatch_order(&self) -> (order: Vec<NodeId>)
        requires
            self.wf(),
        ensures
            order@ == self.preorder().reverse(),
    {
        let forward = self.traverse();
        let n = forward.len();
        let mut order: Vec<NodeId> = Vec::new();
        let mut k: usize = 0;
        while k < n
            invariant
                n == forward.len(),
                k <= n,
                order.len() == k,
                forall|i: int| 0 <= i < k ==> order[i] == forward[n - 1 - i],
            decreases n - k,
        {
            order.push(forward[n - 1 - k]);
            k = k + 1;
        }
        assert(order@ =~= forward@.reverse());
        order
    }

    /// The traversal of a subtree depends on the children of its nodes alone.
    pub proof fn lemma_same_preorder(pre: Arena, post: Arena, x: NodeId)
        requires
            pre.wf(),
            pre.contains(x),
            post.parents() == pre.parents(),
            post.depths() == pre.depths(),
            post.height() == pre.height(),
            post.entries().dom() == pre.entries().dom(),
            forall|y: NodeId|
                pre.contains(y) ==> #[trigger] post.children_of(y) == pre.children_of(y),
        ensures
            post.preorder_from(x) == pre.preorder_from(x),
        decreases pre.height() - pre.depths()[x], pre.children_of(x).len() + 1,
    {
        assert(post.children_of(x) == pre.children_of(x));
        Self::lemma_same_preorder_rest(pre, post, x, 0);
    }

    /// The traversal of the subtrees of the children of a node depends on the children of its
    /// nodes alone.
    pub proof fn lemma_same_preorder_rest(pre: Arena, post: Arena, x: NodeId, k: int)
        requires
            pre.wf(),
            pre.contains(x),
            0 <= k <= pre.children_of(x).len(),
            post.parents() == pre.parents(),
            post.depths() == pre.depths(),
            post.height() == pre.height(),
            post.entries().dom() == pre.entries().dom(),
            forall|y: NodeId|
                pre.contains(y) ==> #[trigger] post.children_of(y) == pre.children_of(y),
        ensures
            post.preorder_rest(x, k) == pre.preorder_rest(x, k),
        decreases pre.height() - pre.depths()[x], pre.children_of(x).len() - k,
    {
        assert(post.children_of(x) == pre.children_of(x));
        if k < pre.children_of(x).len() {
            assert(pre.hangs(x, k));
            Self::lemma_same_preorder(pre, post, pre.children_of(x)[k]);
            Self::lemma_same_preorder_rest(pre, post, x, k + 1);
        }
    }

    /// The same tree is traversed in the same order.
    pub proof fn lemma_same_tree_preorder(pre: Arena, post: Arena)
        requires
            pre.wf(),
            Self::same_tree(pre, post),
        ensures
            post.preorder() == pre.preorder(),
    {
        assert forall|y: NodeId| pre.contains(y) implies #[trigger] post.children_of(y)
            == pre.children_of(y) by {
            assert(post.node(y).children == pre.node(y).children);
        }
        Self::lemma_same_preorder(pre, post, pre.root());
    }

    /// Every node of the traversal of a subtree lies in the subtree.
    pub proof fn lemma_traversed_within(&self, x: NodeId, i: int)
        requires
            self.wf(),
            self.contains(x),
            0 <= i < self.preorder_from(x).len(),
        ensures
            self.within(self.preorder_from(x)[i], x),
            self.contains(self.preorder_from(x)[i]),
            i > 0 ==> self.preorder_from(x)[i] != x,
        decreases self.height() - self.depths()[x], self.children_of(x).len() + 1,
    {
        if i == 0 {
            assert(self.within(x, x));
        } else {
            let j = self.lemma_traversed_below(x, 0, i - 1);
            let e = self.preorder_rest(x, 0)[i - 1];
            assert(self.preorder_from(x)[i] == e);
            self.lemma_child_within(x, j);
            self.lemma_within_trans(e, self.children_of(x)[j], x);
            self.lemma_within_depth(e, self.children_of(x)[j]);
            assert(self.hangs(x, j));
        }
    }

    /// Every node of the traversal of the children of `x` from child `k` on lies in the subtree
    /// of one of these children.
    pub proof fn lemma_traversed_below(&self, x: NodeId, k: int, i: int) -> (j: int)
        requires
            self.wf(),
            self.contains(x),
            0 <= k <= self.children_of(x).len(),
            0 <= i < self.preorder_rest(x, k).len(),
        ensures
            k <= j < self.children_of(x).len(),
            self.within(self.preorder_rest(x, k)[i], self.children_of(x)[j]),
            self.contains(self.preorder_rest(x, k)[i]),
        decreases self.height() - self.depths()[x], self.children_of(x).len() - k,
    {
        self.lemma_preorder_rest_unfold(x, k);
        let c = self.children_of(x)[k];
        let first = self.preorder_from(c);
        if i < first.len() {
            self.lemma_traversed_within(c, i);
            k
        } else {
            self.lemma_traversed_below(x, k + 1, i - first.len())
        }
    }

    /// No node stands twice in the traversal of a subtree.
    pub proof fn lemma_traversal_distinct(&self, x: NodeId)
        requires
            self.wf(),
            self.contains(x),
        ensures
            self.preorder_from(x).no_duplicates(),
        decreases self.height() - self.depths()[x], self.children_of(x).len() + 1,
    {
        let rest = self.preorder_rest(x, 0);
        self.lemma_traversal_rest_distinct(x, 0);
        assert forall|i: int, j: int| 0 <= i < 1 && 0 <= j < rest.len() implies seq![x][i]
            != rest[j] by {
            self.lemma_traversed_within(x, j + 1);
            assert(self.preorder_from(x)[j + 1] == rest[j]);
        }
        vstd::seq_lib::lemma_no_dup_in_concat(seq![x], rest);
    }

    /// No node stands twice in the traversal of the children of `x` from child `k` on.
    pub proof fn lemma_traversal_rest_distinct(&self, x: NodeId, k: int)
        requires
            self.wf(),
            self.contains(x),
            0 <= k <= self.children_of(x).len(),
        ensures
            self.preorder_rest(x, k).no_duplicates(),
        decreases self.height() - self.depths()[x], self.children_of(x).len() - k,
    {
        if k < self.children_of(x).len() {
            self.lemma_preorder_rest_unfold(x, k);
            let c = self.children_of(x)[k];
            let first = self.preorder_from(c);
            let later = self.preorder_rest(x, k + 1);
            self.lemma_traversal_distinct(c);
            self.lemma_traversal_rest_distinct(x, k + 1);
            assert forall|i: int, j: int|
                0 <= i < first.len() && 0 <= j < later.len() implies first[i] != later[j] by {
                self.lemma_traversed_within(c, i);
                let q = self.lemma_traversed_below(x, k + 1, j);
                assert(self.hangs(x, q));
                if first[i] == later[j] {
                    self.lemma_unique_ancestor(first[i], c, self.children_of(x)[q]);
                }
            }
            vstd::seq_lib::lemma_no_dup_in_concat(first, later);
        }
    }

    /// The traversal of child `k` of `x` is a part of the traversal of the children of `x` from
    /// child `j` on, for any `j` up to `k`.
    pub proof fn lemma_child_block(&self, x: NodeId, j: int, k: int) -> (parts: (
        Seq<NodeId>,
        Seq<NodeId>,
    ))
        requires
            self.wf(),
            self.contains(x),
            0 <= j <= k < self.children_of(x).len(),
        ensures
            self.preorder_rest(x, j) == parts.0 + self.preorder_from(self.children_of(x)[k])
                + parts.1,
        decreases k - j,
    {
        self.lemma_preorder_rest_unfold(x, j);
        if j == k {
            let parts = (Seq::<NodeId>::empty(), self.preorder_rest(x, k + 1));
            assert(self.preorder_rest(x, j) =~= parts.0 + self.preorder_from(
                self.children_of(x)[k],
            ) + parts.1);
            parts
        } else {
            let inner = self.lemma_child_block(x, j + 1, k);
            let parts = (self.preorder_from(self.children_of(x)[j]) + inner.0, inner.1);
            assert(self.preorder_rest(x, j) =~= parts.0 + self.preorder_from(
                self.children_of(x)[k],
            ) + parts.1);
            parts
        }
    }

    /// The traversal of a subtree is a part of the traversal of every subtree that holds it.
    pub proof fn lemma_subtree_block(&self, y: NodeId, x: NodeId) -> (parts: (
        Seq<NodeId>,
        Seq<NodeId>,
    ))
        requires
            self.wf(),
            self.contains(x),
            self.contains(y),
            self.within(y, x),
        ensures
            self.preorder_from(x) == parts.0 + self.preorder_from(y) + parts.1,
        decreases self.height() - self.depths()[x],
    {
        if y == x {
            let parts = (Seq::<NodeId>::empty(), Seq::<NodeId>::empty());
            assert(self.preorder_from(x) =~= parts.0 + self.preorder_from(y) + parts.1);
            parts
        } else {
            let k = self.lemma_below_child(y, x);
            self.lemma_preorder_rest_unfold(x, k);
            let inner = self.lemma_subtree_block(y, self.children_of(x)[k]);
            let outer = self.lemma_child_block(x, 0, k);
            let parts = (seq![x] + outer.0 + inner.0, inner.1 + outer.1);
            assert(self.preorder_from(x) =~= parts.0 + self.preorder_from(y) + parts.1);
            parts
        }
    }

    /// The traversal of the children of `x` ends with the traversal of its children from child
    /// `k` on.
    pub proof fn lemma_rest_suffix(&self, x: NodeId, k: int) -> (front: Seq<NodeId>)
        requires
            self.wf(),
            self.contains(x),
            0 <= k <= self.children_of(x).len(),
        ensures
            self.preorder_rest(x, 0) == front + self.preorder_rest(x, k),
        decreases k,
    {
        if k == 0 {
            let front = Seq::<NodeId>::empty();
            assert(self.preorder_rest(x, 0) =~= front + self.preorder_rest(x, k));
            front
        } else {
            let before = self.lemma_rest_suffix(x, k - 1);
            self.lemma_preorder_rest_unfold(x, k - 1);
            let front = before + self.preorder_from(self.children_of(x)[k - 1]);
            assert(self.preorder_rest(x, 0) =~= front + self.preorder_rest(x, k));
            front
        }
    }

    /// Every node of a subtree stands in the traversal of the subtree.
    pub proof fn lemma_within_traversed(&self, y: NodeId, x: NodeId)
        requires
            self.wf(),
            self.contains(x),
            self.contains(y),
            self.within(y, x),
        ensures
            self.preorder_from(x).contains(y),
        decreases self.height() - self.depths()[x],
    {
        if y == x {
            assert(self.preorder_from(x)[0] == x);
        } else {
            let k = self.lemma_below_child(y, x);
            self.lemma_preorder_rest_unfold(x, k);
            let c = self.children_of(x)[k];
            self.lemma_within_traversed(y, c);
            let i = choose|i: int| 0 <= i < self.preorder_from(c).len() && self.preorder_from(
                c,
            )[i] == y;
            let parts = self.lemma_child_block(x, 0, k);
            let whole = self.preorder_from(x);
            assert(whole =~= seq![x] + (parts.0 + self.preorder_from(c) + parts.1));
            assert(whole[1 + parts.0.len() + i] == y);
        }
    }

    /// The traversal holds every node of the arena, each of them once, and nothing else.
    pub proof fn lemma_traversal_complete(&self)
        requires
            self.wf(),
        ensures
            self.preorder().no_duplicates(),
            forall|y: NodeId| self.contains(y) <==> #[trigger] self.preorder().contains(y),
            self.preorder().len() == self.entries().dom().len(),
    {
        self.lemma_traversal_distinct(self.root());
        assert forall|y: NodeId| self.contains(y) <==> #[trigger] self.preorder().contains(
            y,
        ) by {
            if self.contains(y) {
                self.lemma_under_root(y);
                self.lemma_within_traversed(y, self.root());
            }
            if self.preorder().contains(y) {
                let i = choose|i: int| 0 <= i < self.preorder().len() && self.preorder()[i] == y;
                self.lemma_traversed_within(self.root(), i);
            }
        }
        self.preorder().unique_seq_to_set();
        assert(self.preorder().to_set() =~= self.entries().dom());
    }

    /// In the traversal of a subtree every node but the first stands behind its parent.
    pub proof fn lemma_parent_first(&self, c: NodeId, x: NodeId)
        requires
            self.wf(),
            self.contains(x),
            self.contains(c),
            self.within(c, x),
            c != x,
        ensures
            precedes(self.preorder_from(x), self.parents()[c], c),
        decreases self.height() - self.depths()[x],
    {
        let k = self.lemma_below_child(c, x);
        self.lemma_preorder_rest_unfold(x, k);
        let child = self.children_of(x)[k];
        let block = self.preorder_from(child);
        let parts = self.lemma_child_block(x, 0, k);
        let whole = self.preorder_from(x);
        assert(whole =~= (seq![x] + parts.0) + block + parts.1);
        self.lemma_within_depth(c, x);
        self.lemma_parent_step(c);
        if c == child {
            assert(self.hangs(x, k));
            assert(whole[0] == x);
            assert(block[0] == c);
            assert(whole[1 + parts.0.len() as int] == c);
        } else {
            self.lemma_parent_first(c, child);
            lemma_precedes_embedded(seq![x] + parts.0, block, parts.1, self.parents()[c], c);
        }
    }

    /// An event reaches every node before it reaches the node's parent, and a node is drawn
    /// behind its parent where no layer says otherwise: in the traversal every node but the root
    /// stands behind its parent, and in the order of dispatch before it.
    pub proof fn lemma_bubbling(&self, c: NodeId)
        requires
            self.wf(),
            self.contains(c),
            c != self.root(),
        ensures
            precedes(self.preorder(), self.parents()[c], c),
            precedes(self.preorder().reverse(), c, self.parents()[c]),
    {
        self.lemma_under_root(c);
        self.lemma_parent_first(c, self.root());
        lemma_precedes_reversed(self.preorder(), self.parents()[c], c);
    }

    /// A child that is composed later stands later in the traversal.
    pub proof fn lemma_sibling_order(&self, x: NodeId, i: int, j: int)
        requires
            self.wf(),
            self.contains(x),
            0 <= i < j < self.children_of(x).len(),
        ensures
            precedes(self.preorder(), self.children_of(x)[i], self.children_of(x)[j]),
    {
        let a = self.children_of(x)[i];
        let b = self.children_of(x)[j];
        let front = self.lemma_rest_suffix(x, i);
        self.lemma_preorder_rest_unfold(x, i);
        self.lemma_preorder_rest_unfold(x, j);
        let later = self.lemma_child_block(x, i + 1, j);
        let mine = self.preorder_from(x);
        assert(mine =~= seq![x] + front + self.preorder_from(a) + later.0 + self.preorder_from(b)
            + later.1);
        let pa = 1 + front.len() as int;
        let pb = pa + self.preorder_from(a).len() + later.0.len();
        assert(self.preorder_from(a)[0] == a);
        assert(self.preorder_from(b)[0] == b);
        assert(mine[pa] == a);
        assert(mine[pb] == b);
        assert(precedes(mine, a, b));
        self.lemma_under_root(x);
        let around = self.lemma_subtree_block(x, self.root());
        lemma_precedes_embedded(around.0, mine, around.1, a, b);
    }
}

} // verus!
