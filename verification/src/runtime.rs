//! The engine as a whole: the tree, the state of the update passes, and the steps of a frame.
//!
//! The engine never calls into a component. It says which node is due, and is told what the
//! node's composition has yielded or that its listeners have run; so every step is one call.

use crate::arena::Arena;
use crate::reconcile::{
    distinct_identities, reconciled, ReconcileError, Reconciled, CAPACITY,
};
use crate::context::{
    asked, focus_changes, focus_run, offset_run, offsets_known, Command, Context, EventContext,
};
use crate::events::Message;
use crate::node::{ArenaNode, Descriptor, NodeId};
use crate::rect::LogicalRect;
use crate::transport::MessageSender;
use vstd::prelude::*;

verus! {

/// The nodes whose children are still to be reconciled, the one that is due first on top.
pub struct Reconciler {
    stack: Vec<NodeId>,
}

impl Reconciler {
    /// The nodes that wait, the one that is due first at the end.
    pub closed spec fn waiting(&self) -> Seq<NodeId> {
        self.stack@
    }

    /// Begins the reconciliation of the subtree of `id`.
    pub fn begin(id: NodeId) -> (r: Self)
        ensures
            r.waiting() == seq![id],
    {
        let mut stack: Vec<NodeId> = Vec::new();
        stack.push(id);
        Reconciler { stack }
    }

    /// Takes the node that is due: the one whose composition is to run next.
    pub fn next(&mut self) -> (id: Option<NodeId>)
        ensures
            match id {
                Some(id) => old(self).waiting().len() > 0 && id == old(self).waiting().last()
                    && final(self).waiting() == old(self).waiting().drop_last(),
                None => old(self).waiting().len() == 0 && final(self).waiting().len() == 0,
            },
    {
        self.stack.pop()
    }

    /// Reconciles the children of `id` with what its composition has yielded, and puts the
    /// children in line, the first of them to be due next: a child is composed again whether it
    /// was reused or not.
    ///
    /// Where the children cannot be reconciled, nothing changes.
    pub fn supply(&mut self, arena: &mut Arena, id: NodeId, descriptors: &Vec<Descriptor>) -> (r:
        Result<Reconciled, ReconcileError>)
        requires
            old(arena).wf(),
        ensures
            match r {
                Ok(out) => {
                    &&& reconciled(*old(arena), *final(arena), id, descriptors@, out)
                    &&& final(self).waiting() == old(self).waiting() + out.children@.reverse()
                },
                Err(e) => {
                    &&& *final(arena) == *old(arena)
                    &&& final(self).waiting() == old(self).waiting()
                    &&& e == if !old(arena).contains(id) {
                        ReconcileError::UnknownNode
                    } else if !distinct_identities(descriptors@) {
                        ReconcileError::DuplicateIdentity
                    } else {
                        ReconcileError::Full
                    }
                    &&& e is Full ==> old(arena).entries().dom().len() + descriptors.len()
                        >= CAPACITY
                },
            },
    {
        let ghost before = self.stack@;
        match arena.try_reconcile_children(id, descriptors) {
            Err(e) => Err(e),
            Ok(out) => {
                let n = out.children.len();
                let mut k: usize = n;
                while k > 0
                    invariant
                        n == out.children.len(),
                        k <= n,
                        self.stack@.len() == before.len() + (n - k),
                        forall|i: int| 0 <= i < before.len() ==> self.stack@[i] == before[i],
                        forall|j: int|
                            k <= j < n ==> self.stack@[before.len() + (n - 1 - j)]
                                == #[trigger] out.children@[j],
                    decreases k,
                {
                    k = k - 1;
                    self.stack.push(out.children[k]);
                }
                assert(self.stack@ =~= before + out.children@.reverse()) by {
                    let joined = before + out.children@.reverse();
                    assert forall|i: int| 0 <= i < joined.len() implies self.stack@[i]
                        == joined[i] by {
                        if i >= before.len() {
                            let j = n - 1 - (i - before.len());
                            assert(self.stack@[before.len() + (n - 1 - j)] == out.children@[j]);
                        }
                    }
                }
                Ok(out)
            },
        }
    }
}

/// The execution engine of an application: the tree of its nodes and the state of its update
/// passes.
pub struct Runtime {
    arena: Arena,
    context: Context,
}

impl Runtime {
    /// The tree.
    pub closed spec fn tree(&self) -> Arena {
        self.arena
    }

    /// The state of the update passes.
    pub closed spec fn state(&self) -> Context {
        self.context
    }

    /// The nodes form a tree.
    pub open spec fn wf(&self) -> bool {
        self.tree().wf()
    }

    /// Creates the engine of a tree that holds `root` alone. Notices of the engine are sent
    /// through `handle`.
    pub fn new(root: ArenaNode, handle: MessageSender) -> (rt: Self)
        requires
            root.children@.len() == 0,
        ensures
            rt.wf(),
            rt.tree().entries() == Map::<NodeId, ArenaNode>::empty().insert(rt.tree().root(), root),
            rt.state().sender() == handle,
            rt.state().focus() is None,
            rt.state().aim() is None,
            rt.state().pending().len() == 0,
            !rt.state().stopping(),
            !rt.state().ticking(),
    {
        Runtime { arena: Arena::new(root), context: Context::new(handle) }
    }

    pub fn arena(&self) -> (arena: &Arena)
        ensures
            *arena == self.tree(),
    {
        &self.arena
    }

    pub fn arena_mut(&mut self) -> (arena: &mut Arena)
        ensures
            *arena == old(self).tree(),
            final(self).tree() == *final(arena),
            final(self).state() == old(self).state(),
    {
        &mut self.arena
    }

    pub fn context(&self) -> (context: &Context)
        ensures
            *context == self.state(),
    {
        &self.context
    }

    /// Lays the tree out in the viewport, and returns the nodes in the order in which they are
    /// to be drawn.
    pub fn draw(&mut self, viewport: LogicalRect) -> (order: Vec<NodeId>)
        requires
            old(self).wf(),
        ensures
            final(self).wf(),
            final(self).state() == old(self).state(),
            Arena::same_tree(old(self).tree(), final(self).tree()),
            final(self).tree().preorder() == old(self).tree().preorder(),
            final(self).tree().laid_out(viewport),
            final(self).tree().is_draw_order(order@),
    {
        self.arena.compute_layout(viewport);
        self.arena.draw_order()
    }

    /// Starts an update pass for an event: resolves the node that the event is aimed at, and
    /// returns the nodes in the order in which they hear of the event.
    pub fn begin_update(&mut self, event: &Message) -> (order: Vec<NodeId>)
        requires
            old(self).wf(),
        ensures
            final(self).tree() == old(self).tree(),
            order@ == old(self).tree().preorder().reverse(),
            match event.pointer() {
                Some((x, y)) => old(self).tree().is_target(final(self).state().aim(), x, y),
                None => final(self).state().aim() is None,
            },
            final(self).state().sender() == old(self).state().sender(),
            final(self).state().focus() == old(self).state().focus(),
            final(self).state().pending() == old(self).state().pending(),
            final(self).state().ticking() == old(self).state().ticking(),
            final(self).state().stopping() == old(self).state().stopping(),
    {
        self.context.begin_pass(&self.arena, event)
    }

    /// The context in which the listeners of `id` hear of `event`, or none if `id` names no
    /// node.
    pub fn listen<'d>(&'d mut self, id: NodeId, event: &Message) -> (ec: Option<EventContext<'d>>)
        ensures
            match ec {
                Some(ec) => {
                    &&& old(self).tree().contains(id)
                    &&& ec.pass() == old(self).state()
                    &&& ec.node() == id
                    &&& ec.region() == old(self).tree().node(id).rect
                    &&& ec.cell() == event.pointer()
                },
                None => !old(self).tree().contains(id),
            },
    {
        match self.arena.get(id) {
            None => None,
            Some(node) => {
                let rect = node.area();
                Some(EventContext::new(&mut self.context, id, rect, event.coords()))
            },
        }
    }

    /// Ends an update pass: applies the commands that the listeners have left, in the order of
    /// their arrival, and returns how often the focus has changed.
    ///
    /// A command that sets the offset of a node that is not in the tree cannot be applied: then
    /// nothing is applied, and the commands are handed back.
    pub fn end_update(&mut self) -> (r: Result<usize, Vec<Command>>)
        requires
            old(self).wf(),
        ensures
            final(self).wf(),
            final(self).state().pending().len() == 0,
            final(self).state().aim() == old(self).state().aim(),
            final(self).state().sender() == old(self).state().sender(),
            match r {
                Ok(changes) => {
                    let cmds = old(self).state().pending();
                    let n = cmds.len() as int;
                    &&& offsets_known(old(self).tree(), cmds)
                    &&& Arena::same_tree(old(self).tree(), final(self).tree())
                    &&& final(self).tree().preorder() == old(self).tree().preorder()
                    &&& final(self).state().focus() == focus_run(
                        old(self).tree(),
                        old(self).state().focus(),
                        cmds,
                        n,
                    )
                    &&& changes == focus_changes(
                        old(self).tree(),
                        old(self).state().focus(),
                        cmds,
                        n,
                    )
                    &&& final(self).state().stopping() == (old(self).state().stopping() || asked(
                        cmds,
                        n,
                        Command::Shutdown,
                    ))
                    &&& final(self).state().ticking() == (old(self).state().ticking() || asked(
                        cmds,
                        n,
                        Command::Tick,
                    ))
                    &&& forall|id: NodeId|
                        old(self).tree().contains(id) ==> {
                            &&& (#[trigger] final(self).tree().node(id)).rect == old(
                                self,
                            ).tree().node(id).rect
                            &&& final(self).tree().node(id).attributes.offset == offset_run(
                                cmds,
                                n,
                                id,
                                old(self).tree().node(id).attributes.offset,
                            )
                        }
                },
                Err(cmds) => {
                    &&& !offsets_known(old(self).tree(), old(self).state().pending())
                    &&& cmds@ == old(self).state().pending()
                    &&& final(self).tree() == old(self).tree()
                    &&& final(self).state().focus() == old(self).state().focus()
                    &&& final(self).state().stopping() == old(self).state().stopping()
                    &&& final(self).state().ticking() == old(self).state().ticking()
                },
            },
    {
        if self.context.commands_known(&self.arena) {
            Ok(self.context.commit(&mut self.arena))
        } else {
            Err(self.context.drain_commands())
        }
    }

    /// Returns if an event loop should exit immediately.
    pub fn should_exit(&self) -> (b: bool)
        ensures
            b == self.state().stopping(),
    {
        self.context.shutdown_requested()
    }
}

} // verus!
