//! What an update pass carries from node to node, and the commands that listeners leave behind.
//!
//! Listeners never change the tree or the focus themselves. They enqueue commands, which are
//! applied in the order of their arrival once every listener has run.

use crate::arena::Arena;
use crate::events::{FocusChanged, Message};
use crate::node::NodeId;
use crate::rect::{clamp_i32, saturate, LogicalRect};
use crate::transport::MessageSender;
use vstd::prelude::*;

verus! {

/// A change that a listener asks for.
#[derive(Debug, Clone, Copy, PartialEq, Eq)]
pub enum Command {
    Shutdown,
    SetOffset(NodeId, i32, i32),
    SetFocus(NodeId),
    ResignFocus(NodeId),
    Tick,
}

/// Who has the focus once `cmd` is applied: a node that asks for it receives it if it is in the
/// tree and can be focused; a node that resigns it loses it if it had it.
pub open spec fn focus_after(arena: Arena, focused: Option<NodeId>, cmd: Command) -> Option<
    NodeId,
> {
    match cmd {
        Command::SetFocus(id) => if arena.contains(id) && arena.node(id).attributes.focusable {
            Some(id)
        } else {
            focused
        },
        Command::ResignFocus(id) => if focused == Some(id) {
            None
        } else {
            focused
        },
        _ => focused,
    }
}

/// Who has the focus once the first `n` commands are applied in their order.
pub open spec fn focus_run(arena: Arena, focused: Option<NodeId>, cmds: Seq<Command>, n: int)
    -> Option<NodeId>
    decreases n,
{
    if n <= 0 {
        focused
    } else {
        focus_after(arena, focus_run(arena, focused, cmds, n - 1), cmds[n - 1])
    }
}

/// How often the focus changes while the first `n` commands are applied.
pub open spec fn focus_changes(arena: Arena, focused: Option<NodeId>, cmds: Seq<Command>, n: int)
    -> int
    decreases n,
{
    if n <= 0 {
        0
    } else {
        focus_changes(arena, focused, cmds, n - 1) + if focus_run(arena, focused, cmds, n)
            != focus_run(arena, focused, cmds, n - 1) {
            1int
        } else {
            0int
        }
    }
}

/// Whether one of the first `n` commands is `cmd`.
pub open spec fn asked(cmds: Seq<Command>, n: int, cmd: Command) -> bool {
    exists|i: int| 0 <= i < n && i < cmds.len() && #[trigger] cmds[i] == cmd
}

/// Whether one of the first `n` commands asks for the focus.
pub open spec fn focus_asked(cmds: Seq<Command>, n: int) -> bool {
    exists|i: int| 0 <= i < n && i < cmds.len() && (#[trigger] cmds[i]) is SetFocus
}

/// The canvas offset of `id` once the first `n` commands are applied: what the last of them
/// that sets it says, or `offset` if none does.
pub open spec fn offset_run(cmds: Seq<Command>, n: int, id: NodeId, offset: (i32, i32)) -> (
    i32,
    i32,
)
    decreases n,
{
    if n <= 0 {
        offset
    } else {
        match cmds[n - 1] {
            Command::SetOffset(target, x, y) if target == id => (x, y),
            _ => offset_run(cmds, n - 1, id, offset),
        }
    }
}

/// Whether every command that names a node for its offset names a node of the arena.
pub open spec fn offsets_known(arena: Arena, cmds: Seq<Command>) -> bool {
    forall|i: int|
        0 <= i < cmds.len() ==> ((#[trigger] cmds[i]) matches Command::SetOffset(id, _, _)
            ==> arena.contains(id))
}

/// The state that outlives an update pass, and the commands of the pass at hand.
pub struct Context {
    handle: MessageSender,
    target: Option<NodeId>,
    focused: Option<NodeId>,
    command_buffer: Vec<Command>,
    tick_requested: bool,
    shutdown_requested: bool,
}

impl Context {
    /// The node that has the focus.
    pub closed spec fn focus(&self) -> Option<NodeId> {
        self.focused
    }

    /// The node that the pointer has landed on in this pass.
    pub closed spec fn aim(&self) -> Option<NodeId> {
        self.target
    }

    /// The commands that wait to be applied, in the order of their arrival.
    pub closed spec fn pending(&self) -> Seq<Command> {
        self.command_buffer@
    }

    /// Whether another update cycle is asked for before the next draw.
    pub closed spec fn ticking(&self) -> bool {
        self.tick_requested
    }

    /// Whether the loop is asked to end.
    pub closed spec fn stopping(&self) -> bool {
        self.shutdown_requested
    }

    /// The sender through which the notices of the engine leave.
    pub closed spec fn sender(&self) -> MessageSender {
        self.handle
    }

    /// Creates the state of a run: no focus, no target, nothing asked for.
    pub fn new(handle: MessageSender) -> (ctx: Self)
        ensures
            ctx.sender() == handle,
            ctx.focus() is None,
            ctx.aim() is None,
            ctx.pending().len() == 0,
            !ctx.ticking(),
            !ctx.stopping(),
    {
        Self {
            handle,
            target: None,
            focused: None,
            command_buffer: Vec::new(),
            tick_requested: false,
            shutdown_requested: false,
        }
    }

    /// Takes the commands that wait out of the context.
    pub fn drain_commands(&mut self) -> (cmds: Vec<Command>)
        ensures
            cmds@ == old(self).pending(),
            final(self).pending().len() == 0,
            final(self).focus() == old(self).focus(),
            final(self).aim() == old(self).aim(),
            final(self).ticking() == old(self).ticking(),
            final(self).stopping() == old(self).stopping(),
            final(self).sender() == old(self).sender(),
    {
        let mut cmds: Vec<Command> = Vec::new();
        std::mem::swap(&mut cmds, &mut self.command_buffer);
        cmds
    }

    pub fn focused(&self) -> (id: Option<NodeId>)
        ensures
            id == self.focus(),
    {
        self.focused
    }

    /// The node that the pointer has landed on in this pass.
    pub fn target(&self) -> (id: Option<NodeId>)
        ensures
            id == self.aim(),
    {
        self.target
    }

    /// The sender through which the notices of the engine leave: the one that the context was
    /// made with.
    pub fn handle(&self) -> (sender: &MessageSender)
        ensures
            *sender == self.sender(),
    {
        &self.handle
    }

    pub fn set_target(&mut self, target: Option<NodeId>)
        ensures
            final(self).aim() == target,
            final(self).focus() == old(self).focus(),
            final(self).pending() == old(self).pending(),
            final(self).ticking() == old(self).ticking(),
            final(self).stopping() == old(self).stopping(),
            final(self).sender() == old(self).sender(),
    {
        self.target = target;
    }

    pub fn tick_requested(&self) -> (b: bool)
        ensures
            b == self.ticking(),
    {
        self.tick_requested
    }

    pub fn clear_tick_request(&mut self)
        ensures
            !final(self).ticking(),
            final(self).aim() == old(self).aim(),
            final(self).focus() == old(self).focus(),
            final(self).pending() == old(self).pending(),
            final(self).stopping() == old(self).stopping(),
            final(self).sender() == old(self).sender(),
    {
        self.tick_requested = false;
    }

    pub fn shutdown_requested(&self) -> (b: bool)
        ensures
            b == self.stopping(),
    {
        self.shutdown_requested
    }

    pub fn enqueue(&mut self, cmd: Command)
        ensures
            final(self).pending() == old(self).pending().push(cmd),
            final(self).aim() == old(self).aim(),
            final(self).focus() == old(self).focus(),
            final(self).ticking() == old(self).ticking(),
            final(self).stopping() == old(self).stopping(),
            final(self).sender() == old(self).sender(),
    {
        self.command_buffer.push(cmd);
    }

    pub fn queued(&self) -> (cmds: &Vec<Command>)
        ensures
            cmds@ == self.pending(),
    {
        &self.command_buffer
    }

    /// Whether a command that asks for the focus waits already.
    pub fn focus_is_asked(&self) -> (b: bool)
        ensures
            b == focus_asked(self.pending(), self.pending().len() as int),
    {
        let n = self.command_buffer.len();
        let mut i: usize = 0;
        while i < n
            invariant
                n == self.command_buffer.len(),
                i <= n,
                !focus_asked(self.pending(), i as int),
            decreases n - i,
        {
            if let Command::SetFocus(_) = self.command_buffer[i] {
                return true;
            }
            i = i + 1;
        }
        false
    }

    /// Whether every command that waits to set an offset names a node of the arena.
    pub fn commands_known(&self, arena: &Arena) -> (b: bool)
        ensures
            b == offsets_known(*arena, self.pending()),
    {
        let n = self.command_buffer.len();
        let mut i: usize = 0;
        while i < n
            invariant
                n == self.command_buffer.len(),
                i <= n,
                forall|j: int|
                    0 <= j < i ==> ((#[trigger] self.pending()[j]) matches Command::SetOffset(
                        id,
                        _,
                        _,
                    ) ==> arena.contains(id)),
            decreases n - i,
        {
            if let Command::SetOffset(id, _, _) = self.command_buffer[i] {
                if arena.get(id).is_none() {
                    return false;
                }
            }
            i = i + 1;
        }
        true
    }

    /// Starts an update pass for an event: resolves the node that the event is aimed at, and
    /// returns the nodes in the order in which they hear of the event.
    pub fn begin_pass(&mut self, arena: &Arena, event: &Message) -> (order: Vec<NodeId>)
        requires
            arena.wf(),
        ensures
            order@ == arena.preorder().reverse(),
            match event.pointer() {
                Some((x, y)) => arena.is_target(final(self).aim(), x, y),
                None => final(self).aim() is None,
            },
            final(self).focus() == old(self).focus(),
            final(self).pending() == old(self).pending(),
            final(self).ticking() == old(self).ticking(),
            final(self).stopping() == old(self).stopping(),
            final(self).sender() == old(self).sender(),
    {
        let target = event.target(arena);
        self.set_target(target);
        arena.dispatch_order()
    }

    /// Applies the commands that wait, in the order of their arrival, and returns how often the
    /// focus has changed. For each change of focus a [`FocusChanged`] event is sent.
    ///
    /// A request to shut down stays once it is made.
    pub fn commit(&mut self, arena: &mut Arena) -> (changes: usize)
        requires
            old(arena).wf(),
            offsets_known(*old(arena), old(self).pending()),
        ensures
            final(arena).wf(),
            Arena::same_tree(*old(arena), *final(arena)),
            final(arena).preorder() == old(arena).preorder(),
            final(self).pending().len() == 0,
            final(self).aim() == old(self).aim(),
            final(self).sender() == old(self).sender(),
            final(self).focus() == focus_run(
                *old(arena),
                old(self).focus(),
                old(self).pending(),
                old(self).pending().len() as int,
            ),
            changes == focus_changes(
                *old(arena),
                old(self).focus(),
                old(self).pending(),
                old(self).pending().len() as int,
            ),
            final(self).stopping() == (old(self).stopping() || asked(
                old(self).pending(),
                old(self).pending().len() as int,
                Command::Shutdown,
            )),
            final(self).ticking() == (old(self).ticking() || asked(
                old(self).pending(),
                old(self).pending().len() as int,
                Command::Tick,
            )),
            forall|id: NodeId|
                old(arena).contains(id) ==> {
                    &&& (#[trigger] final(arena).node(id)).rect == old(arena).node(id).rect
                    &&& final(arena).node(id).attributes.offset == offset_run(
                        old(self).pending(),
                        old(self).pending().len() as int,
                        id,
                        old(arena).node(id).attributes.offset,
                    )
                },
    {
        let ghost pre = *arena;
        let ghost before = *self;
        let ghost all = self.pending();
        let cmds = self.drain_commands();
        let n = cmds.len();
        let mut changes: usize = 0;
        let mut i: usize = 0;
        while i < n
            invariant
                pre.wf(),
                arena.wf(),
                Arena::same_tree(pre, *arena),
                cmds@ == all,
                n == all.len(),
                i <= n,
                changes <= i,
                offsets_known(pre, all),
                self.pending().len() == 0,
                self.aim() == before.aim(),
                self.sender() == before.sender(),
                self.focus() == focus_run(pre, before.focus(), all, i as int),
                changes == focus_changes(pre, before.focus(), all, i as int),
                self.stopping() == (before.stopping() || asked(all, i as int, Command::Shutdown)),
                self.ticking() == (before.ticking() || asked(all, i as int, Command::Tick)),
                forall|id: NodeId|
                    pre.contains(id) ==> {
                        &&& (#[trigger] arena.node(id)).rect == pre.node(id).rect
                        &&& arena.node(id).attributes.offset == offset_run(
                            all,
                            i as int,
                            id,
                            pre.node(id).attributes.offset,
                        )
                    },
            decreases n - i,
        {
            let ghost mid = *arena;
            let ghost was = *self;
            let cmd = cmds[i];
            assert(cmd == all[i as int]);
            assert(cmd matches Command::SetOffset(id, _, _) ==> pre.contains(id));
            proof {
                lemma_focus_same_tree(pre, mid, was.focus(), cmd);
            }
            if cmd.reduce(self, arena) {
                changes = changes + 1;
            }
            proof {
                assert(asked(all, i + 1, Command::Shutdown) <==> asked(
                    all,
                    i as int,
                    Command::Shutdown,
                ) || cmd == Command::Shutdown) by {
                    if asked(all, i as int, Command::Shutdown) {
                        let j = choose|j: int|
                            0 <= j < i && j < all.len() && #[trigger] all[j] == Command::Shutdown;
                        assert(0 <= j < i + 1);
                    }
                }
                assert(asked(all, i + 1, Command::Tick) <==> asked(all, i as int, Command::Tick)
                    || cmd == Command::Tick) by {
                    if asked(all, i as int, Command::Tick) {
                        let j = choose|j: int|
                            0 <= j < i && j < all.len() && #[trigger] all[j] == Command::Tick;
                        assert(0 <= j < i + 1);
                    }
                }
                Arena::lemma_same_tree_trans(pre, mid, *arena);
                assert forall|id: NodeId| pre.contains(id) implies {
                    &&& (#[trigger] arena.node(id)).rect == pre.node(id).rect
                    &&& arena.node(id).attributes.offset == offset_run(
                        all,
                        i + 1,
                        id,
                        pre.node(id).attributes.offset,
                    )
                } by {
                    assert(mid.node(id).rect == pre.node(id).rect);
                }
            }
            i = i + 1;
        }
        proof {
            Arena::lemma_same_tree_preorder(pre, *arena);
        }
        changes
    }
}

/// The canvas offset of `id` once `cmd` is applied.
pub open spec fn offset_after(cmd: Command, id: NodeId, offset: (i32, i32)) -> (i32, i32) {
    match cmd {
        Command::SetOffset(target, x, y) if target == id => (x, y),
        _ => offset,
    }
}

/// Who receives the focus depends on the nodes and on what can be focused, not on where the
/// nodes are drawn.
pub proof fn lemma_focus_same_tree(pre: Arena, post: Arena, focused: Option<NodeId>, cmd: Command)
    requires
        Arena::same_tree(pre, post),
    ensures
        focus_after(post, focused, cmd) == focus_after(pre, focused, cmd),
{
    if let Command::SetFocus(id) = cmd {
        if pre.contains(id) {
            assert(post.node(id).attributes.focusable == pre.node(id).attributes.focusable);
        }
    }
}

impl Command {
    /// Applies the command, and tells whether the focus has changed. For a change of focus a
    /// [`FocusChanged`] event is sent.
    ///
    /// A command that sets the offset of a node must name a node of the arena.
    pub fn reduce(self, ctx: &mut Context, arena: &mut Arena) -> (changed: bool)
        requires
            old(arena).wf(),
            self matches Command::SetOffset(id, _, _) ==> old(arena).contains(id),
        ensures
            final(arena).wf(),
            Arena::same_tree(*old(arena), *final(arena)),
            final(ctx).pending() == old(ctx).pending(),
            final(ctx).aim() == old(ctx).aim(),
            final(ctx).sender() == old(ctx).sender(),
            final(ctx).focus() == focus_after(*old(arena), old(ctx).focus(), self),
            changed == (final(ctx).focus() != old(ctx).focus()),
            final(ctx).stopping() == (old(ctx).stopping() || self == Command::Shutdown),
            final(ctx).ticking() == (old(ctx).ticking() || self == Command::Tick),
            forall|id: NodeId|
                old(arena).contains(id) ==> {
                    &&& (#[trigger] final(arena).node(id)).rect == old(arena).node(id).rect
                    &&& final(arena).node(id).attributes.offset == offset_after(
                        self,
                        id,
                        old(arena).node(id).attributes.offset,
                    )
                },
    {
        let ghost pre = *arena;
        match self {
            Command::Shutdown => {
                ctx.shutdown_requested = true;
                false
            },
            Command::Tick => {
                ctx.tick_requested = true;
                false
            },
            Command::SetOffset(id, x, y) => {
                arena.set_offset(id, x, y);
                assert forall|z: NodeId| pre.contains(z) implies {
                    &&& (#[trigger] arena.node(z)).rect == pre.node(z).rect
                    &&& arena.node(z).attributes.offset == offset_after(
                        self,
                        z,
                        pre.node(z).attributes.offset,
                    )
                } by {
                    if z != id {
                        assert(arena.entries()[z] == pre.entries()[z]);
                    }
                }
                false
            },
            Command::SetFocus(id) => {
                let focusable = match arena.get(id) {
                    Some(node) => node.attributes.focusable,
                    None => false,
                };
                if focusable && !id.is_in(ctx.focused) {
                    ctx.focused = Some(id);
                    let _ = ctx.handle.send(Message::FocusChanged(FocusChanged {  }));
                    true
                } else {
                    false
                }
            },
            Command::ResignFocus(id) => {
                if id.is_in(ctx.focused) {
                    ctx.focused = None;
                    let _ = ctx.handle.send(Message::FocusChanged(FocusChanged {  }));
                    true
                } else {
                    false
                }
            },
        }
    }
}

/// Asking for the focus of a node a second time changes nothing: the focus stays where the
/// first request has put it.
pub proof fn lemma_focus_idempotent(arena: Arena, focused: Option<NodeId>, id: NodeId)
    ensures
        focus_after(arena, focus_after(arena, focused, Command::SetFocus(id)), Command::SetFocus(id))
            == focus_after(arena, focused, Command::SetFocus(id)),
{
}

/// However often the focus of one node is asked for in a pass, the focus changes at most once,
/// and not at all if the node has the focus already.
pub proof fn lemma_focus_repeated(
    arena: Arena,
    focused: Option<NodeId>,
    id: NodeId,
    cmds: Seq<Command>,
    n: int,
)
    requires
        0 <= n <= cmds.len(),
        forall|i: int| 0 <= i < n ==> cmds[i] == Command::SetFocus(id),
    ensures
        focus_changes(arena, focused, cmds, n) <= 1,
        focused == Some(id) ==> focus_changes(arena, focused, cmds, n) == 0,
        focus_run(arena, focused, cmds, n) == focused || focus_run(arena, focused, cmds, n)
            == Some(id),
        focus_changes(arena, focused, cmds, n) == 1 ==> focus_run(arena, focused, cmds, n)
            == Some(id),
    decreases n,
{
    if n > 0 {
        lemma_focus_repeated(arena, focused, id, cmds, n - 1);
    }
}

/// Provides the state of the pass and the runtime actions within a listener callback.
///
/// It is made for one node at a time, as the event reaches it.
pub struct EventContext<'d> {
    context: &'d mut Context,
    current_node: NodeId,
    rect: LogicalRect,
    pointer: Option<(u16, u16)>,
}

impl<'d> EventContext<'d> {
    /// The state of the pass.
    pub closed spec fn pass(&self) -> Context {
        *self.context
    }

    /// The node that the event has reached.
    pub closed spec fn node(&self) -> NodeId {
        self.current_node
    }

    /// The region of that node.
    pub closed spec fn region(&self) -> LogicalRect {
        self.rect
    }

    /// The cell that the event points at, if it is a pointer event.
    pub closed spec fn cell(&self) -> Option<(u16, u16)> {
        self.pointer
    }

    /// Whether this context speaks of the same node and event as `other`, with the same sender,
    /// target and focus, and with the same requests to tick and to shut down.
    pub open spec fn same_pass(&self, other: &Self) -> bool {
        &&& self.node() == other.node()
        &&& self.region() == other.region()
        &&& self.cell() == other.cell()
        &&& self.pass().sender() == other.pass().sender()
        &&& self.pass().aim() == other.pass().aim()
        &&& self.pass().focus() == other.pass().focus()
        &&& self.pass().ticking() == other.pass().ticking()
        &&& self.pass().stopping() == other.pass().stopping()
    }

    /// Creates a new event context.
    pub fn new(
        context: &'d mut Context,
        current_node: NodeId,
        rect: LogicalRect,
        pointer: Option<(u16, u16)>,
    ) -> (ec: Self)
        ensures
            ec.pass() == *old(context),
            ec.node() == current_node,
            ec.region() == rect,
            ec.cell() == pointer,
    {
        Self { context, current_node, rect, pointer }
    }

    /// Sets the canvas offset for this component.
    pub fn set_offset(&mut self, x: i32, y: i32)
        ensures
            final(self).same_pass(old(self)),
            final(self).pass().pending() == old(self).pass().pending().push(
                Command::SetOffset(old(self).node(), x, y),
            ),
    {
        self.context.enqueue(Command::SetOffset(self.current_node, x, y));
    }

    /// Requests focus for this component.
    ///
    /// Focus is assigned to the first focusable component that requested it during an update:
    /// where a request for the focus waits already, this one is dropped.
    ///
    /// If successful, a [`FocusChanged`] event is emitted.
    pub fn request_focus(&mut self)
        ensures
            final(self).same_pass(old(self)),
            final(self).pass().pending() == if focus_asked(
                old(self).pass().pending(),
                old(self).pass().pending().len() as int,
            ) {
                old(self).pass().pending()
            } else {
                old(self).pass().pending().push(Command::SetFocus(old(self).node()))
            },
    {
        if self.context.focus_is_asked() {
            return ;
        }
        self.context.enqueue(Command::SetFocus(self.current_node));
    }

    /// Resigns focus for this component.
    ///
    /// Has no effect if this component is not currently focused. Resigning does not prevent
    /// another component from claiming focus in the same update.
    ///
    /// If successful, a [`FocusChanged`] event is emitted.
    pub fn resign_focus(&mut self)
        ensures
            final(self).same_pass(old(self)),
            final(self).pass().pending() == old(self).pass().pending().push(
                Command::ResignFocus(old(self).node()),
            ),
    {
        self.context.enqueue(Command::ResignFocus(self.current_node));
    }

    /// Requests a [`Tick`](crate::events::Tick) event.
    ///
    /// This is useful for functionality requiring the flow of time, such as animations.
    pub fn request_tick(&mut self)
        ensures
            final(self).same_pass(old(self)),
            final(self).pass().pending() == old(self).pass().pending().push(Command::Tick),
    {
        self.context.enqueue(Command::Tick);
    }

    /// Signals the runtime loop to shutdown.
    ///
    /// The runtime loop may defer or delay shutdown requests with discretion.
    pub fn request_shutdown(&mut self)
        ensures
            final(self).same_pass(old(self)),
            final(self).pass().pending() == old(self).pass().pending().push(Command::Shutdown),
    {
        self.context.enqueue(Command::Shutdown);
    }

    /// Determines if this component is focused.
    pub fn is_focused(&self) -> (b: bool)
        ensures
            b == (self.pass().focus() == Some(self.node())),
    {
        self.current_node.is_in(self.context.focused)
    }

    /// Determines if the user clicked this component.
    ///
    /// A mouse hit is assigned to only one upper-most component containing the cursor.
    pub fn is_mouse_hit(&self) -> (b: bool)
        ensures
            b == (self.pass().aim() == Some(self.node())),
    {
        self.current_node.is_in(self.context.target)
    }

    /// Returns the relative mouse coordinates where this mouse event took place: the pointer's
    /// cell, counted from the corner of this component's region. An event without a pointer has
    /// none.
    pub fn mouse_coords(&self) -> (at: Option<(i32, i32)>)
        ensures
            at == match self.cell() {
                Some((x, y)) => Some(
                    (
                        clamp_i32(x - self.region().x) as i32,
                        clamp_i32(y - self.region().y) as i32,
                    ),
                ),
                None => None,
            },
    {
        match self.pointer {
            Some((x, y)) => Some(
                (
                    saturate(x as i64 - self.rect.x as i64),
                    saturate(y as i64 - self.rect.y as i64),
                ),
            ),
            None => None,
        }
    }

    /// The region of this component with its corner at `(0, 0)`.
    pub fn rect(&self) -> (r: LogicalRect)
        ensures
            r == (LogicalRect {
                x: 0,
                y: 0,
                width: self.region().width,
                height: self.region().height,
            }),
    {
        LogicalRect::new(0, 0, self.rect.width, self.rect.height)
    }
}

} // verus!
