use vtui::arena::Arena;
use vtui::context::{Command, Context, EventContext};
use vtui::events::{FocusChanged, Message, MouseDown, Tick};
use vtui::input::MouseButton;
use vtui::layout::Measure;
use vtui::node::{ArenaNode, Descriptor, Identity, NodeAttributes, NodeId};
use vtui::rect::LogicalRect;
use vtui::transport::MessageBus;

fn child(site: u64, focusable: bool, measure: Measure) -> Descriptor {
    Descriptor::from_parts(
        Identity::at(site),
        Vec::new(),
        NodeAttributes { focusable, measure, ..NodeAttributes::default() },
    )
}

/// Builds root -> [a (focusable), b (focusable), c (not focusable)].
fn tree() -> (Arena, NodeId, NodeId, NodeId) {
    let root = Descriptor::from_parts(Identity::at(0), Vec::new(), NodeAttributes::default());
    let mut arena = Arena::new(ArenaNode::build(root));
    let id = arena.root_id();
    let descriptors = vec![
        child(1, true, Measure::Fixed(0, 0, 10, 10)),
        child(2, true, Measure::Fixed(5, 5, 10, 10)),
        child(3, false, Measure::Fixed(30, 30, 2, 2)),
    ];
    let out = match arena.try_reconcile_children(id, &descriptors) {
        Ok(out) => out,
        Err(_) => panic!("reconcile failed"),
    };
    arena.compute_layout(LogicalRect::new(0, 0, 40, 40));
    (arena, out.children[0], out.children[1], out.children[2])
}

fn drain(bus: &MessageBus) -> Vec<Message> {
    let mut seen = Vec::new();
    while let Some(msg) = bus.try_recv() {
        seen.push(msg);
    }
    seen
}

#[test]
fn new_context_is_blank() {
    let bus = MessageBus::new();
    let ctx = Context::new(bus.handle().clone());
    assert_eq!(ctx.focused(), None);
    assert_eq!(ctx.target(), None);
    assert_eq!(ctx.queued().len(), 0);
    assert!(!ctx.tick_requested());
    assert!(!ctx.shutdown_requested());
}

#[test]
fn commands_wait_until_they_are_committed() {
    let (mut arena, a, _, _) = tree();
    let bus = MessageBus::new();
    let mut ctx = Context::new(bus.handle().clone());
    {
        let mut ec = EventContext::new(&mut ctx, a, LogicalRect::new(0, 0, 10, 10), None);
        ec.set_offset(1, 2);
        ec.request_focus();
        ec.request_tick();
        ec.request_shutdown();
        assert!(!ec.is_focused());
    }
    assert_eq!(
        ctx.queued(),
        &vec![Command::SetOffset(a, 1, 2), Command::SetFocus(a), Command::Tick, Command::Shutdown]
    );
    assert_eq!(ctx.focused(), None);
    assert!(!ctx.shutdown_requested());
    assert_eq!(arena.get(a).unwrap().attributes.offset, (0, 0));
    assert!(ctx.commands_known(&arena));
    let changes = ctx.commit(&mut arena);
    assert_eq!(changes, 1);
    assert_eq!(ctx.queued().len(), 0);
    assert_eq!(ctx.focused(), Some(a));
    assert!(ctx.tick_requested());
    assert!(ctx.shutdown_requested());
    assert_eq!(arena.get(a).unwrap().attributes.offset, (1, 2));
    assert_eq!(drain(&bus), vec![Message::FocusChanged(FocusChanged {})]);
}

#[test]
fn first_request_for_the_focus_wins() {
    let (mut arena, a, b, _) = tree();
    let bus = MessageBus::new();
    let mut ctx = Context::new(bus.handle().clone());
    EventContext::new(&mut ctx, b, LogicalRect::zeroed(), None).request_focus();
    EventContext::new(&mut ctx, a, LogicalRect::zeroed(), None).request_focus();
    assert_eq!(ctx.queued(), &vec![Command::SetFocus(b)]);
    assert!(ctx.focus_is_asked());
    assert_eq!(ctx.commit(&mut arena), 1);
    assert_eq!(ctx.focused(), Some(b));
}

#[test]
fn focus_requested_again_changes_nothing() {
    let (mut arena, a, _, _) = tree();
    let bus = MessageBus::new();
    let mut ctx = Context::new(bus.handle().clone());
    ctx.enqueue(Command::SetFocus(a));
    assert_eq!(ctx.commit(&mut arena), 1);
    assert_eq!(drain(&bus).len(), 1);
    // The node has the focus: asking twice more, in one pass, sends no notice at all.
    ctx.enqueue(Command::SetFocus(a));
    ctx.enqueue(Command::SetFocus(a));
    assert_eq!(ctx.commit(&mut arena), 0);
    assert_eq!(ctx.focused(), Some(a));
    assert_eq!(drain(&bus).len(), 0);
    {
        let mut ec = EventContext::new(&mut ctx, a, LogicalRect::zeroed(), None);
        assert!(ec.is_focused());
        ec.request_focus();
        ec.request_focus();
    }
    assert_eq!(ctx.queued(), &vec![Command::SetFocus(a)]);
    assert_eq!(ctx.commit(&mut arena), 0);
    assert_eq!(drain(&bus).len(), 0);
}

#[test]
fn focus_needs_a_focusable_node_of_the_tree() {
    let (mut arena, a, _, c) = tree();
    let bus = MessageBus::new();
    let mut ctx = Context::new(bus.handle().clone());
    ctx.enqueue(Command::SetFocus(c));
    assert_eq!(ctx.commit(&mut arena), 0);
    assert_eq!(ctx.focused(), None);
    ctx.enqueue(Command::SetFocus(a));
    ctx.enqueue(Command::SetFocus(c));
    assert_eq!(ctx.commit(&mut arena), 1);
    assert_eq!(ctx.focused(), Some(a));
    // A node that has left the tree cannot take the focus.
    let root = arena.root_id();
    if arena.try_reconcile_children(root, &Vec::new()).is_err() {
        panic!("reconcile failed");
    }
    ctx.enqueue(Command::ResignFocus(a));
    ctx.enqueue(Command::SetFocus(a));
    assert_eq!(ctx.commit(&mut arena), 1);
    assert_eq!(ctx.focused(), None);
}

#[test]
fn resigning_takes_the_focus_from_its_holder_only() {
    let (mut arena, a, b, _) = tree();
    let bus = MessageBus::new();
    let mut ctx = Context::new(bus.handle().clone());
    ctx.enqueue(Command::SetFocus(a));
    ctx.enqueue(Command::ResignFocus(b));
    assert_eq!(ctx.commit(&mut arena), 1);
    assert_eq!(ctx.focused(), Some(a));
    EventContext::new(&mut ctx, a, LogicalRect::zeroed(), None).resign_focus();
    ctx.enqueue(Command::SetFocus(b));
    assert_eq!(ctx.commit(&mut arena), 2);
    assert_eq!(ctx.focused(), Some(b));
    assert_eq!(drain(&bus).len(), 3);
}

#[test]
fn shutdown_stays_once_it_is_asked_for() {
    let (mut arena, _, _, _) = tree();
    let bus = MessageBus::new();
    let mut ctx = Context::new(bus.handle().clone());
    ctx.enqueue(Command::Shutdown);
    ctx.commit(&mut arena);
    assert!(ctx.shutdown_requested());
    ctx.enqueue(Command::Tick);
    ctx.commit(&mut arena);
    assert!(ctx.shutdown_requested());
    assert!(ctx.tick_requested());
    ctx.clear_tick_request();
    assert!(!ctx.tick_requested());
    assert!(ctx.shutdown_requested());
}

#[test]
fn last_offset_of_a_pass_stands() {
    let (mut arena, a, b, _) = tree();
    let bus = MessageBus::new();
    let mut ctx = Context::new(bus.handle().clone());
    ctx.enqueue(Command::SetOffset(a, 1, 1));
    ctx.enqueue(Command::SetOffset(b, 5, 5));
    ctx.enqueue(Command::SetOffset(a, 2, -2));
    ctx.commit(&mut arena);
    assert_eq!(arena.get(a).unwrap().attributes.offset, (2, -2));
    assert_eq!(arena.get(b).unwrap().attributes.offset, (5, 5));
    let root = arena.root_id();
    if arena.try_reconcile_children(root, &Vec::new()).is_err() {
        panic!("reconcile failed");
    }
    ctx.enqueue(Command::SetOffset(a, 0, 0));
    assert!(!ctx.commands_known(&arena));
    assert_eq!(ctx.drain_commands(), vec![Command::SetOffset(a, 0, 0)]);
    assert!(ctx.commands_known(&arena));
}

#[test]
fn pass_resolves_the_target_of_a_pointer_event() {
    let (arena, a, b, c) = tree();
    let bus = MessageBus::new();
    let mut ctx = Context::new(bus.handle().clone());
    let press = Message::MouseDown(MouseDown { x: 7, y: 7, button: MouseButton::Left });
    let order = ctx.begin_pass(&arena, &press);
    assert_eq!(order, vec![c, b, a, arena.root_id()]);
    assert_eq!(ctx.target(), Some(b));
    {
        let ec = EventContext::new(&mut ctx, b, arena.get(b).unwrap().area(), press.coords());
        assert!(ec.is_mouse_hit());
        assert_eq!(ec.mouse_coords(), Some((2, 2)));
        assert_eq!(ec.rect(), LogicalRect::new(0, 0, 10, 10));
    }
    {
        let ec = EventContext::new(&mut ctx, a, arena.get(a).unwrap().area(), press.coords());
        assert!(!ec.is_mouse_hit());
        assert_eq!(ec.mouse_coords(), Some((7, 7)));
    }
    let order = ctx.begin_pass(&arena, &Message::Tick(Tick));
    assert_eq!(order.len(), 4);
    assert_eq!(ctx.target(), None);
    let ec = EventContext::new(&mut ctx, a, LogicalRect::zeroed(), None);
    assert_eq!(ec.mouse_coords(), None);
}

#[test]
fn set_target_replaces_the_target() {
    let (_, a, _, _) = tree();
    let bus = MessageBus::new();
    let mut ctx = Context::new(bus.handle().clone());
    ctx.set_target(Some(a));
    assert_eq!(ctx.target(), Some(a));
    ctx.set_target(None);
    assert_eq!(ctx.target(), None);
    assert!(ctx.handle().send(Message::Tick(Tick)).is_ok());
}

#[test]
fn reduce_applies_one_command() {
    let (mut arena, a, b, c) = tree();
    let bus = MessageBus::new();
    let mut ctx = Context::new(bus.handle().clone());
    assert!(Command::SetFocus(a).reduce(&mut ctx, &mut arena));
    assert!(!Command::SetFocus(a).reduce(&mut ctx, &mut arena));
    assert!(!Command::SetFocus(c).reduce(&mut ctx, &mut arena));
    assert_eq!(ctx.focused(), Some(a));
    assert!(!Command::ResignFocus(b).reduce(&mut ctx, &mut arena));
    assert!(Command::ResignFocus(a).reduce(&mut ctx, &mut arena));
    assert_eq!(ctx.focused(), None);
    assert_eq!(drain(&bus).len(), 2);
    assert!(!Command::SetOffset(b, 4, 5).reduce(&mut ctx, &mut arena));
    assert_eq!(arena.get(b).unwrap().attributes.offset, (4, 5));
    assert!(!Command::Tick.reduce(&mut ctx, &mut arena));
    assert!(ctx.tick_requested());
    assert!(!ctx.shutdown_requested());
    assert!(!Command::Shutdown.reduce(&mut ctx, &mut arena));
    assert!(ctx.shutdown_requested());
}
