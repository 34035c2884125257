use vtui::reconcile::{Fate, ReconcileError};
use vtui::context::Command;
use vtui::events::{Message, MouseDown, Tick};
use vtui::input::MouseButton;
use vtui::layout::{Flow, Measure, Placement, WHOLE};
use vtui::node::{ArenaNode, Descriptor, Identity, NodeAttributes, NodeId};
use vtui::rect::LogicalRect;
use vtui::runtime::{Reconciler, Runtime};
use vtui::transport::MessageBus;

fn child(site: u64, measure: Measure, focusable: bool) -> Descriptor {
    Descriptor::from_parts(
        Identity::at(site),
        Vec::new(),
        NodeAttributes { measure, focusable, ..NodeAttributes::default() },
    )
}

/// What the components of the test yield: the node at site 0 has two children, the first of
/// which has one child.
fn compose(rt: &Runtime, id: NodeId) -> Vec<Descriptor> {
    match rt.arena().get(id).unwrap().identity.site {
        0 => vec![child(1, Measure::Exact(10), true), child(2, Measure::Percent(WHOLE), false)],
        1 => vec![child(3, Measure::Exact(4), true)],
        _ => Vec::new(),
    }
}

fn reconcile_all(rt: &mut Runtime) -> Vec<NodeId> {
    let mut visited = Vec::new();
    let mut work = Reconciler::begin(rt.arena().root_id());
    while let Some(id) = work.next() {
        let descriptors = compose(rt, id);
        if work.supply(rt.arena_mut(), id, &descriptors).is_err() {
            panic!("reconcile failed");
        }
        visited.push(id);
    }
    visited
}

fn engine(bus: &MessageBus) -> Runtime {
    let root = Descriptor::from_parts(
        Identity::at(0),
        Vec::new(),
        NodeAttributes {
            flow: Flow::Vertical,
            placement: Placement::Overflow,
            ..NodeAttributes::default()
        },
    );
    Runtime::new(ArenaNode::build(root), bus.handle().clone())
}

#[test]
fn reconciler_visits_the_tree_in_pre_order() {
    let bus = MessageBus::new();
    let mut rt = engine(&bus);
    let visited = reconcile_all(&mut rt);
    assert_eq!(visited.len(), 4);
    assert_eq!(visited, rt.arena().traverse());
    // A second run finds every node again.
    assert_eq!(reconcile_all(&mut rt), visited);
    assert_eq!(rt.arena().len(), 4);
}

#[test]
fn reconciler_hands_the_children_on() {
    let bus = MessageBus::new();
    let mut rt = engine(&bus);
    let root = rt.arena().root_id();
    let mut work = Reconciler::begin(root);
    assert_eq!(work.next(), Some(root));
    assert_eq!(work.next(), None);
    let descriptors = compose(&rt, root);
    let out = match work.supply(rt.arena_mut(), root, &descriptors) {
        Ok(out) => out,
        Err(_) => panic!("reconcile failed"),
    };
    assert_eq!(out.fates, vec![Fate::Built, Fate::Built]);
    let twice = vec![child(1, Measure::Exact(1), false), child(1, Measure::Exact(2), false)];
    let r = work.supply(rt.arena_mut(), root, &twice);
    assert!(matches!(r, Err(ReconcileError::DuplicateIdentity)));
    assert_eq!(work.next(), Some(out.children[0]));
    assert_eq!(work.next(), Some(out.children[1]));
    assert_eq!(work.next(), None);
}

#[test]
fn frame_is_laid_out_and_drawn_in_order() {
    let bus = MessageBus::new();
    let mut rt = engine(&bus);
    let ids = reconcile_all(&mut rt);
    let order = rt.draw(LogicalRect::new(0, 0, 10, 20));
    assert_eq!(order, ids);
    assert_eq!(rt.arena().get(ids[1]).unwrap().area(), LogicalRect::new(0, 0, 10, 10));
    assert_eq!(rt.arena().get(ids[2]).unwrap().area(), LogicalRect::new(0, 0, 10, 4));
    assert_eq!(rt.arena().get(ids[3]).unwrap().area(), LogicalRect::new(0, 10, 10, 20));
}

#[test]
fn update_runs_in_three_steps() {
    let bus = MessageBus::new();
    let mut rt = engine(&bus);
    let ids = reconcile_all(&mut rt);
    rt.draw(LogicalRect::new(0, 0, 10, 20));
    let press = Message::MouseDown(MouseDown { x: 3, y: 2, button: MouseButton::Left });
    let order = rt.begin_update(&press);
    assert_eq!(order, vec![ids[3], ids[2], ids[1], ids[0]]);
    assert_eq!(rt.context().target(), Some(ids[2]));
    for id in order {
        let mut ec = rt.listen(id, &press).unwrap();
        if ec.is_mouse_hit() {
            assert_eq!(ec.mouse_coords(), Some((3, 2)));
            ec.request_focus();
            ec.set_offset(0, 1);
        }
        if id == ids[0] {
            ec.request_shutdown();
        }
    }
    assert!(!rt.should_exit());
    assert_eq!(rt.end_update(), Ok(1));
    assert!(rt.should_exit());
    assert_eq!(rt.context().focused(), Some(ids[2]));
    assert_eq!(rt.arena().get(ids[2]).unwrap().attributes.offset, (0, 1));
    assert_eq!(bus.try_recv().map(|m| m.coords()), Some(None));
    // An event without a pointer is aimed at no node.
    let order = rt.begin_update(&Message::Tick(Tick));
    assert_eq!(order.len(), 4);
    assert_eq!(rt.context().target(), None);
    assert_eq!(rt.end_update(), Ok(0));
}

#[test]
fn commands_for_a_node_that_is_gone_are_handed_back() {
    let bus = MessageBus::new();
    let mut rt = engine(&bus);
    let ids = reconcile_all(&mut rt);
    let tick = Message::Tick(Tick);
    rt.begin_update(&tick);
    rt.listen(ids[2], &tick).unwrap().set_offset(1, 1);
    rt.listen(ids[1], &tick).unwrap().request_focus();
    let root = ids[0];
    if rt.arena_mut().try_reconcile_children(root, &Vec::new()).is_err() {
        panic!("reconcile failed");
    }
    assert!(rt.listen(ids[2], &tick).is_none());
    assert_eq!(
        rt.end_update(),
        Err(vec![Command::SetOffset(ids[2], 1, 1), Command::SetFocus(ids[1])])
    );
    assert_eq!(rt.context().focused(), None);
    assert_eq!(rt.context().queued().len(), 0);
}
