use vtui::arena::Arena;
use vtui::reconcile::{identities_distinct, Fate, ReconcileError, Reconciled};
use vtui::layout::{Flow, Measure, Placement, WHOLE};
use vtui::node::{ArenaNode, Descriptor, Identity, NodeAttributes, NodeId, Props};
use vtui::rect::LogicalRect;

fn attrs(measure: Measure) -> NodeAttributes {
    NodeAttributes { measure, ..NodeAttributes::default() }
}

fn desc(site: u64, props: &[u8]) -> Descriptor {
    Descriptor::from_parts(Identity::at(site), props.to_vec(), NodeAttributes::default())
}

fn measured(site: u64, measure: Measure) -> Descriptor {
    Descriptor::from_parts(Identity::at(site), Vec::new(), attrs(measure))
}

fn root_with(attributes: NodeAttributes) -> Arena {
    Arena::new(ArenaNode::build(Descriptor::from_parts(Identity::at(0), Vec::new(), attributes)))
}

fn reconcile(arena: &mut Arena, id: NodeId, descriptors: Vec<Descriptor>) -> Reconciled {
    match arena.try_reconcile_children(id, &descriptors) {
        Ok(out) => out,
        Err(e) => panic!("reconcile failed: {:?}", e),
    }
}

/// Builds root -> [a -> [a1, a2], b -> [b1]] and returns the handles in that order.
fn small_tree() -> (Arena, Vec<NodeId>) {
    let mut arena = root_with(NodeAttributes::default());
    let root = arena.root_id();
    let top = reconcile(&mut arena, root, vec![desc(1, b"a"), desc(2, b"b")]);
    let a = top.children[0];
    let b = top.children[1];
    let under_a = reconcile(&mut arena, a, vec![desc(11, b""), desc(12, b"")]);
    let under_b = reconcile(&mut arena, b, vec![desc(21, b"")]);
    let ids = vec![root, a, under_a.children[0], under_a.children[1], b, under_b.children[0]];
    (arena, ids)
}

#[test]
fn new_arena_holds_the_root_alone() {
    let arena = root_with(NodeAttributes::default());
    assert_eq!(arena.len(), 1);
    let root = arena.root_id();
    let node = arena.get(root).unwrap();
    assert_eq!(node.identity, Identity::at(0));
    assert_eq!(node.children.len(), 0);
    assert_eq!(node.area(), LogicalRect::zeroed());
    assert_eq!(arena.traverse(), vec![root]);
}

#[test]
fn reconcile_builds_a_node_for_each_new_descriptor() {
    let mut arena = root_with(NodeAttributes::default());
    let root = arena.root_id();
    let out = reconcile(&mut arena, root, vec![desc(1, b"x"), desc(2, b"y"), desc(3, b"z")]);
    assert_eq!(out.fates, vec![Fate::Built, Fate::Built, Fate::Built]);
    assert_eq!(out.removed.len(), 0);
    assert_eq!(arena.len(), 4);
    assert_eq!(arena.get(root).unwrap().children, out.children);
    assert_ne!(out.children[0], out.children[1]);
    assert_ne!(out.children[1], out.children[2]);
    assert_ne!(out.children[0], root);
    let second = arena.get(out.children[1]).unwrap();
    assert_eq!(second.identity, Identity::at(2));
    assert_eq!(second.props, b"y".to_vec());
    assert_eq!(second.children.len(), 0);
}

#[test]
fn reconcile_twice_with_the_same_descriptors_changes_nothing() {
    let (mut arena, ids) = small_tree();
    let before = arena.traverse();
    let out = reconcile(&mut arena, ids[0], vec![desc(1, b"a"), desc(2, b"b")]);
    assert_eq!(out.fates, vec![Fate::Reused, Fate::Reused]);
    assert_eq!(out.children, vec![ids[1], ids[4]]);
    assert_eq!(out.removed.len(), 0);
    assert_eq!(arena.traverse(), before);
    assert_eq!(arena.len(), 6);
    let again = reconcile(&mut arena, ids[1], vec![desc(11, b""), desc(12, b"")]);
    assert_eq!(again.fates, vec![Fate::Reused, Fate::Reused]);
    assert_eq!(again.children, vec![ids[2], ids[3]]);
    assert_eq!(arena.traverse(), before);
}

#[test]
fn reused_child_keeps_its_handle_and_its_subtree() {
    let (mut arena, ids) = small_tree();
    arena.set_offset(ids[1], 3, 4);
    // The children change places; both are found again by their identities.
    let out = reconcile(&mut arena, ids[0], vec![desc(2, b"b"), desc(1, b"a")]);
    assert_eq!(out.fates, vec![Fate::Reused, Fate::Reused]);
    assert_eq!(out.children, vec![ids[4], ids[1]]);
    assert_eq!(arena.get(ids[1]).unwrap().attributes.offset, (3, 4));
    assert_eq!(arena.get(ids[1]).unwrap().children, vec![ids[2], ids[3]]);
    assert_eq!(arena.traverse(), vec![ids[0], ids[4], ids[5], ids[1], ids[2], ids[3]]);
}

#[test]
fn child_with_other_props_is_rebuilt_in_place() {
    let (mut arena, ids) = small_tree();
    arena.set_offset(ids[1], 3, 4);
    let out = reconcile(&mut arena, ids[0], vec![desc(1, b"changed"), desc(2, b"b")]);
    assert_eq!(out.fates, vec![Fate::Rebuilt, Fate::Reused]);
    assert_eq!(out.children, vec![ids[1], ids[4]]);
    let rebuilt = arena.get(ids[1]).unwrap();
    assert_eq!(rebuilt.props, b"changed".to_vec());
    assert_eq!(rebuilt.attributes.offset, (0, 0));
    assert_eq!(rebuilt.children.len(), 0);
    // What hung below the rebuilt child is gone.
    let mut removed = out.removed.clone();
    removed.sort_by_key(|id| ids.iter().position(|other| other == id));
    assert_eq!(removed, vec![ids[2], ids[3]]);
    assert!(arena.get(ids[2]).is_none());
    assert!(arena.get(ids[3]).is_none());
    assert_eq!(arena.traverse(), vec![ids[0], ids[1], ids[4], ids[5]]);
}

#[test]
fn child_that_no_descriptor_claims_leaves_with_its_subtree() {
    let (mut arena, ids) = small_tree();
    let out = reconcile(&mut arena, ids[0], vec![desc(2, b"b"), desc(3, b"c")]);
    assert_eq!(out.fates, vec![Fate::Reused, Fate::Built]);
    assert_eq!(out.children[0], ids[4]);
    let mut removed = out.removed.clone();
    removed.sort_by_key(|id| ids.iter().position(|other| other == id));
    assert_eq!(removed, vec![ids[1], ids[2], ids[3]]);
    for gone in [ids[1], ids[2], ids[3]] {
        assert!(arena.get(gone).is_none());
    }
    assert_eq!(arena.len(), 4);
    assert_eq!(arena.traverse(), vec![ids[0], ids[4], ids[5], out.children[1]]);
    // No descriptors at all: every child leaves.
    let out = reconcile(&mut arena, ids[0], Vec::new());
    assert_eq!(out.children.len(), 0);
    assert_eq!(out.removed.len(), 3);
    assert_eq!(arena.traverse(), vec![ids[0]]);
}

#[test]
fn keys_tell_children_of_one_site_apart() {
    let mut arena = root_with(NodeAttributes::default());
    let root = arena.root_id();
    let item = |key: u64| {
        Descriptor::from_parts(Identity::keyed(7, key), vec![key as u8], NodeAttributes::default())
    };
    let first = reconcile(&mut arena, root, vec![item(1), item(2), item(3)]);
    let second = reconcile(&mut arena, root, vec![item(3), item(1)]);
    assert_eq!(second.fates, vec![Fate::Reused, Fate::Reused]);
    assert_eq!(second.children, vec![first.children[2], first.children[0]]);
    assert_eq!(second.removed, vec![first.children[1]]);
}

#[test]
fn duplicate_identity_is_refused() {
    for count in 2..6 {
        let mut arena = root_with(NodeAttributes::default());
        let root = arena.root_id();
        let mut descriptors: Vec<Descriptor> = Vec::new();
        for k in 0..count {
            descriptors.push(desc(k as u64, b""));
        }
        descriptors.push(desc(0, b"other props"));
        assert!(!identities_distinct(&descriptors));
        let r = arena.try_reconcile_children(root, &descriptors);
        assert!(matches!(r, Err(ReconcileError::DuplicateIdentity)));
        assert_eq!(arena.len(), 1);
    }
    let same_site_other_key = vec![
        Descriptor::from_parts(Identity::keyed(1, 1), Vec::new(), NodeAttributes::default()),
        Descriptor::from_parts(Identity::keyed(1, 2), Vec::new(), NodeAttributes::default()),
        Descriptor::from_parts(Identity::at(1), Vec::new(), NodeAttributes::default()),
    ];
    assert!(identities_distinct(&same_site_other_key));
}

#[test]
fn unknown_node_is_refused() {
    let (mut arena, ids) = small_tree();
    reconcile(&mut arena, ids[0], Vec::new());
    let r = arena.try_reconcile_children(ids[1], &vec![desc(1, b"")]);
    assert!(matches!(r, Err(ReconcileError::UnknownNode)));
    assert_eq!(arena.len(), 1);
}

#[test]
fn props_of_the_unit_type_encode_to_nothing() {
    let d = Descriptor::new(Identity::at(4), &(), NodeAttributes::default());
    assert_eq!(d.identity, Identity::at(4));
    assert_eq!(d.props.len(), 0);
    assert_eq!(().encode(), Vec::<u8>::new());
}

#[test]
fn traversal_is_pre_order() {
    let (arena, ids) = small_tree();
    assert_eq!(arena.traverse(), ids);
    let mut backwards = ids.clone();
    backwards.reverse();
    assert_eq!(arena.dispatch_order(), backwards);
}

#[test]
fn child_hears_of_an_event_before_its_parent() {
    let mut arena = root_with(NodeAttributes::default());
    let grandparent = arena.root_id();
    let parent = reconcile(&mut arena, grandparent, vec![desc(1, b"")]).children[0];
    let child = reconcile(&mut arena, parent, vec![desc(1, b"")]).children[0];
    assert_eq!(arena.dispatch_order(), vec![child, parent, grandparent]);
}

#[test]
fn draw_order_sorts_by_layer_and_keeps_the_traversal_within_a_layer() {
    let mut arena = root_with(NodeAttributes::default());
    let root = arena.root_id();
    let layered = |site: u64, layer: i32| {
        Descriptor::from_parts(
            Identity::at(site),
            Vec::new(),
            NodeAttributes { layer, ..NodeAttributes::default() },
        )
    };
    let out = reconcile(
        &mut arena,
        root,
        vec![layered(1, 5), layered(2, 0), layered(3, -1), layered(4, 5), layered(5, 0)],
    );
    let c = out.children;
    assert_eq!(arena.traverse(), vec![root, c[0], c[1], c[2], c[3], c[4]]);
    assert_eq!(arena.draw_order(), vec![c[2], root, c[1], c[4], c[0], c[3]]);
}

#[test]
fn layout_gives_every_node_its_region() {
    let mut arena = root_with(NodeAttributes {
        flow: Flow::Vertical,
        placement: Placement::Overflow,
        ..NodeAttributes::default()
    });
    let root = arena.root_id();
    let out = reconcile(
        &mut arena,
        root,
        vec![measured(1, Measure::Exact(10)), measured(2, Measure::Percent(WHOLE))],
    );
    arena.compute_layout(LogicalRect::new(0, 0, 10, 20));
    assert_eq!(arena.get(root).unwrap().area(), LogicalRect::new(0, 0, 10, 20));
    assert_eq!(arena.get(out.children[0]).unwrap().area(), LogicalRect::new(0, 0, 10, 10));
    assert_eq!(arena.get(out.children[1]).unwrap().area(), LogicalRect::new(0, 10, 10, 20));
}

#[test]
fn layout_reaches_the_grandchildren() {
    let mut arena = root_with(NodeAttributes {
        flow: Flow::Horizontal,
        placement: Placement::Fit,
        ..NodeAttributes::default()
    });
    let root = arena.root_id();
    let columns = reconcile(
        &mut arena,
        root,
        vec![measured(1, Measure::Percent(1)), measured(2, Measure::Percent(2))],
    );
    let rows = reconcile(
        &mut arena,
        columns.children[1],
        vec![measured(1, Measure::Exact(2)), measured(2, Measure::Fixed(1, 1, 3, 3))],
    );
    arena.compute_layout(LogicalRect::new(2, 1, 30, 9));
    assert_eq!(arena.get(columns.children[0]).unwrap().area(), LogicalRect::new(2, 1, 10, 9));
    assert_eq!(arena.get(columns.children[1]).unwrap().area(), LogicalRect::new(12, 1, 20, 9));
    assert_eq!(arena.get(rows.children[0]).unwrap().area(), LogicalRect::new(12, 1, 20, 2));
    assert_eq!(arena.get(rows.children[1]).unwrap().area(), LogicalRect::new(13, 2, 3, 3));
    // A second layout with another viewport overwrites the first.
    arena.compute_layout(LogicalRect::new(0, 0, 3, 3));
    assert_eq!(arena.get(columns.children[0]).unwrap().area(), LogicalRect::new(0, 0, 1, 3));
    assert_eq!(arena.get(columns.children[1]).unwrap().area(), LogicalRect::new(1, 0, 2, 3));
}

#[test]
fn pointer_lands_on_the_sibling_that_is_composed_later() {
    let mut arena = root_with(NodeAttributes {
        flow: Flow::Horizontal,
        ..NodeAttributes::default()
    });
    let root = arena.root_id();
    let out = reconcile(
        &mut arena,
        root,
        vec![
            measured(1, Measure::Fixed(0, 0, 10, 10)),
            measured(2, Measure::Fixed(5, 5, 10, 10)),
        ],
    );
    arena.compute_layout(LogicalRect::new(0, 0, 40, 40));
    let (a, b) = (out.children[0], out.children[1]);
    assert_eq!(arena.hit_test(7, 7), Some(b));
    assert_eq!(arena.hit_test(2, 2), Some(a));
    assert_eq!(arena.hit_test(14, 14), Some(b));
    assert_eq!(arena.hit_test(30, 30), Some(root));
    assert_eq!(arena.hit_test(40, 0), None);
}

#[test]
fn pointer_lands_on_the_higher_layer() {
    let mut arena = root_with(NodeAttributes::default());
    let root = arena.root_id();
    let raised = Descriptor::from_parts(
        Identity::at(1),
        Vec::new(),
        NodeAttributes { layer: 1, measure: Measure::Fixed(0, 0, 10, 10), ..NodeAttributes::default() },
    );
    let out = reconcile(&mut arena, root, vec![raised, measured(2, Measure::Fixed(5, 5, 10, 10))]);
    arena.compute_layout(LogicalRect::new(0, 0, 40, 40));
    assert_eq!(arena.hit_test(7, 7), Some(out.children[0]));
    assert_eq!(arena.hit_test(12, 12), Some(out.children[1]));
}

#[test]
fn set_offset_touches_one_node() {
    let (mut arena, ids) = small_tree();
    arena.compute_layout(LogicalRect::new(0, 0, 8, 8));
    let area = arena.get(ids[4]).unwrap().area();
    arena.set_offset(ids[4], -2, 9);
    assert_eq!(arena.get(ids[4]).unwrap().attributes.offset, (-2, 9));
    assert_eq!(arena.get(ids[4]).unwrap().area(), area);
    assert_eq!(arena.get(ids[1]).unwrap().attributes.offset, (0, 0));
    assert_eq!(arena.traverse(), ids);
}

#[test]
fn handles_compare_by_value() {
    let (_, ids) = small_tree();
    assert!(ids[1].is_in(Some(ids[1])));
    assert!(!ids[1].is_in(Some(ids[2])));
    assert!(!ids[1].is_in(None));
}

#[test]
fn traversal_holds_every_node_once() {
    let (mut arena, ids) = small_tree();
    reconcile(&mut arena, ids[4], vec![desc(21, b""), desc(22, b""), desc(23, b"")]);
    let order = arena.traverse();
    assert_eq!(order.len(), arena.len());
    for (i, id) in order.iter().enumerate() {
        assert!(arena.get(*id).is_some());
        assert!(!order[..i].contains(id));
    }
    let mut drawn = arena.draw_order();
    assert_eq!(drawn.len(), order.len());
    drawn.retain(|id| !order.contains(id));
    assert_eq!(drawn.len(), 0);
}

#[test]
fn set_attributes_replaces_the_attributes_of_one_node() {
    let (mut arena, ids) = small_tree();
    let attributes = NodeAttributes {
        focusable: true,
        flow: Flow::Horizontal,
        layer: 3,
        ..NodeAttributes::default()
    };
    arena.set_attributes(ids[1], attributes);
    assert_eq!(arena.get(ids[1]).unwrap().attributes, attributes);
    assert_eq!(arena.get(ids[1]).unwrap().children, vec![ids[2], ids[3]]);
    assert_eq!(arena.get(ids[4]).unwrap().attributes, NodeAttributes::default());
    assert_eq!(arena.traverse(), ids);
    assert_eq!(arena.draw_order(), vec![ids[0], ids[2], ids[3], ids[4], ids[5], ids[1]]);
}

struct Label {
    text: String,
    count: u8,
}

impl Props for Label {
    fn encode(&self) -> Vec<u8> {
        let mut bytes = vec![self.count];
        bytes.extend_from_slice(self.text.as_bytes());
        bytes
    }
}

#[test]
fn props_are_compared_by_their_encoding() {
    let mut arena = root_with(NodeAttributes::default());
    let root = arena.root_id();
    let label = |text: &str, count: u8| {
        Descriptor::new(
            Identity::at(1),
            &Label { text: String::from(text), count },
            NodeAttributes::default(),
        )
    };
    assert_eq!(label("ab", 7).props, vec![7, b'a', b'b']);
    let first = reconcile(&mut arena, root, vec![label("ab", 7)]);
    let same = reconcile(&mut arena, root, vec![label("ab", 7)]);
    assert_eq!(same.fates, vec![Fate::Reused]);
    assert_eq!(same.children, first.children);
    let other = reconcile(&mut arena, root, vec![label("ab", 8)]);
    assert_eq!(other.fates, vec![Fate::Rebuilt]);
    assert_eq!(other.children, first.children);
    assert_eq!(arena.get(first.children[0]).unwrap().props, vec![8, b'a', b'b']);
}
