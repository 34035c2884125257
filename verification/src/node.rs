//! What the tree holds of one component instance, and the handles that name it.

use crate::layout::{Flow, Measure, Placement, WHOLE};
use crate::rect::{Inset, LogicalRect};
use vstd::prelude::*;

verus! {

#[verifier::external_type_specification]
#[verifier::external_body]
pub struct ExDefaultKey(slotmap::DefaultKey);

/// A handle to a node of an [`Arena`](crate::arena::Arena).
///
/// A handle stays the same for as long as its node lives, whatever is inserted or removed
/// beside it.
#[derive(Clone, Copy, Debug, PartialEq, Eq, Hash)]
pub struct NodeId {
    pub(crate) key: slotmap::DefaultKey,
}

impl NodeId {
    /// Compares two handles with `slotmap::DefaultKey`'s `==`, which holds exactly of handles
    /// that are the same value.
    #[verifier::external_body]
    pub(crate) fn same(self, other: NodeId) -> (b: bool)
        ensures
            b == (self == other),
    {
        self.key == other.key
    }

    /// Whether `slot` holds this handle.
    pub fn is_in(self, slot: Option<NodeId>) -> (b: bool)
        ensures
            b == (slot == Some(self)),
    {
        match slot {
            Some(other) => self.same(other),
            None => false,
        }
    }
}

/// What tells one child of a composition from another: the place in the source where the child
/// is declared, and a key for children that share such a place.
#[derive(Clone, Copy, Debug, PartialEq, Eq, Hash, Structural)]
pub struct Identity {
    pub key: Option<u64>,
    pub site: u64,
}

impl Identity {
    /// The identity of the only child declared at `site`.
    pub fn at(site: u64) -> (r: Self)
        ensures
            r == (Identity { key: None, site }),
    {
        Identity { key: None, site }
    }

    /// The identity of the child declared at `site` under `key`.
    pub fn keyed(site: u64, key: u64) -> (r: Self)
        ensures
            r == (Identity { key: Some(key), site }),
    {
        Identity { key: Some(key), site }
    }

    /// Whether two identities are the same: the same site and the same key, or both without.
    pub fn matches(self, other: Identity) -> (b: bool)
        ensures
            b == (self == other),
    {
        self == other
    }
}

/// Types that are used when initializing a node.
///
/// Two values of such a type are the same exactly if they encode to the same bytes: that is how
/// a node is found unchanged when its parent is composed again.
pub trait Props {
    fn encode(&self) -> Vec<u8>;
}

impl Props for () {
    fn encode(&self) -> (bytes: Vec<u8>)
        ensures
            bytes@.len() == 0,
    {
        Vec::new()
    }
}

/// Describes various properties for a node.
#[derive(Clone, Copy, Debug, PartialEq, Eq)]
pub struct NodeAttributes {
    pub clipped: bool,
    pub focusable: bool,
    pub flow: Flow,
    pub placement: Placement,
    pub offset: (i32, i32),
    pub measure: Measure,
    pub margin: Inset,
    pub padding: Inset,
    /// Nodes of a higher layer are drawn later, over the nodes of the layers below.
    pub layer: i32,
}

impl Default for NodeAttributes {
    fn default() -> (r: Self)
        ensures
            !r.clipped,
            !r.focusable,
            r.flow == Flow::Vertical,
            r.placement == Placement::Overflow,
            r.offset == (0i32, 0i32),
            r.measure == Measure::Percent(WHOLE),
            r.margin == Inset::all_spec(0),
            r.padding == Inset::all_spec(0),
            r.layer == 0,
    {
        NodeAttributes {
            clipped: false,
            focusable: false,
            flow: Flow::Vertical,
            placement: Placement::Overflow,
            offset: (0, 0),
            measure: Measure::Percent(WHOLE),
            margin: Inset::all(0),
            padding: Inset::all(0),
            layer: 0,
        }
    }
}

/// A child that a composition asks for, before it is known whether a node stands for it yet.
pub struct Descriptor {
    pub identity: Identity,
    pub props: Vec<u8>,
    pub attributes: NodeAttributes,
}

impl Descriptor {
    /// Describes the child with the given identity and properties; the properties are held as
    /// their encoding.
    pub fn new<P: Props>(identity: Identity, props: &P, attributes: NodeAttributes) -> (d: Self)
        ensures
            d.identity == identity,
            d.attributes == attributes,
            call_ensures(P::encode, (props,), d.props),
    {
        Descriptor { identity, props: props.encode(), attributes }
    }

    /// Describes a child by the encoding of its properties.
    pub fn from_parts(identity: Identity, props: Vec<u8>, attributes: NodeAttributes) -> (d: Self)
        ensures
            d.identity == identity,
            d.props == props,
            d.attributes == attributes,
    {
        Descriptor { identity, props, attributes }
    }
}

/// A node as the tree holds it.
pub struct ArenaNode {
    pub identity: Identity,
    pub props: Vec<u8>,
    pub attributes: NodeAttributes,
    pub rect: LogicalRect,
    pub children: Vec<NodeId>,
}

/// The value of an [`ArenaNode`].
pub struct NodeView {
    pub identity: Identity,
    pub props: Seq<u8>,
    pub attributes: NodeAttributes,
    pub rect: LogicalRect,
    pub children: Seq<NodeId>,
}

impl View for ArenaNode {
    type V = NodeView;

    open spec fn view(&self) -> NodeView {
        NodeView {
            identity: self.identity,
            props: self.props@,
            attributes: self.attributes,
            rect: self.rect,
            children: self.children@,
        }
    }
}

/// The node that is built for a descriptor: without children, and without a region until the
/// next layout.
pub open spec fn fresh_view(identity: Identity, props: Seq<u8>, attributes: NodeAttributes)
    -> NodeView {
    NodeView {
        identity,
        props,
        attributes,
        rect: LogicalRect { x: 0, y: 0, width: 0, height: 0 },
        children: Seq::empty(),
    }
}

impl ArenaNode {
    /// Builds the node that `descriptor` describes.
    pub fn build(descriptor: Descriptor) -> (node: Self)
        ensures
            node@ == fresh_view(descriptor.identity, descriptor.props@, descriptor.attributes),
    {
        ArenaNode {
            identity: descriptor.identity,
            props: descriptor.props,
            attributes: descriptor.attributes,
            rect: LogicalRect::zeroed(),
            children: Vec::new(),
        }
    }

    /// The region that the last layout gave this node.
    pub fn area(&self) -> (r: LogicalRect)
        ensures
            r == self.rect,
    {
        self.rect
    }

    pub fn attributes(&self) -> (a: &NodeAttributes)
        ensures
            *a == self.attributes,
    {
        &self.attributes
    }

    /// Whether `descriptor` describes this node with the properties that it has.
    pub fn has_props(&self, props: &Vec<u8>) -> (b: bool)
        ensures
            b == (self.props@ == props@),
    {
        bytes_equal(&self.props, props)
    }
}

/// Whether two encodings hold the same bytes.
pub fn bytes_equal(a: &Vec<u8>, b: &Vec<u8>) -> (same: bool)
    ensures
        same == (a@ == b@),
{
    if a.len() != b.len() {
        return false;
    }
    let mut i: usize = 0;
    while i < a.len()
        invariant
            a.len() == b.len(),
            i <= a.len(),
            forall|j: int| 0 <= j < i ==> a[j] == b[j],
        decreases a.len() - i,
    {
        if a[i] != b[i] {
            return false;
        }
        i = i + 1;
    }
    assert(a@ =~= b@);
    true
}

} // verus!
