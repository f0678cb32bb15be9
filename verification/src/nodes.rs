//! Node kinds, node groups and the nodes that the compiler places.
use crate::assoc::Key;
use crate::text::str_eq;
use crate::value::{Value, ValueModel};
use crate::NODE_MARGIN;
use vstd::prelude::*;

verus! {

/// Names a socket of a node: by its position, or by its name.
#[derive(Debug, Clone, Copy)]
pub enum NodeSocketId {
    Position(u32),
    Name(&'static str),
}

/// Mathematical content of a [`NodeSocketId`].
pub enum SocketModel {
    Position(u32),
    Name(Seq<char>),
}

impl View for NodeSocketId {
    type V = SocketModel;

    open spec fn view(&self) -> SocketModel {
        match self {
            NodeSocketId::Position(p) => SocketModel::Position(*p),
            NodeSocketId::Name(n) => SocketModel::Name(n@),
        }
    }
}

impl DeepView for NodeSocketId {
    type V = SocketModel;

    open spec fn deep_view(&self) -> SocketModel {
        self@
    }
}

impl Key for NodeSocketId {
    fn same(&self, other: &Self) -> (r: bool) {
        match (self, other) {
            (NodeSocketId::Position(a), NodeSocketId::Position(b)) => *a == *b,
            (NodeSocketId::Name(a), NodeSocketId::Name(b)) => str_eq(*a, *b),
            _ => false,
        }
    }
}

/// A primitive node kind: its size and what it offers.
#[derive(Debug)]
pub struct NodeType {
    pub blender_id: &'static str,
    pub size: [u32; 2],
    pub input_sockets: &'static [NodeSocketId],
    pub output_sockets: &'static [NodeSocketId],
    pub properties: &'static [&'static str],
}

/// Mathematical content of a [`NodeType`].
pub struct NodeTypeModel {
    pub blender_id: Seq<char>,
    pub size: (int, int),
    pub input_sockets: Seq<SocketModel>,
    pub output_sockets: Seq<SocketModel>,
    pub properties: Seq<Seq<char>>,
}

impl View for NodeType {
    type V = NodeTypeModel;

    open spec fn view(&self) -> NodeTypeModel {
        NodeTypeModel {
            blender_id: self.blender_id@,
            size: (self.size[0] as int, self.size[1] as int),
            input_sockets: self.input_sockets.deep_view(),
            output_sockets: self.output_sockets.deep_view(),
            properties: self.properties.deep_view(),
        }
    }
}

impl DeepView for NodeType {
    type V = NodeTypeModel;

    open spec fn deep_view(&self) -> NodeTypeModel {
        self@
    }
}

/// Names a socket of a node of a group: the node's id and the socket.
#[derive(Debug, Clone, Copy)]
pub struct NodeSocketRef {
    pub target: &'static str,
    pub socket: NodeSocketId,
}

/// Mathematical content of a [`NodeSocketRef`].
pub struct SocketRefModel {
    pub target: Seq<char>,
    pub socket: SocketModel,
}

impl View for NodeSocketRef {
    type V = SocketRefModel;

    open spec fn view(&self) -> SocketRefModel {
        SocketRefModel { target: self.target@, socket: self.socket@ }
    }
}

impl DeepView for NodeSocketRef {
    type V = SocketRefModel;

    open spec fn deep_view(&self) -> SocketRefModel {
        self@
    }
}

impl Key for NodeSocketRef {
    fn same(&self, other: &Self) -> (r: bool) {
        str_eq(self.target, other.target) && self.socket.same(&other.socket)
    }
}

impl NodeSocketRef {
    /// The name of the socket `socket` of the node `target`.
    pub fn new(target: &'static str, socket: NodeSocketId) -> (r: Self)
        ensures
            r.target == target,
            r.socket == socket,
    {
        Self { target, socket }
    }

    /// Whether the reference points into the node `target`.
    pub fn depends_on(&self, target: &str) -> (r: bool)
        ensures
            r == (self.target@ == target@),
    {
        str_eq(self.target, target)
    }
}

/// Names something by two names: an input and one of its sockets, or a node
/// of a group and one of its properties.
#[derive(Debug, Clone, Copy)]
pub struct Ref {
    pub target: &'static str,
    pub name: &'static str,
}

/// Mathematical content of a [`Ref`].
pub struct RefModel {
    pub target: Seq<char>,
    pub name: Seq<char>,
}

impl View for Ref {
    type V = RefModel;

    open spec fn view(&self) -> RefModel {
        RefModel { target: self.target@, name: self.name@ }
    }
}

impl DeepView for Ref {
    type V = RefModel;

    open spec fn deep_view(&self) -> RefModel {
        self@
    }
}

impl Ref {
    /// The name of `name` within `target`.
    pub fn new(target: &'static str, name: &'static str) -> (r: Self)
        ensures
            r.target == target,
            r.name == name,
    {
        Self { target, name }
    }

    /// Whether the reference points at `target`.
    pub fn depends_on(&self, target: &str) -> (r: bool)
        ensures
            r == (self.target@ == target@),
    {
        str_eq(self.target, target)
    }
}

/// One node of a group: its kind, its id within the group, and what is fixed
/// about it.
#[derive(Debug)]
pub struct Node {
    pub kind: &'static NodeType,
    pub id: &'static str,
    pub properties: &'static [(&'static str, Value)],
    pub values: &'static [(NodeSocketId, Value)],
    pub links: &'static [(NodeSocketId, NodeSocketRef)],
}

/// Mathematical content of a [`Node`].
pub struct NodeModel {
    pub kind: NodeTypeModel,
    pub id: Seq<char>,
    pub properties: Seq<(Seq<char>, ValueModel)>,
    pub values: Seq<(SocketModel, ValueModel)>,
    pub links: Seq<(SocketModel, SocketRefModel)>,
}

impl View for Node {
    type V = NodeModel;

    open spec fn view(&self) -> NodeModel {
        NodeModel {
            kind: self.kind@,
            id: self.id@,
            properties: self.properties.deep_view(),
            values: self.values.deep_view(),
            links: self.links.deep_view(),
        }
    }
}

impl DeepView for Node {
    type V = NodeModel;

    open spec fn deep_view(&self) -> NodeModel {
        self@
    }
}

/// A fixed small graph of nodes with a reduced interface.
///
/// `id` is the group's handle: links and properties are addressed to a group
/// by it.
#[derive(Debug)]
pub struct NodeGroup {
    pub id: u32,
    pub nodes: &'static [Node],
    pub properties: &'static [(&'static str, Ref)],
    pub inputs: &'static [(&'static str, NodeSocketRef)],
    pub outputs: &'static [(&'static str, NodeSocketRef)],
}

/// Mathematical content of a [`NodeGroup`].
pub struct GroupModel {
    pub id: u32,
    pub nodes: Seq<NodeModel>,
    pub properties: Seq<(Seq<char>, RefModel)>,
    pub inputs: Seq<(Seq<char>, SocketRefModel)>,
    pub outputs: Seq<(Seq<char>, SocketRefModel)>,
}

impl View for NodeGroup {
    type V = GroupModel;

    open spec fn view(&self) -> GroupModel {
        GroupModel {
            id: self.id,
            nodes: self.nodes.deep_view(),
            properties: self.properties.deep_view(),
            inputs: self.inputs.deep_view(),
            outputs: self.outputs.deep_view(),
        }
    }
}

impl DeepView for NodeGroup {
    type V = GroupModel;

    open spec fn deep_view(&self) -> GroupModel {
        self@
    }
}

/// Names an input or a property of a group within a pipeline.
#[derive(Debug, Clone, Copy)]
pub struct NodeGroupRef {
    pub target: &'static NodeGroup,
    pub name: &'static str,
}

/// Mathematical content of a [`NodeGroupRef`]: the group's handle and the name.
pub struct GroupRefModel {
    pub group: u32,
    pub name: Seq<char>,
}

impl View for NodeGroupRef {
    type V = GroupRefModel;

    open spec fn view(&self) -> GroupRefModel {
        GroupRefModel { group: self.target.id, name: self.name@ }
    }
}

impl DeepView for NodeGroupRef {
    type V = GroupRefModel;

    open spec fn deep_view(&self) -> GroupRefModel {
        self@
    }
}

impl Key for NodeGroupRef {
    fn same(&self, other: &Self) -> (r: bool) {
        self.target.id == other.target.id && str_eq(self.name, other.name)
    }
}

impl NodeGroupRef {
    /// The name of the input or property `name` of the group `target`.
    pub fn new(target: &'static NodeGroup, name: &'static str) -> (r: Self)
        ensures
            r.target == target,
            r.name == name,
    {
        Self { target, name }
    }

    /// Whether the reference is addressed to the group `target`.
    pub fn depends_on(&self, target: &NodeGroup) -> (r: bool)
        ensures
            r == (self@.group == target.id),
    {
        self.target.id == target.id
    }
}

/// Names a socket of a placed node: the node's index in the node list and the
/// socket.
#[derive(Debug, Clone, Copy)]
pub struct BuiltNodeSocketRef {
    pub node_index: usize,
    pub socket: NodeSocketId,
}

/// Mathematical content of a [`BuiltNodeSocketRef`].
pub struct BuiltRefModel {
    pub node_index: int,
    pub socket: SocketModel,
}

impl View for BuiltNodeSocketRef {
    type V = BuiltRefModel;

    open spec fn view(&self) -> BuiltRefModel {
        BuiltRefModel { node_index: self.node_index as int, socket: self.socket@ }
    }
}

impl DeepView for BuiltNodeSocketRef {
    type V = BuiltRefModel;

    open spec fn deep_view(&self) -> BuiltRefModel {
        self@
    }
}

/// What feeds a socket of a placed node: a socket of another placed node, or a
/// literal.
#[derive(Debug)]
pub enum BuiltNodeSocketLink {
    Link(BuiltNodeSocketRef),
    Value(Value),
}

/// Mathematical content of a [`BuiltNodeSocketLink`].
pub enum BuiltLinkModel {
    Link(BuiltRefModel),
    Value(ValueModel),
}

impl View for BuiltNodeSocketLink {
    type V = BuiltLinkModel;

    open spec fn view(&self) -> BuiltLinkModel {
        match self {
            BuiltNodeSocketLink::Link(r) => BuiltLinkModel::Link(r@),
            BuiltNodeSocketLink::Value(v) => BuiltLinkModel::Value(v@),
        }
    }
}

impl DeepView for BuiltNodeSocketLink {
    type V = BuiltLinkModel;

    open spec fn deep_view(&self) -> BuiltLinkModel {
        self@
    }
}

impl Clone for BuiltNodeSocketLink {
    fn clone(&self) -> (r: Self)
        ensures
            r@ == self@,
    {
        match self {
            BuiltNodeSocketLink::Link(r) => BuiltNodeSocketLink::Link(*r),
            BuiltNodeSocketLink::Value(v) => BuiltNodeSocketLink::Value(v.clone()),
        }
    }
}

/// A placed node: its kind, its position, and what its properties and sockets
/// hold.
#[derive(Debug)]
pub struct BuiltNode {
    pub kind: &'static NodeType,
    pub position: [i64; 2],
    pub properties: Vec<(&'static str, Value)>,
    pub socket_values: Vec<(NodeSocketId, Value)>,
    pub socket_links: Vec<(NodeSocketId, BuiltNodeSocketRef)>,
}

/// Mathematical content of a [`BuiltNode`].
pub struct BuiltNodeModel {
    pub kind: NodeTypeModel,
    pub position: (int, int),
    pub properties: Seq<(Seq<char>, ValueModel)>,
    pub socket_values: Seq<(SocketModel, ValueModel)>,
    pub socket_links: Seq<(SocketModel, BuiltRefModel)>,
}

impl View for BuiltNode {
    type V = BuiltNodeModel;

    open spec fn view(&self) -> BuiltNodeModel {
        BuiltNodeModel {
            kind: self.kind@,
            position: (self.position[0] as int, self.position[1] as int),
            properties: self.properties.deep_view(),
            socket_values: self.socket_values.deep_view(),
            socket_links: self.socket_links.deep_view(),
        }
    }
}

impl DeepView for BuiltNode {
    type V = BuiltNodeModel;

    open spec fn deep_view(&self) -> BuiltNodeModel {
        self@
    }
}

impl BuiltNodeModel {
    /// Left edge of the column after this node.
    pub open spec fn next_column(self) -> int {
        self.position.0 + self.kind.size.0 + NODE_MARGIN
    }

    /// Upper edge of the row after this node.
    pub open spec fn next_row(self) -> int {
        self.position.1 + self.kind.size.1 + NODE_MARGIN
    }

    /// Right edge of the node.
    pub open spec fn right(self) -> int {
        self.position.0 + self.kind.size.0
    }

    /// Lower edge of the node.
    pub open spec fn bottom(self) -> int {
        self.position.1 + self.kind.size.1
    }

    /// The node moved by `offset` to the right.
    pub open spec fn moved_x(self, offset: int) -> BuiltNodeModel {
        BuiltNodeModel { position: (self.position.0 + offset, self.position.1), ..self }
    }

    /// The node mirrored at the horizontal axis.
    pub open spec fn mirrored_y(self) -> BuiltNodeModel {
        BuiltNodeModel { position: (self.position.0, -self.position.1), ..self }
    }
}

impl NodeType {
    /// A kind of no size that offers nothing.
    pub fn default() -> (r: Self)
        ensures
            r.blender_id@.len() == 0,
            r@.size == (0int, 0int),
            r@.input_sockets.len() == 0,
            r@.output_sockets.len() == 0,
            r@.properties.len() == 0,
    {
        proof {
            reveal_strlit("");
        }
        Self {
            blender_id: "",
            size: [0, 0],
            input_sockets: &[],
            output_sockets: &[],
            properties: &[],
        }
    }

    /// A node of this kind at `position`.
    pub fn build(
        &'static self,
        properties: Vec<(&'static str, Value)>,
        socket_values: Vec<(NodeSocketId, Value)>,
        socket_links: Vec<(NodeSocketId, BuiltNodeSocketRef)>,
        position: [i64; 2],
    ) -> (r: BuiltNode)
        ensures
            r.kind == self,
            r.position == position,
            r.properties == properties,
            r.socket_values == socket_values,
            r.socket_links == socket_links,
    {
        BuiltNode { kind: self, position, properties, socket_values, socket_links }
    }
}

impl Node {
    /// A node of the empty kind with no id, on which nothing is fixed.
    pub fn default() -> (r: Self)
        ensures
            r@.kind.blender_id.len() == 0,
            r@.kind.size == (0int, 0int),
            r@.kind.input_sockets.len() == 0,
            r@.kind.output_sockets.len() == 0,
            r@.kind.properties.len() == 0,
            r.id@.len() == 0,
            r@.properties.len() == 0,
            r@.values.len() == 0,
            r@.links.len() == 0,
    {
        proof {
            reveal_strlit("");
        }
        let kind: &'static NodeType = &NodeType {
            blender_id: "",
            size: [0, 0],
            input_sockets: &[],
            output_sockets: &[],
            properties: &[],
        };
        Self { kind, id: "", properties: &[], values: &[], links: &[] }
    }
}

impl BuiltNodeSocketRef {
    /// The index of the node in the node list.
    pub fn node_index(&self) -> (r: usize)
        ensures
            r == self.node_index,
    {
        self.node_index
    }

    /// The socket of the node.
    pub fn socket(&self) -> (r: NodeSocketId)
        ensures
            r == self.socket,
    {
        self.socket
    }
}

impl BuiltNode {
    /// Takes the properties out of the node and leaves it with none.
    pub fn properties(&mut self) -> (r: Vec<(&'static str, Value)>)
        ensures
            r == old(self).properties,
            final(self)@ == (BuiltNodeModel { properties: Seq::empty(), ..old(self)@ }),
    {
        let mut taken: Vec<(&'static str, Value)> = Vec::new();
        assert(taken.deep_view() =~= Seq::empty());
        std::mem::swap(&mut taken, &mut self.properties);
        taken
    }

    /// Takes the socket values out of the node and leaves it with none.
    pub fn socket_values(&mut self) -> (r: Vec<(NodeSocketId, Value)>)
        ensures
            r == old(self).socket_values,
            final(self)@ == (BuiltNodeModel { socket_values: Seq::empty(), ..old(self)@ }),
    {
        let mut taken: Vec<(NodeSocketId, Value)> = Vec::new();
        assert(taken.deep_view() =~= Seq::empty());
        std::mem::swap(&mut taken, &mut self.socket_values);
        taken
    }

    /// Takes the socket links out of the node and leaves it with none.
    pub fn socket_links(&mut self) -> (r: Vec<(NodeSocketId, BuiltNodeSocketRef)>)
        ensures
            r == old(self).socket_links,
            final(self)@ == (BuiltNodeModel { socket_links: Seq::empty(), ..old(self)@ }),
    {
        let mut taken: Vec<(NodeSocketId, BuiltNodeSocketRef)> = Vec::new();
        assert(taken.deep_view() =~= Seq::empty());
        std::mem::swap(&mut taken, &mut self.socket_links);
        taken
    }

    /// The left edge of the column after this node.
    pub fn next_column(&self) -> (r: i64)
        requires
            self@.next_column() <= i64::MAX,
        ensures
            r == self@.next_column(),
    {
        self.position[0] + self.kind.size[0] as i64 + NODE_MARGIN
    }

    /// The upper edge of the row after this node.
    pub fn next_row(&self) -> (r: i64)
        requires
            self@.next_row() <= i64::MAX,
        ensures
            r == self@.next_row(),
    {
        self.position[1] + self.kind.size[1] as i64 + NODE_MARGIN
    }

    /// The left edge of the column after this node, where it is within the
    /// range of coordinates.
    pub fn checked_next_column(&self) -> (r: Option<i64>)
        ensures
            r is Some <==> self@.next_column() <= i64::MAX,
            r is Some ==> r.unwrap() == self@.next_column(),
    {
        if self.position[0] <= i64::MAX - NODE_MARGIN - self.kind.size[0] as i64 {
            Some(self.position[0] + self.kind.size[0] as i64 + NODE_MARGIN)
        } else {
            None
        }
    }

    /// The upper edge of the row after this node, where it is within the range
    /// of coordinates.
    pub fn checked_next_row(&self) -> (r: Option<i64>)
        ensures
            r is Some <==> self@.next_row() <= i64::MAX,
            r is Some ==> r.unwrap() == self@.next_row(),
    {
        if self.position[1] <= i64::MAX - NODE_MARGIN - self.kind.size[1] as i64 {
            Some(self.position[1] + self.kind.size[1] as i64 + NODE_MARGIN)
        } else {
            None
        }
    }

    /// Left and right edge of the node.
    pub fn x_bounds(&self) -> (r: [i64; 2])
        requires
            self@.position.0 + self@.kind.size.0 <= i64::MAX,
        ensures
            r[0] == self@.position.0,
            r[1] == self@.position.0 + self@.kind.size.0,
    {
        [self.position[0], self.position[0] + self.kind.size[0] as i64]
    }

    /// Moves the node by `offset` to the right.
    pub fn offset_x(&mut self, offset: i64)
        requires
            i64::MIN <= old(self)@.position.0 + offset <= i64::MAX,
        ensures
            final(self)@ == old(self)@.moved_x(offset as int),
    {
        self.position = [self.position[0] + offset, self.position[1]];
    }

    /// Mirrors the node at the horizontal axis.
    pub fn invert_y(&mut self)
        requires
            old(self)@.position.1 > i64::MIN,
        ensures
            final(self)@ == old(self)@.mirrored_y(),
    {
        self.position = [self.position[0], -self.position[1]];
    }

    /// The name of the node's kind in the shading engine.
    pub fn blender_id(&self) -> (r: &'static str)
        ensures
            r@ == self@.kind.blender_id,
    {
        self.kind.blender_id
    }

    /// Where the node lies.
    pub fn position(&self) -> (r: [i64; 2])
        ensures
            r == self.position,
    {
        self.position
    }
}

} // verus!
