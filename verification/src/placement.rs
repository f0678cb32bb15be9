//! Placing one node of a group.
//!
//! A node stands at or to the right of the column after every node it reads
//! from. Where it would share a column with the node placed just before it, it
//! goes below that node instead.
use crate::assoc::{assoc_extend, assoc_get, assoc_put, find, put, Key};
use crate::nodes::{
    BuiltLinkModel, BuiltNode, BuiltNodeModel, BuiltNodeSocketLink, BuiltNodeSocketRef,
    BuiltRefModel, Node, NodeModel, NodeSocketId, NodeSocketRef, SocketModel, SocketRefModel,
};
use crate::value::{Value, ValueModel};
use vstd::prelude::*;

verus! {

/// What the placement of one node depends on.
pub struct Placement {
    /// The node to place.
    pub node: NodeModel,
    /// The nodes placed so far.
    pub nodes: Seq<BuiltNodeModel>,
    /// The output sockets of the group's nodes placed so far.
    pub outputs: Seq<(SocketRefModel, BuiltRefModel)>,
    /// What feeds the node's sockets from outside its group.
    pub outside_links: Seq<(SocketModel, BuiltLinkModel)>,
    /// The node's properties set from outside its group.
    pub outside_properties: Seq<(Seq<char>, ValueModel)>,
    /// Where the group begins.
    pub base: (int, int),
    /// Whether the node has to make way for the node placed just before it.
    pub check_previous: bool,
}

/// The greater of two numbers.
pub open spec fn max_int(a: int, b: int) -> int {
    if a >= b {
        a
    } else {
        b
    }
}

impl Placement {
    /// The placed socket that the node's `i`-th fixed link reads from.
    pub open spec fn source(self, i: int) -> Option<BuiltRefModel> {
        assoc_get(self.outputs, self.node.links[i].1)
    }

    /// Whether the node's `i`-th fixed link reads from a placed node, and the
    /// column after that node is within the range of coordinates.
    pub open spec fn link_resolved(self, i: int) -> bool {
        match self.source(i) {
            Some(r) => 0 <= r.node_index < self.nodes.len()
                && self.nodes[r.node_index].next_column() <= i64::MAX,
            None => false,
        }
    }

    /// Whether every fixed link of the node reads from a placed node, with the
    /// column after it within the range of coordinates.
    pub open spec fn links_resolved(self) -> bool {
        forall|i: int| 0 <= i < self.node.links.len() ==> #[trigger] self.link_resolved(i)
    }

    /// Whether the node has to make way for the node placed just before it.
    pub open spec fn has_previous(self) -> bool {
        self.check_previous && self.nodes.len() > 0
    }

    /// Whether the node goes below the node placed just before it.
    pub open spec fn goes_below(self) -> bool {
        let x = self.column(self.node.links.len() as int);
        let previous = self.nodes.last();
        self.has_previous() && (previous.position.0 >= x || x < previous.right())
    }

    /// Whether what is read of the node placed just before is within the range
    /// of coordinates: its right edge, and the row after it where the node goes
    /// below it.
    pub open spec fn previous_fits(self) -> bool {
        &&& self.has_previous() ==> self.nodes.last().right() <= i64::MAX
        &&& self.goes_below() ==> self.nodes.last().next_row() <= i64::MAX
    }

    /// The leftmost column that is right of the sources of the first `n` fixed
    /// links, and not left of the base.
    pub open spec fn column(self, n: int) -> int
        decreases n,
    {
        if n <= 0 {
            self.base.0
        } else {
            max_int(
                self.column(n - 1),
                self.nodes[self.source(n - 1).unwrap().node_index].next_column(),
            )
        }
    }

    /// Where the node goes: into its column at the height of the base; or,
    /// where it would share a column with the node placed just before, below
    /// that node, and in its column where that is not left of the node's own.
    pub open spec fn position(self) -> (int, int) {
        let x = self.column(self.node.links.len() as int);
        let previous = self.nodes.last();
        if self.goes_below() {
            if previous.position.0 >= x {
                (previous.position.0, previous.next_row())
            } else {
                (x, previous.next_row())
            }
        } else {
            (x, self.base.1)
        }
    }

    /// The node's socket links after its first `n` fixed links.
    pub open spec fn fixed_links(self, n: int) -> Seq<(SocketModel, BuiltRefModel)>
        decreases n,
    {
        if n <= 0 {
            Seq::empty()
        } else {
            assoc_put(
                self.fixed_links(n - 1),
                self.node.links[n - 1].0,
                self.source(n - 1).unwrap(),
            )
        }
    }

    /// The node's socket links after its fixed links and the first `n` entries
    /// from outside.
    pub open spec fn socket_links(self, n: int) -> Seq<(SocketModel, BuiltRefModel)>
        decreases n,
    {
        if n <= 0 {
            self.fixed_links(self.node.links.len() as int)
        } else {
            let acc = self.socket_links(n - 1);
            match self.outside_links[n - 1].1 {
                BuiltLinkModel::Link(r) => assoc_put(acc, self.outside_links[n - 1].0, r),
                BuiltLinkModel::Value(_) => acc,
            }
        }
    }

    /// The node's socket values after its fixed values and the first `n`
    /// entries from outside.
    pub open spec fn socket_values(self, n: int) -> Seq<(SocketModel, ValueModel)>
        decreases n,
    {
        if n <= 0 {
            assoc_extend(Seq::empty(), self.node.values, self.node.values.len() as int)
        } else {
            let acc = self.socket_values(n - 1);
            match self.outside_links[n - 1].1 {
                BuiltLinkModel::Link(_) => acc,
                BuiltLinkModel::Value(v) => assoc_put(acc, self.outside_links[n - 1].0, v),
            }
        }
    }

    /// The node's properties: the fixed ones, then those from outside.
    pub open spec fn properties(self) -> Seq<(Seq<char>, ValueModel)> {
        assoc_extend(
            assoc_extend(Seq::empty(), self.node.properties, self.node.properties.len() as int),
            self.outside_properties,
            self.outside_properties.len() as int,
        )
    }

    /// The placed node.
    pub open spec fn built(self) -> BuiltNodeModel {
        BuiltNodeModel {
            kind: self.node.kind,
            position: self.position(),
            properties: self.properties(),
            socket_values: self.socket_values(self.outside_links.len() as int),
            socket_links: self.socket_links(self.outside_links.len() as int),
        }
    }

    /// The group's output sockets after the first `n` output sockets of the
    /// node are added.
    pub open spec fn registered(self, n: int) -> Seq<(SocketRefModel, BuiltRefModel)>
        decreases n,
    {
        if n <= 0 {
            self.outputs
        } else {
            let socket = self.node.kind.output_sockets[n - 1];
            assoc_put(
                self.registered(n - 1),
                SocketRefModel { target: self.node.id, socket },
                BuiltRefModel { node_index: self.nodes.len() as int, socket },
            )
        }
    }

    /// The group's output sockets after the node is placed.
    pub open spec fn outputs_after(self) -> Seq<(SocketRefModel, BuiltRefModel)> {
        self.registered(self.node.kind.output_sockets.len() as int)
    }

    /// The corner of the placed node that is farthest from the origin.
    pub open spec fn far_corner(self) -> (int, int) {
        let p = self.position();
        (p.0 + self.node.kind.size.0, p.1 + self.node.kind.size.1)
    }

    /// Whether the node can be placed: its fixed links read from placed nodes,
    /// and everything that is computed to place it is within the range of
    /// coordinates.
    pub open spec fn ready(self) -> bool {
        &&& self.links_resolved()
        &&& self.previous_fits()
        &&& self.far_corner().0 <= i64::MAX
        &&& self.far_corner().1 <= i64::MAX
    }
}

/// Stores every entry of `items` in `acc`, in turn.
pub fn extend_values<K: Key + Copy>(acc: &mut Vec<(K, Value)>, items: &[(K, Value)])
    ensures
        final(acc).deep_view() == assoc_extend(
            old(acc).deep_view(),
            items.deep_view(),
            items@.len() as int,
        ),
{
    let mut i: usize = 0;
    while i < items.len()
        invariant
            i <= items@.len(),
            acc.deep_view() == assoc_extend(old(acc).deep_view(), items.deep_view(), i as int),
        decreases items@.len() - i,
    {
        let key = items[i].0;
        let value = items[i].1.clone();
        put(acc, key, value);
        i += 1;
    }
}

impl Node {
    /// The placement of this node in the given surroundings.
    pub open spec fn placement(
        &self,
        nodes: Seq<BuiltNodeModel>,
        outputs: Seq<(SocketRefModel, BuiltRefModel)>,
        outside_links: Seq<(SocketModel, BuiltLinkModel)>,
        outside_properties: Seq<(Seq<char>, ValueModel)>,
        base_position: [i64; 2],
        check_previous: bool,
    ) -> Placement {
        Placement {
            node: self@,
            nodes,
            outputs,
            outside_links,
            outside_properties,
            base: (base_position[0] as int, base_position[1] as int),
            check_previous,
        }
    }

    /// Resolves the fixed links and finds the node's column; `None` where a
    /// link reads from no placed node.
    fn resolve_links(
        &self,
        nodes: &Vec<BuiltNode>,
        outputs: &Vec<(NodeSocketRef, BuiltNodeSocketRef)>,
        base_x: i64,
        Ghost(p): Ghost<Placement>,
    ) -> (r: Option<(i64, Vec<(NodeSocketId, BuiltNodeSocketRef)>)>)
        requires
            p.node == self@,
            p.nodes == nodes.deep_view(),
            p.outputs == outputs.deep_view(),
            p.base.0 == base_x,
        ensures
            r is Some <==> p.links_resolved(),
            match r {
                Some(found) => found.0 == p.column(self@.links.len() as int)
                    && found.1.deep_view() == p.fixed_links(self@.links.len() as int),
                None => true,
            },
    {
        let mut x = base_x;
        let mut links: Vec<(NodeSocketId, BuiltNodeSocketRef)> = Vec::new();
        assert(links.deep_view() =~= p.fixed_links(0));
        let mut i: usize = 0;
        while i < self.links.len()
            invariant
                i <= self.links@.len(),
                self.links@.len() == self@.links.len(),
                p.node == self@,
                p.nodes == nodes.deep_view(),
                p.outputs == outputs.deep_view(),
                forall|j: int| 0 <= j < i ==> #[trigger] p.link_resolved(j),
                x == p.column(i as int),
                links.deep_view() == p.fixed_links(i as int),
            decreases self.links@.len() - i,
        {
            let socket = self.links[i].0;
            let source = self.links[i].1;
            assert(source.deep_view() == p.node.links[i as int].1);
            assert(socket.deep_view() == p.node.links[i as int].0);
            let ghost wanted = p.source(i as int);
            let built_ref = match find(outputs, &source) {
                Some(at) => outputs[at].1,
                None => {
                    assert(!p.link_resolved(i as int));
                    return None;
                },
            };
            assert(wanted == Some(built_ref@));
            if built_ref.node_index >= nodes.len() {
                assert(!p.link_resolved(i as int));
                return None;
            }
            let next_column = match nodes[built_ref.node_index].checked_next_column() {
                Some(next) => next,
                None => {
                    assert(!p.link_resolved(i as int));
                    return None;
                },
            };
            assert(p.link_resolved(i as int));
            if next_column > x {
                x = next_column;
            }
            put(&mut links, socket, built_ref);
            i += 1;
        }
        Some((x, links))
    }

    /// Sorts what comes from outside into links and values.
    fn split_outside(
        outside_links: &Vec<(NodeSocketId, BuiltNodeSocketLink)>,
        links: &mut Vec<(NodeSocketId, BuiltNodeSocketRef)>,
        values: &mut Vec<(NodeSocketId, Value)>,
        Ghost(p): Ghost<Placement>,
    )
        requires
            p.outside_links == outside_links.deep_view(),
            old(links).deep_view() == p.socket_links(0),
            old(values).deep_view() == p.socket_values(0),
        ensures
            final(links).deep_view() == p.socket_links(outside_links@.len() as int),
            final(values).deep_view() == p.socket_values(outside_links@.len() as int),
    {
        let mut i: usize = 0;
        while i < outside_links.len()
            invariant
                i <= outside_links@.len(),
                p.outside_links == outside_links.deep_view(),
                links.deep_view() == p.socket_links(i as int),
                values.deep_view() == p.socket_values(i as int),
            decreases outside_links@.len() - i,
        {
            let socket = outside_links[i].0;
            assert(outside_links@[i as int].1.deep_view() == p.outside_links[i as int].1);
            match &outside_links[i].1 {
                BuiltNodeSocketLink::Link(r) => {
                    put(links, socket, *r);
                },
                BuiltNodeSocketLink::Value(v) => {
                    put(values, socket, v.clone());
                },
            }
            i += 1;
        }
    }

    /// Adds the node's output sockets to the group's.
    fn register_outputs(
        &self,
        outputs: &mut Vec<(NodeSocketRef, BuiltNodeSocketRef)>,
        index: usize,
        Ghost(p): Ghost<Placement>,
    )
        requires
            p.node == self@,
            p.outputs == old(outputs).deep_view(),
            p.nodes.len() == index,
        ensures
            final(outputs).deep_view() == p.outputs_after(),
    {
        let sockets = self.kind.output_sockets;
        let mut i: usize = 0;
        while i < sockets.len()
            invariant
                i <= sockets@.len(),
                sockets == self.kind.output_sockets,
                p.node == self@,
                p.nodes.len() == index,
                outputs.deep_view() == p.registered(i as int),
            decreases sockets@.len() - i,
        {
            let socket = sockets[i];
            assert(socket.deep_view() == p.node.kind.output_sockets[i as int]);
            put(
                outputs,
                NodeSocketRef { target: self.id, socket },
                BuiltNodeSocketRef { node_index: index, socket },
            );
            i += 1;
        }
    }

    /// Places the node where it can be placed: appends it to `nodes`, adds its
    /// output sockets to `outputs`, and returns its far corner. Where it cannot
    /// be placed the result is `None`, and nothing is changed.
    pub fn try_build(
        &self,
        nodes: &mut Vec<BuiltNode>,
        outputs: &mut Vec<(NodeSocketRef, BuiltNodeSocketRef)>,
        outside_links: &Vec<(NodeSocketId, BuiltNodeSocketLink)>,
        outside_properties: &Vec<(&'static str, Value)>,
        base_position: [i64; 2],
        check_previous: bool,
    ) -> (r: Option<[i64; 2]>)
        ensures
            r is Some <==> self.placement(
                old(nodes).deep_view(),
                old(outputs).deep_view(),
                outside_links.deep_view(),
                outside_properties.deep_view(),
                base_position,
                check_previous,
            ).ready(),
            match r {
                Some(corner) => {
                    let p = self.placement(
                        old(nodes).deep_view(),
                        old(outputs).deep_view(),
                        outside_links.deep_view(),
                        outside_properties.deep_view(),
                        base_position,
                        check_previous,
                    );
                    &&& final(nodes).deep_view() == p.nodes.push(p.built())
                    &&& final(outputs).deep_view() == p.outputs_after()
                    &&& (corner[0] as int, corner[1] as int) == p.far_corner()
                },
                None => *final(nodes) == *old(nodes) && *final(outputs) == *old(outputs),
            },
    {
        let ghost p = self.placement(
            nodes.deep_view(),
            outputs.deep_view(),
            outside_links.deep_view(),
            outside_properties.deep_view(),
            base_position,
            check_previous,
        );
        let (column, mut links) = match self.resolve_links(
            nodes,
            outputs,
            base_position[0],
            Ghost(p),
        ) {
            Some(found) => found,
            None => {
                return None;
            },
        };
        let mut x = column;
        let mut y = base_position[1];
        if check_previous && nodes.len() > 0 {
            let previous = &nodes[nodes.len() - 1];
            assert(previous@ == p.nodes.last());
            if previous.position[0] > i64::MAX - previous.kind.size[0] as i64 {
                return None;
            }
            let bounds = previous.x_bounds();
            if bounds[0] >= x || x < bounds[1] {
                let below = match previous.checked_next_row() {
                    Some(below) => below,
                    None => {
                        return None;
                    },
                };
                if bounds[0] >= x {
                    x = previous.position[0];
                }
                y = below;
            }
        }
        assert((x as int, y as int) == p.position());
        let width = self.kind.size[0] as i64;
        let height = self.kind.size[1] as i64;
        if x > i64::MAX - width || y > i64::MAX - height {
            return None;
        }
        let mut values: Vec<(NodeSocketId, Value)> = Vec::new();
        assert(values.deep_view() =~= Seq::empty());
        extend_values(&mut values, self.values);
        Self::split_outside(outside_links, &mut links, &mut values, Ghost(p));

        let mut properties: Vec<(&'static str, Value)> = Vec::new();
        assert(properties.deep_view() =~= Seq::empty());
        extend_values(&mut properties, self.properties);
        let outside = outside_properties.as_slice();
        assert(outside.deep_view() =~= outside_properties.deep_view());
        extend_values(&mut properties, outside);

        let built = self.kind.build(properties, values, links, [x, y]);
        assert(built@ == p.built());
        let index = nodes.len();
        nodes.push(built);
        assert(nodes.deep_view() =~= p.nodes.push(p.built()));
        self.register_outputs(outputs, index, Ghost(p));

        Some([x + width, y + height])
    }

    /// Places the node: appends it to `nodes`, adds its output sockets to
    /// `outputs`, and returns its far corner.
    pub fn build(
        &self,
        nodes: &mut Vec<BuiltNode>,
        outputs: &mut Vec<(NodeSocketRef, BuiltNodeSocketRef)>,
        outside_links: &Vec<(NodeSocketId, BuiltNodeSocketLink)>,
        outside_properties: &Vec<(&'static str, Value)>,
        base_position: [i64; 2],
        check_previous: bool,
    ) -> (r: [i64; 2])
        requires
            self.placement(
                old(nodes).deep_view(),
                old(outputs).deep_view(),
                outside_links.deep_view(),
                outside_properties.deep_view(),
                base_position,
                check_previous,
            ).ready(),
        ensures
            final(nodes).deep_view() == old(nodes).deep_view().push(
                self.placement(
                    old(nodes).deep_view(),
                    old(outputs).deep_view(),
                    outside_links.deep_view(),
                    outside_properties.deep_view(),
                    base_position,
                    check_previous,
                ).built(),
            ),
            final(outputs).deep_view() == self.placement(
                old(nodes).deep_view(),
                old(outputs).deep_view(),
                outside_links.deep_view(),
                outside_properties.deep_view(),
                base_position,
                check_previous,
            ).outputs_after(),
            (r[0] as int, r[1] as int) == self.placement(
                old(nodes).deep_view(),
                old(outputs).deep_view(),
                outside_links.deep_view(),
                outside_properties.deep_view(),
                base_position,
                check_previous,
            ).far_corner(),
    {
        let corner = self.try_build(
            nodes,
            outputs,
            outside_links,
            outside_properties,
            base_position,
            check_previous,
        );
        corner.unwrap()
    }
}

} // verus!
