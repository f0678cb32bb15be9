//! Expanding a node group into placed nodes.
use crate::assoc::{assoc_get, assoc_put, find, put};
use crate::nodes::{
    BuiltLinkModel, BuiltNode, BuiltNodeModel, BuiltNodeSocketLink, BuiltNodeSocketRef,
    BuiltRefModel, GroupModel, NodeGroup, NodeSocketId, NodeSocketRef, SocketModel,
    SocketRefModel,
};
use crate::placement::{max_int, Placement};
use crate::value::{Value, ValueModel};
use vstd::prelude::*;

verus! {

/// What the expansion of one group depends on.
pub struct Expansion {
    /// The group to expand.
    pub group: GroupModel,
    /// The nodes placed before the group.
    pub nodes: Seq<BuiltNodeModel>,
    /// What the earlier groups of the pipeline put out, by name.
    pub outputs: Seq<(Seq<char>, BuiltRefModel)>,
    /// What is linked to the group's inputs, by name.
    pub outside_links: Seq<(Seq<char>, BuiltLinkModel)>,
    /// The values given to the group's properties, by name.
    pub outside_properties: Seq<(Seq<char>, ValueModel)>,
    /// Where the group begins.
    pub position: (int, int),
}

/// How far the expansion of a group has come.
pub struct GroupState {
    /// The nodes placed so far.
    pub nodes: Seq<BuiltNodeModel>,
    /// The output sockets of the group's nodes placed so far.
    pub outputs: Seq<(SocketRefModel, BuiltRefModel)>,
    /// The right edge of what the group takes up.
    pub x_max: int,
    /// The lower edge of what the group takes up.
    pub y_max: int,
}

impl Expansion {
    /// What feeds the group's input `name`: what is linked to it, or else the
    /// output of that name of an earlier group.
    pub open spec fn input_link(self, name: Seq<char>) -> Option<BuiltLinkModel> {
        match assoc_get(self.outside_links, name) {
            Some(link) => Some(link),
            None => match assoc_get(self.outputs, name) {
                Some(r) => Some(BuiltLinkModel::Link(r)),
                None => None,
            },
        }
    }

    /// What feeds the sockets of the group's `k`-th node from outside, as far
    /// as the first `n` inputs of the group say.
    pub open spec fn node_links(self, k: int, n: int) -> Seq<(SocketModel, BuiltLinkModel)>
        decreases n,
    {
        if n <= 0 {
            Seq::empty()
        } else {
            let acc = self.node_links(k, n - 1);
            let input = self.group.inputs[n - 1];
            if input.1.target == self.group.nodes[k].id {
                acc.push((input.1.socket, self.input_link(input.0).unwrap()))
            } else {
                acc
            }
        }
    }

    /// The properties of the group's `k`-th node set from outside, as far as
    /// the first `n` properties of the group say.
    pub open spec fn node_properties(self, k: int, n: int) -> Seq<(Seq<char>, ValueModel)>
        decreases n,
    {
        if n <= 0 {
            Seq::empty()
        } else {
            let acc = self.node_properties(k, n - 1);
            let property = self.group.properties[n - 1];
            if property.1.target == self.group.nodes[k].id {
                acc.push(
                    (property.1.name, assoc_get(self.outside_properties, property.0).unwrap()),
                )
            } else {
                acc
            }
        }
    }

    /// Whether each input of the group that leads into its `k`-th node is fed.
    pub open spec fn node_linked(self, k: int) -> bool {
        forall|i: int|
            0 <= i < self.group.inputs.len() && (#[trigger] self.group.inputs[i]).1.target
                == self.group.nodes[k].id ==> self.input_link(self.group.inputs[i].0) is Some
    }

    /// Whether each property of the group that stands for a property of its
    /// `k`-th node is given a value.
    pub open spec fn node_set(self, k: int) -> bool {
        forall|i: int|
            0 <= i < self.group.properties.len() && (#[trigger] self.group.properties[i]).1.target
                == self.group.nodes[k].id ==> assoc_get(
                self.outside_properties,
                self.group.properties[i].0,
            ) is Some
    }

    /// Whether everything that the group's `k`-th node needs from outside is
    /// there: a link for each of its inputs, a value for each of its properties.
    pub open spec fn node_supplied(self, k: int) -> bool {
        self.node_linked(k) && self.node_set(k)
    }

    /// The placement of the group's `k`-th node.
    pub open spec fn placement(self, k: int) -> Placement
        decreases k, 1int,
    {
        let state = self.state(k);
        Placement {
            node: self.group.nodes[k],
            nodes: state.nodes,
            outputs: state.outputs,
            outside_links: self.node_links(k, self.group.inputs.len() as int),
            outside_properties: self.node_properties(k, self.group.properties.len() as int),
            base: self.position,
            check_previous: k > 0,
        }
    }

    /// The expansion after the group's first `k` nodes.
    pub open spec fn state(self, k: int) -> GroupState
        decreases k, 0int,
    {
        if k <= 0 {
            GroupState {
                nodes: self.nodes,
                outputs: Seq::empty(),
                x_max: self.position.0,
                y_max: self.position.1,
            }
        } else {
            let before = self.state(k - 1);
            let p = self.placement(k - 1);
            GroupState {
                nodes: before.nodes.push(p.built()),
                outputs: p.outputs_after(),
                x_max: max_int(before.x_max, p.far_corner().0),
                y_max: max_int(before.y_max, p.far_corner().1),
            }
        }
    }

    /// The expansion after all nodes of the group.
    pub open spec fn end(self) -> GroupState {
        self.state(self.group.nodes.len() as int)
    }

    /// The pipeline's outputs after the first `n` outputs of the group are
    /// added.
    pub open spec fn exported(self, n: int) -> Seq<(Seq<char>, BuiltRefModel)>
        decreases n,
    {
        if n <= 0 {
            self.outputs
        } else {
            assoc_put(
                self.exported(n - 1),
                self.group.outputs[n - 1].0,
                assoc_get(self.end().outputs, self.group.outputs[n - 1].1).unwrap(),
            )
        }
    }

    /// The pipeline's outputs after the group.
    pub open spec fn outputs_after(self) -> Seq<(Seq<char>, BuiltRefModel)> {
        self.exported(self.group.outputs.len() as int)
    }

    /// Whether the group's `k`-th node can be placed.
    pub open spec fn node_ready(self, k: int) -> bool {
        self.node_supplied(k) && self.placement(k).ready()
    }

    /// Whether every output of the group names an output socket of one of its
    /// nodes.
    pub open spec fn exports_resolved(self) -> bool {
        forall|i: int|
            0 <= i < self.group.outputs.len() ==> assoc_get(
                self.end().outputs,
                (#[trigger] self.group.outputs[i]).1,
            ) is Some
    }

    /// Whether the group can be expanded: every node can be placed in its turn,
    /// and every output of the group names an output socket of one of its nodes.
    pub open spec fn ready(self) -> bool {
        &&& forall|k: int| 0 <= k < self.group.nodes.len() ==> #[trigger] self.node_ready(k)
        &&& self.exports_resolved()
    }
}

impl NodeGroup {
    /// The expansion of this group in the given surroundings.
    pub open spec fn expansion(
        &self,
        nodes: Seq<BuiltNodeModel>,
        outputs: Seq<(Seq<char>, BuiltRefModel)>,
        outside_links: Seq<(Seq<char>, BuiltLinkModel)>,
        outside_properties: Seq<(Seq<char>, ValueModel)>,
        position: [i64; 2],
    ) -> Expansion {
        Expansion {
            group: self@,
            nodes,
            outputs,
            outside_links,
            outside_properties,
            position: (position[0] as int, position[1] as int),
        }
    }

    /// A group of no nodes with the handle 0.
    pub fn default() -> (r: Self)
        ensures
            r.id == 0,
            r@.nodes.len() == 0,
            r@.properties.len() == 0,
            r@.inputs.len() == 0,
            r@.outputs.len() == 0,
    {
        Self { id: 0, nodes: &[], properties: &[], inputs: &[], outputs: &[] }
    }

    /// What feeds the sockets of the `k`-th node from outside the group; `None`
    /// where an input of the group that leads into the node is not fed.
    fn node_links(
        &self,
        k: usize,
        outputs: &Vec<(&'static str, BuiltNodeSocketRef)>,
        outside_links: &Vec<(&'static str, BuiltNodeSocketLink)>,
        Ghost(e): Ghost<Expansion>,
    ) -> (r: Option<Vec<(NodeSocketId, BuiltNodeSocketLink)>>)
        requires
            e.group == self@,
            e.outputs == outputs.deep_view(),
            e.outside_links == outside_links.deep_view(),
            k < self.nodes@.len(),
        ensures
            r is Some <==> e.node_linked(k as int),
            r is Some ==> r.unwrap().deep_view() == e.node_links(
                k as int,
                self@.inputs.len() as int,
            ),
    {
        let node_id = self.nodes[k].id;
        let mut links: Vec<(NodeSocketId, BuiltNodeSocketLink)> = Vec::new();
        assert(links.deep_view() =~= Seq::empty());
        let mut i: usize = 0;
        while i < self.inputs.len()
            invariant
                i <= self.inputs@.len(),
                self.inputs@.len() == self@.inputs.len(),
                e.group == self@,
                e.outputs == outputs.deep_view(),
                e.outside_links == outside_links.deep_view(),
                k < self.nodes@.len(),
                node_id@ == self@.nodes[k as int].id,
                forall|j: int|
                    0 <= j < i && (#[trigger] e.group.inputs[j]).1.target == e.group.nodes[k as int].id
                        ==> e.input_link(e.group.inputs[j].0) is Some,
                links.deep_view() == e.node_links(k as int, i as int),
            decreases self.inputs@.len() - i,
        {
            let name = self.inputs[i].0;
            let target = self.inputs[i].1;
            assert(e.group.inputs[i as int] == (name@, target@));
            let ghost before = links.deep_view();
            if target.depends_on(node_id) {
                let link = match find(outside_links, &name) {
                    Some(at) => outside_links[at].1.clone(),
                    None => match find(outputs, &name) {
                        Some(at) => BuiltNodeSocketLink::Link(outputs[at].1),
                        None => {
                            assert(e.input_link(name@) is None);
                            return None;
                        },
                    },
                };
                assert(Some(link@) == e.input_link(name@));
                links.push((target.socket, link));
                assert(links.deep_view() =~= before.push((target@.socket, link@)));
            }
            i += 1;
        }
        Some(links)
    }

    /// The properties of the `k`-th node that are set from outside the group;
    /// `None` where a property of the group that stands for one of the node's
    /// is given no value.
    fn node_properties(
        &self,
        k: usize,
        outside_properties: &Vec<(&'static str, Value)>,
        Ghost(e): Ghost<Expansion>,
    ) -> (r: Option<Vec<(&'static str, Value)>>)
        requires
            e.group == self@,
            e.outside_properties == outside_properties.deep_view(),
            k < self.nodes@.len(),
        ensures
            r is Some <==> e.node_set(k as int),
            r is Some ==> r.unwrap().deep_view() == e.node_properties(
                k as int,
                self@.properties.len() as int,
            ),
    {
        let node_id = self.nodes[k].id;
        let mut properties: Vec<(&'static str, Value)> = Vec::new();
        assert(properties.deep_view() =~= Seq::empty());
        let mut i: usize = 0;
        while i < self.properties.len()
            invariant
                i <= self.properties@.len(),
                self.properties@.len() == self@.properties.len(),
                e.group == self@,
                e.outside_properties == outside_properties.deep_view(),
                k < self.nodes@.len(),
                node_id@ == self@.nodes[k as int].id,
                forall|j: int|
                    0 <= j < i && (#[trigger] e.group.properties[j]).1.target
                        == e.group.nodes[k as int].id ==> assoc_get(
                        e.outside_properties,
                        e.group.properties[j].0,
                    ) is Some,
                properties.deep_view() == e.node_properties(k as int, i as int),
            decreases self.properties@.len() - i,
        {
            let name = self.properties[i].0;
            let target = self.properties[i].1;
            assert(e.group.properties[i as int] == (name@, target@));
            let ghost before = properties.deep_view();
            if target.depends_on(node_id) {
                let value = match find(outside_properties, &name) {
                    Some(at) => outside_properties[at].1.clone(),
                    None => {
                        return None;
                    },
                };
                properties.push((target.name, value));
                assert(properties.deep_view() =~= before.push((target@.name, value@)));
            }
            i += 1;
        }
        Some(properties)
    }

    /// Adds the group's outputs to the pipeline's; `false`, with the outputs in
    /// any state, where an output of the group names no output socket of its
    /// nodes.
    fn export_outputs(
        &self,
        outputs: &mut Vec<(&'static str, BuiltNodeSocketRef)>,
        local_outputs: &Vec<(NodeSocketRef, BuiltNodeSocketRef)>,
        Ghost(e): Ghost<Expansion>,
    ) -> (r: bool)
        requires
            e.group == self@,
            e.outputs == old(outputs).deep_view(),
            e.end().outputs == local_outputs.deep_view(),
        ensures
            r == e.exports_resolved(),
            r ==> final(outputs).deep_view() == e.outputs_after(),
    {
        let mut i: usize = 0;
        while i < self.outputs.len()
            invariant
                i <= self.outputs@.len(),
                self.outputs@.len() == self@.outputs.len(),
                e.group == self@,
                e.end().outputs == local_outputs.deep_view(),
                forall|j: int|
                    0 <= j < i ==> assoc_get(e.end().outputs, (#[trigger] e.group.outputs[j]).1) is Some,
                outputs.deep_view() == e.exported(i as int),
            decreases self.outputs@.len() - i,
        {
            let name = self.outputs[i].0;
            let source = self.outputs[i].1;
            assert(e.group.outputs[i as int] == (name@, source@));
            match find(local_outputs, &source) {
                Some(at) => {
                    put(outputs, name, local_outputs[at].1);
                },
                None => {
                    return false;
                },
            }
            i += 1;
        }
        true
    }

    /// Expands the group where it can be expanded: appends its nodes to
    /// `nodes`, adds its outputs to `outputs`, and returns the far corner of
    /// what it takes up. Where it cannot be expanded the result is `None`, and
    /// `nodes` and `outputs` hold what was done until then.
    pub fn try_build(
        &self,
        nodes: &mut Vec<BuiltNode>,
        outputs: &mut Vec<(&'static str, BuiltNodeSocketRef)>,
        outside_links: &Vec<(&'static str, BuiltNodeSocketLink)>,
        outside_properties: &Vec<(&'static str, Value)>,
        position: [i64; 2],
    ) -> (r: Option<[i64; 2]>)
        ensures
            r is Some <==> self.expansion(
                old(nodes).deep_view(),
                old(outputs).deep_view(),
                outside_links.deep_view(),
                outside_properties.deep_view(),
                position,
            ).ready(),
            match r {
                Some(corner) => {
                    let e = self.expansion(
                        old(nodes).deep_view(),
                        old(outputs).deep_view(),
                        outside_links.deep_view(),
                        outside_properties.deep_view(),
                        position,
                    );
                    &&& final(nodes).deep_view() == e.end().nodes
                    &&& final(outputs).deep_view() == e.outputs_after()
                    &&& corner[0] == e.end().x_max
                    &&& corner[1] == e.end().y_max
                },
                None => true,
            },
    {
        let ghost e = self.expansion(
            nodes.deep_view(),
            outputs.deep_view(),
            outside_links.deep_view(),
            outside_properties.deep_view(),
            position,
        );
        let mut local_outputs: Vec<(NodeSocketRef, BuiltNodeSocketRef)> = Vec::new();
        assert(local_outputs.deep_view() =~= Seq::empty());
        let mut x_max = position[0];
        let mut y_max = position[1];
        let mut k: usize = 0;
        while k < self.nodes.len()
            invariant
                k <= self.nodes@.len(),
                self.nodes@.len() == self@.nodes.len(),
                e.group == self@,
                e.outputs == outputs.deep_view(),
                e.outside_links == outside_links.deep_view(),
                e.outside_properties == outside_properties.deep_view(),
                e.position == (position[0] as int, position[1] as int),
                e == self.expansion(
                    old(nodes).deep_view(),
                    old(outputs).deep_view(),
                    outside_links.deep_view(),
                    outside_properties.deep_view(),
                    position,
                ),
                forall|j: int| 0 <= j < k ==> #[trigger] e.node_ready(j),
                nodes.deep_view() == e.state(k as int).nodes,
                local_outputs.deep_view() == e.state(k as int).outputs,
                x_max == e.state(k as int).x_max,
                y_max == e.state(k as int).y_max,
            decreases self.nodes@.len() - k,
        {
            let links = match self.node_links(k, outputs, outside_links, Ghost(e)) {
                Some(links) => links,
                None => {
                    assert(!e.node_ready(k as int));
                    return None;
                },
            };
            let properties = match self.node_properties(k, outside_properties, Ghost(e)) {
                Some(properties) => properties,
                None => {
                    assert(!e.node_ready(k as int));
                    return None;
                },
            };
            let node = &self.nodes[k];
            let ghost p = e.placement(k as int);
            assert(p == node.placement(
                nodes.deep_view(),
                local_outputs.deep_view(),
                links.deep_view(),
                properties.deep_view(),
                position,
                k > 0,
            ));
            let corner = match node.try_build(
                nodes,
                &mut local_outputs,
                &links,
                &properties,
                position,
                k > 0,
            ) {
                Some(corner) => corner,
                None => {
                    assert(!e.node_ready(k as int));
                    return None;
                },
            };
            assert(e.node_ready(k as int));
            if corner[0] > x_max {
                x_max = corner[0];
            }
            if corner[1] > y_max {
                y_max = corner[1];
            }
            k += 1;
        }
        if !self.export_outputs(outputs, &local_outputs, Ghost(e)) {
            return None;
        }
        Some([x_max, y_max])
    }

    /// Expands the group: appends its nodes to `nodes`, adds its outputs to
    /// `outputs`, and returns the far corner of what it takes up.
    pub fn build(
        &self,
        nodes: &mut Vec<BuiltNode>,
        outputs: &mut Vec<(&'static str, BuiltNodeSocketRef)>,
        outside_links: &Vec<(&'static str, BuiltNodeSocketLink)>,
        outside_properties: &Vec<(&'static str, Value)>,
        position: [i64; 2],
    ) -> (r: [i64; 2])
        requires
            self.expansion(
                old(nodes).deep_view(),
                old(outputs).deep_view(),
                outside_links.deep_view(),
                outside_properties.deep_view(),
                position,
            ).ready(),
        ensures
            final(nodes).deep_view() == self.expansion(
                old(nodes).deep_view(),
                old(outputs).deep_view(),
                outside_links.deep_view(),
                outside_properties.deep_view(),
                position,
            ).end().nodes,
            final(outputs).deep_view() == self.expansion(
                old(nodes).deep_view(),
                old(outputs).deep_view(),
                outside_links.deep_view(),
                outside_properties.deep_view(),
                position,
            ).outputs_after(),
            r[0] == self.expansion(
                old(nodes).deep_view(),
                old(outputs).deep_view(),
                outside_links.deep_view(),
                outside_properties.deep_view(),
                position,
            ).end().x_max,
            r[1] == self.expansion(
                old(nodes).deep_view(),
                old(outputs).deep_view(),
                outside_links.deep_view(),
                outside_properties.deep_view(),
                position,
            ).end().y_max,
    {
        let corner = self.try_build(nodes, outputs, outside_links, outside_properties, position);
        corner.unwrap()
    }
}

} // verus!
