//! Assembling pipelines: the groups of an input or an output, expanded one
//! after the other from left to right.
use crate::assoc::{assoc_get, assoc_put, find, put};
use crate::declare::{InputLink, LinkModel};
use crate::group::Expansion;
use crate::nodes::{
    BuiltLinkModel, BuiltNode, BuiltNodeModel, BuiltNodeSocketLink, BuiltNodeSocketRef,
    BuiltRefModel, GroupModel, GroupRefModel, NodeGroup, NodeGroupRef, Ref, RefModel,
};
use crate::placement::max_int;
use crate::value::{Value, ValueModel};
use crate::NODE_MARGIN;
use vstd::prelude::*;

verus! {

/// An input whose pipeline is assembled: what it puts out, by name, and the far
/// corner of what it takes up.
#[derive(Debug)]
pub struct BuiltInput {
    pub outputs: Vec<(&'static str, BuiltNodeSocketRef)>,
    pub x_max: i64,
    pub y_max: i64,
}

/// Mathematical content of a [`BuiltInput`].
pub struct BuiltInputModel {
    pub outputs: Seq<(Seq<char>, BuiltRefModel)>,
    pub x_max: int,
    pub y_max: int,
}

impl View for BuiltInput {
    type V = BuiltInputModel;

    open spec fn view(&self) -> BuiltInputModel {
        BuiltInputModel {
            outputs: self.outputs.deep_view(),
            x_max: self.x_max as int,
            y_max: self.y_max as int,
        }
    }
}

impl DeepView for BuiltInput {
    type V = BuiltInputModel;

    open spec fn deep_view(&self) -> BuiltInputModel {
        self@
    }
}

impl BuiltInputModel {
    /// Left edge of the column after this input.
    pub open spec fn next_column(self) -> int {
        self.x_max + NODE_MARGIN
    }

    /// Upper edge of the row after this input.
    pub open spec fn next_row(self) -> int {
        self.y_max + NODE_MARGIN
    }

}

impl BuiltInput {
    /// The left edge of the column after this input.
    pub fn next_column(&self) -> (r: i64)
        requires
            self@.next_column() <= i64::MAX,
        ensures
            r == self@.next_column(),
    {
        self.x_max + NODE_MARGIN
    }

    /// The upper edge of the row after this input.
    pub fn next_row(&self) -> (r: i64)
        requires
            self@.next_row() <= i64::MAX,
        ensures
            r == self@.next_row(),
    {
        self.y_max + NODE_MARGIN
    }

    /// The left edge of the column after this input, where it is within the
    /// range of coordinates.
    pub fn checked_next_column(&self) -> (r: Option<i64>)
        ensures
            r is Some <==> self@.next_column() <= i64::MAX,
            r is Some ==> r.unwrap() == self@.next_column(),
    {
        if self.x_max <= i64::MAX - NODE_MARGIN {
            Some(self.x_max + NODE_MARGIN)
        } else {
            None
        }
    }

    /// The upper edge of the row after this input, where it is within the range
    /// of coordinates.
    pub fn checked_next_row(&self) -> (r: Option<i64>)
        ensures
            r is Some <==> self@.next_row() <= i64::MAX,
            r is Some ==> r.unwrap() == self@.next_row(),
    {
        if self.y_max <= i64::MAX - NODE_MARGIN {
            Some(self.y_max + NODE_MARGIN)
        } else {
            None
        }
    }

    /// Whether something that begins at `min` would share a column with this
    /// input.
    pub fn x_overlaps(&self, min: i64) -> (r: bool)
        ensures
            r == (min < self@.x_max),
    {
        min < self.x_max
    }
}

/// The assembled inputs, by name.
pub type BuiltInputs = Seq<(Seq<char>, BuiltInputModel)>;

/// The placed socket that a reference to an input's socket stands for.
pub open spec fn evaluate_ref(r: RefModel, inputs: BuiltInputs) -> Option<BuiltRefModel> {
    match assoc_get(inputs, r.target) {
        Some(input) => assoc_get(input.outputs, r.name),
        None => None,
    }
}

/// What a link feeds into a socket, once the inputs are assembled.
pub open spec fn evaluate_link(link: LinkModel, inputs: BuiltInputs) -> Option<BuiltLinkModel> {
    match link {
        LinkModel::Input(r) => match evaluate_ref(r, inputs) {
            Some(socket) => Some(BuiltLinkModel::Link(socket)),
            None => None,
        },
        LinkModel::Value(v) => Some(BuiltLinkModel::Value(v)),
    }
}

impl Ref {
    /// The assembled input that the reference points at, if there is one.
    pub fn find_input<'a>(&self, inputs: &'a Vec<(&'static str, BuiltInput)>) -> (r: Option<
        &'a BuiltInput,
    >)
        ensures
            r is Some <==> assoc_get(inputs.deep_view(), self@.target) is Some,
            r is Some ==> r.unwrap()@ == assoc_get(inputs.deep_view(), self@.target).unwrap(),
    {
        match find(inputs, &self.target) {
            Some(at) => Some(&inputs[at].1),
            None => None,
        }
    }

    /// The placed socket that the reference stands for, if there is one.
    pub fn find_socket(&self, inputs: &Vec<(&'static str, BuiltInput)>) -> (r: Option<
        BuiltNodeSocketRef,
    >)
        ensures
            r.deep_view() == evaluate_ref(self@, inputs.deep_view()),
    {
        match self.find_input(inputs) {
            Some(input) => match find(&input.outputs, &self.name) {
                Some(at) => Some(input.outputs[at].1),
                None => None,
            },
            None => None,
        }
    }

    /// The assembled input that the reference points at.
    pub fn evaluate_input_only<'a>(&self, inputs: &'a Vec<(&'static str, BuiltInput)>) -> (r:
        &'a BuiltInput)
        requires
            assoc_get(inputs.deep_view(), self@.target) is Some,
        ensures
            r@ == assoc_get(inputs.deep_view(), self@.target).unwrap(),
    {
        self.find_input(inputs).unwrap()
    }

    /// The placed socket that the reference stands for.
    pub fn evaluate_input(&self, inputs: &Vec<(&'static str, BuiltInput)>) -> (r:
        BuiltNodeSocketRef)
        requires
            evaluate_ref(self@, inputs.deep_view()) is Some,
        ensures
            r@ == evaluate_ref(self@, inputs.deep_view()).unwrap(),
    {
        self.find_socket(inputs).unwrap()
    }
}

impl InputLink {
    /// What the link feeds into a socket, if it can be followed.
    pub fn try_evaluate(&self, inputs: &Vec<(&'static str, BuiltInput)>) -> (r: Option<
        BuiltNodeSocketLink,
    >)
        ensures
            r.deep_view() == evaluate_link(self@, inputs.deep_view()),
    {
        match self {
            InputLink::Input(r) => match r.find_socket(inputs) {
                Some(socket) => Some(BuiltNodeSocketLink::Link(socket)),
                None => None,
            },
            InputLink::Value(v) => Some(BuiltNodeSocketLink::Value(v.clone())),
        }
    }

    /// What the link feeds into a socket.
    pub fn evaluate(&self, inputs: &Vec<(&'static str, BuiltInput)>) -> (r: BuiltNodeSocketLink)
        requires
            evaluate_link(self@, inputs.deep_view()) is Some,
        ensures
            r@ == evaluate_link(self@, inputs.deep_view()).unwrap(),
    {
        self.try_evaluate(inputs).unwrap()
    }

    /// The assembled input that the link reads from, if it reads from one.
    pub fn evaluate_input_only<'a>(&self, inputs: &'a Vec<(&'static str, BuiltInput)>) -> (r:
        Option<&'a BuiltInput>)
        requires
            self@ matches LinkModel::Input(target) ==> assoc_get(
                inputs.deep_view(),
                target.target,
            ) is Some,
        ensures
            match self@ {
                LinkModel::Input(target) => r is Some && r.unwrap()@ == assoc_get(
                    inputs.deep_view(),
                    target.target,
                ).unwrap(),
                LinkModel::Value(_) => r is None,
            },
    {
        match self {
            InputLink::Input(r) => Some(r.evaluate_input_only(inputs)),
            InputLink::Value(_) => None,
        }
    }
}

/// What the assembly of one pipeline depends on.
pub struct Assembly {
    /// The groups to expand, in order.
    pub pipeline: Seq<GroupModel>,
    /// Where the pipeline begins.
    pub position: (int, int),
    /// What is linked to the inputs of the pipeline's groups.
    pub links: Seq<(GroupRefModel, LinkModel)>,
    /// The values given to the properties of the pipeline's groups.
    pub properties: Seq<(GroupRefModel, ValueModel)>,
    /// The inputs assembled before.
    pub inputs: BuiltInputs,
    /// The outputs that the pipeline starts from.
    pub outputs: Seq<(Seq<char>, BuiltRefModel)>,
    /// The nodes placed before the pipeline.
    pub nodes: Seq<BuiltNodeModel>,
}

/// How far the assembly of a pipeline has come.
pub struct PipelineState {
    /// The nodes placed so far.
    pub nodes: Seq<BuiltNodeModel>,
    /// What the groups expanded so far put out, by name.
    pub outputs: Seq<(Seq<char>, BuiltRefModel)>,
    /// Where the next group begins.
    pub x: int,
    /// The lower edge of what the pipeline takes up.
    pub y_max: int,
}

impl Assembly {
    /// What is linked to the inputs of the `k`-th group, by name, as far as the
    /// first `n` links say.
    pub open spec fn group_links(self, k: int, n: int) -> Seq<(Seq<char>, BuiltLinkModel)>
        decreases n,
    {
        if n <= 0 {
            Seq::empty()
        } else {
            let acc = self.group_links(k, n - 1);
            let link = self.links[n - 1];
            if link.0.group == self.pipeline[k].id {
                assoc_put(acc, link.0.name, evaluate_link(link.1, self.inputs).unwrap())
            } else {
                acc
            }
        }
    }

    /// The values given to the properties of the `k`-th group, by name, as far
    /// as the first `n` properties say.
    pub open spec fn group_properties(self, k: int, n: int) -> Seq<(Seq<char>, ValueModel)>
        decreases n,
    {
        if n <= 0 {
            Seq::empty()
        } else {
            let acc = self.group_properties(k, n - 1);
            let property = self.properties[n - 1];
            if property.0.group == self.pipeline[k].id {
                assoc_put(acc, property.0.name, property.1)
            } else {
                acc
            }
        }
    }

    /// Whether every link addressed to the `k`-th group can be followed.
    pub open spec fn links_evaluable(self, k: int) -> bool {
        forall|i: int|
            0 <= i < self.links.len() && (#[trigger] self.links[i]).0.group == self.pipeline[k].id
                ==> evaluate_link(self.links[i].1, self.inputs) is Some
    }

    /// The expansion of the `k`-th group.
    pub open spec fn expansion(self, k: int) -> Expansion
        decreases k, 1int,
    {
        let state = self.state(k);
        Expansion {
            group: self.pipeline[k],
            nodes: state.nodes,
            outputs: state.outputs,
            outside_links: self.group_links(k, self.links.len() as int),
            outside_properties: self.group_properties(k, self.properties.len() as int),
            position: (state.x, self.position.1),
        }
    }

    /// The assembly after the first `k` groups.
    pub open spec fn state(self, k: int) -> PipelineState
        decreases k, 0int,
    {
        if k <= 0 {
            PipelineState {
                nodes: self.nodes,
                outputs: self.outputs,
                x: self.position.0,
                y_max: self.position.1,
            }
        } else {
            let before = self.state(k - 1);
            let e = self.expansion(k - 1);
            PipelineState {
                nodes: e.end().nodes,
                outputs: e.outputs_after(),
                x: e.end().x_max + NODE_MARGIN,
                y_max: max_int(before.y_max, e.end().y_max),
            }
        }
    }

    /// The assembly after all groups.
    pub open spec fn end(self) -> PipelineState {
        self.state(self.pipeline.len() as int)
    }

    /// The far corner of what the pipeline takes up.
    pub open spec fn far_corner(self) -> (int, int) {
        (self.end().x - NODE_MARGIN, self.end().y_max)
    }

    /// Whether the `k`-th group can be expanded in its turn.
    pub open spec fn group_ready(self, k: int) -> bool {
        &&& self.links_evaluable(k)
        &&& self.expansion(k).ready()
        &&& self.expansion(k).end().x_max + NODE_MARGIN <= i64::MAX
    }

    /// Whether the pipeline can be assembled: every group can be expanded in
    /// its turn, within the range of coordinates.
    pub open spec fn ready(self) -> bool {
        &&& forall|k: int| 0 <= k < self.pipeline.len() ==> #[trigger] self.group_ready(k)
        &&& i64::MIN <= self.end().x - NODE_MARGIN
    }
}

/// What is linked to the inputs of the `k`-th group of the pipeline; `None`
/// where a link addressed to the group cannot be followed.
fn group_links(
    group: &NodeGroup,
    links: &Vec<(NodeGroupRef, InputLink)>,
    inputs: &Vec<(&'static str, BuiltInput)>,
    Ghost(a): Ghost<Assembly>,
    Ghost(k): Ghost<int>,
) -> (r: Option<Vec<(&'static str, BuiltNodeSocketLink)>>)
    requires
        0 <= k < a.pipeline.len(),
        a.pipeline[k] == group@,
        a.links == links.deep_view(),
        a.inputs == inputs.deep_view(),
    ensures
        r is Some <==> a.links_evaluable(k),
        r is Some ==> r.unwrap().deep_view() == a.group_links(k, links@.len() as int),
{
    let mut found: Vec<(&'static str, BuiltNodeSocketLink)> = Vec::new();
    assert(found.deep_view() =~= Seq::empty());
    let mut i: usize = 0;
    while i < links.len()
        invariant
            i <= links@.len(),
            0 <= k < a.pipeline.len(),
            a.pipeline[k] == group@,
            a.links == links.deep_view(),
            a.inputs == inputs.deep_view(),
            forall|j: int|
                0 <= j < i && (#[trigger] a.links[j]).0.group == a.pipeline[k].id
                    ==> evaluate_link(a.links[j].1, a.inputs) is Some,
            found.deep_view() == a.group_links(k, i as int),
        decreases links@.len() - i,
    {
        assert(a.links[i as int] == (links@[i as int].0@, links@[i as int].1@));
        if links[i].0.depends_on(group) {
            let evaluated = match links[i].1.try_evaluate(inputs) {
                Some(evaluated) => evaluated,
                None => {
                    return None;
                },
            };
            put(&mut found, links[i].0.name, evaluated);
        }
        i += 1;
    }
    Some(found)
}

/// The values given to the properties of the `k`-th group of the pipeline.
fn group_properties(
    group: &NodeGroup,
    properties: &Vec<(NodeGroupRef, Value)>,
    Ghost(a): Ghost<Assembly>,
    Ghost(k): Ghost<int>,
) -> (r: Vec<(&'static str, Value)>)
    requires
        0 <= k < a.pipeline.len(),
        a.pipeline[k] == group@,
        a.properties == properties.deep_view(),
    ensures
        r.deep_view() == a.group_properties(k, properties@.len() as int),
{
    let mut found: Vec<(&'static str, Value)> = Vec::new();
    assert(found.deep_view() =~= Seq::empty());
    let mut i: usize = 0;
    while i < properties.len()
        invariant
            i <= properties@.len(),
            0 <= k < a.pipeline.len(),
            a.pipeline[k] == group@,
            a.properties == properties.deep_view(),
            found.deep_view() == a.group_properties(k, i as int),
        decreases properties@.len() - i,
    {
        assert(a.properties[i as int] == (properties@[i as int].0@, properties@[i as int].1@));
        if properties[i].0.depends_on(group) {
            put(&mut found, properties[i].0.name, properties[i].1.clone());
        }
        i += 1;
    }
    found
}

/// The assembly of a pipeline in the given surroundings.
pub open spec fn assembly(
    pipeline: &[&'static NodeGroup],
    position: [i64; 2],
    links: &Vec<(NodeGroupRef, InputLink)>,
    properties: &Vec<(NodeGroupRef, Value)>,
    inputs: &Vec<(&'static str, BuiltInput)>,
    outputs: Seq<(Seq<char>, BuiltRefModel)>,
    nodes: Seq<BuiltNodeModel>,
) -> Assembly {
    Assembly {
        pipeline: pipeline.deep_view(),
        position: (position[0] as int, position[1] as int),
        links: links.deep_view(),
        properties: properties.deep_view(),
        inputs: inputs.deep_view(),
        outputs,
        nodes,
    }
}

/// Assembles a pipeline where it can be assembled: expands its groups from
/// left to right, each one margin after the one before, and returns the far
/// corner of what it takes up. Where it cannot be assembled the result is
/// `None`, and `nodes` and `outputs` hold what was done until then.
pub fn try_build_pipeline(
    pipeline: &[&'static NodeGroup],
    position: [i64; 2],
    links: &Vec<(NodeGroupRef, InputLink)>,
    properties: &Vec<(NodeGroupRef, Value)>,
    inputs: &Vec<(&'static str, BuiltInput)>,
    outputs: &mut Vec<(&'static str, BuiltNodeSocketRef)>,
    nodes: &mut Vec<BuiltNode>,
) -> (r: Option<[i64; 2]>)
    ensures
        r is Some <==> assembly(
            pipeline,
            position,
            links,
            properties,
            inputs,
            old(outputs).deep_view(),
            old(nodes).deep_view(),
        ).ready(),
        match r {
            Some(corner) => {
                let a = assembly(
                    pipeline,
                    position,
                    links,
                    properties,
                    inputs,
                    old(outputs).deep_view(),
                    old(nodes).deep_view(),
                );
                &&& final(nodes).deep_view() == a.end().nodes
                &&& final(outputs).deep_view() == a.end().outputs
                &&& (corner[0] as int, corner[1] as int) == a.far_corner()
            },
            None => true,
        },
{
    let ghost a = assembly(
        pipeline,
        position,
        links,
        properties,
        inputs,
        outputs.deep_view(),
        nodes.deep_view(),
    );
    let mut x = position[0];
    let y = position[1];
    let mut y_max = y;
    let mut k: usize = 0;
    while k < pipeline.len()
        invariant
            k <= pipeline@.len(),
            pipeline@.len() == a.pipeline.len(),
            a == assembly(
                pipeline,
                position,
                links,
                properties,
                inputs,
                old(outputs).deep_view(),
                old(nodes).deep_view(),
            ),
            forall|j: int| 0 <= j < k ==> #[trigger] a.group_ready(j),
            y == position[1],
            nodes.deep_view() == a.state(k as int).nodes,
            outputs.deep_view() == a.state(k as int).outputs,
            x == a.state(k as int).x,
            y_max == a.state(k as int).y_max,
        decreases pipeline@.len() - k,
    {
        let node_group = pipeline[k];
        assert(a.pipeline[k as int] == node_group@);
        let group_links = match group_links(node_group, links, inputs, Ghost(a), Ghost(k as int)) {
            Some(found) => found,
            None => {
                assert(!a.group_ready(k as int));
                return None;
            },
        };
        let group_properties = group_properties(node_group, properties, Ghost(a), Ghost(k as int));
        assert(a.expansion(k as int) == node_group.expansion(
            nodes.deep_view(),
            outputs.deep_view(),
            group_links.deep_view(),
            group_properties.deep_view(),
            [x, y],
        ));
        let corner = match node_group.try_build(
            nodes,
            outputs,
            &group_links,
            &group_properties,
            [x, y],
        ) {
            Some(corner) => corner,
            None => {
                assert(!a.group_ready(k as int));
                return None;
            },
        };
        if corner[0] > i64::MAX - NODE_MARGIN {
            assert(!a.group_ready(k as int));
            return None;
        }
        assert(a.group_ready(k as int));
        x = corner[0] + NODE_MARGIN;
        if corner[1] > y_max {
            y_max = corner[1];
        }
        k += 1;
    }
    if x < i64::MIN + NODE_MARGIN {
        return None;
    }
    Some([x - NODE_MARGIN, y_max])
}

/// Assembles a pipeline: expands its groups from left to right, each one
/// margin after the one before, and returns the far corner of what it takes up.
pub fn build_pipeline(
    pipeline: &[&'static NodeGroup],
    position: [i64; 2],
    links: &Vec<(NodeGroupRef, InputLink)>,
    properties: &Vec<(NodeGroupRef, Value)>,
    inputs: &Vec<(&'static str, BuiltInput)>,
    outputs: &mut Vec<(&'static str, BuiltNodeSocketRef)>,
    nodes: &mut Vec<BuiltNode>,
) -> (r: [i64; 2])
    requires
        assembly(
            pipeline,
            position,
            links,
            properties,
            inputs,
            old(outputs).deep_view(),
            old(nodes).deep_view(),
        ).ready(),
    ensures
        final(nodes).deep_view() == assembly(
            pipeline,
            position,
            links,
            properties,
            inputs,
            old(outputs).deep_view(),
            old(nodes).deep_view(),
        ).end().nodes,
        final(outputs).deep_view() == assembly(
            pipeline,
            position,
            links,
            properties,
            inputs,
            old(outputs).deep_view(),
            old(nodes).deep_view(),
        ).end().outputs,
        (r[0] as int, r[1] as int) == assembly(
            pipeline,
            position,
            links,
            properties,
            inputs,
            old(outputs).deep_view(),
            old(nodes).deep_view(),
        ).far_corner(),
{
    let corner = try_build_pipeline(pipeline, position, links, properties, inputs, outputs, nodes);
    corner.unwrap()
}

} // verus!
