//! The builder of a material: it takes the declarations and compiles them into
//! the finished list of placed nodes.
use crate::assemble::{InputBuild, OutputBuild};
use crate::assoc::{assoc_index, assoc_put, find, has_key, lemma_first_match, lemma_no_match, put, Key};
use crate::declare::{
    find_input, input_index, Input, InputModel, Output, OutputModel,
};
use crate::nodes::{
    BuiltNode, BuiltNodeModel, BuiltNodeSocketRef, BuiltRefModel, NodeSocketId, NodeType,
    NodeTypeModel, Ref, SocketModel,
};
use crate::pipeline::{BuiltInput, BuiltInputs};
use crate::placement::max_int;
use crate::resolver::{
    in_bounds, sort_dependencies_recursive, sort_inputs, sorted_order, walk, SortState,
};
use crate::schedule::{is_schedule, lemma_sorted_order};
use crate::value::{ColorSpace, Value, ValueModel};
use crate::NODE_MARGIN;
use vstd::prelude::*;
use vstd::std_specs::convert::IntoSpec;

verus! {

impl View for ColorSpace {
    type V = ColorSpace;

    open spec fn view(&self) -> ColorSpace {
        *self
    }
}

impl DeepView for ColorSpace {
    type V = ColorSpace;

    open spec fn deep_view(&self) -> ColorSpace {
        *self
    }
}

impl Key for String {
    fn same(&self, other: &Self) -> (r: bool) {
        *self == *other
    }
}

/// The declarations of one material.
#[derive(Debug)]
pub struct MaterialBuilder {
    pub properties: Vec<(&'static str, Value)>,
    pub shader: &'static NodeType,
    pub shader_socket_values: Vec<(NodeSocketId, Value)>,
    pub inputs: Vec<Input>,
    pub outputs: Vec<Output>,
    pub texture_color_spaces: Vec<(String, ColorSpace)>,
}

/// Mathematical content of a [`MaterialBuilder`].
pub struct BuilderModel {
    pub properties: Seq<(Seq<char>, ValueModel)>,
    pub shader: NodeTypeModel,
    pub shader_socket_values: Seq<(SocketModel, ValueModel)>,
    pub inputs: Seq<InputModel>,
    pub outputs: Seq<OutputModel>,
    pub texture_color_spaces: Seq<(Seq<char>, ColorSpace)>,
}

impl View for MaterialBuilder {
    type V = BuilderModel;

    open spec fn view(&self) -> BuilderModel {
        BuilderModel {
            properties: self.properties.deep_view(),
            shader: self.shader@,
            shader_socket_values: self.shader_socket_values.deep_view(),
            inputs: self.inputs.deep_view(),
            outputs: self.outputs.deep_view(),
            texture_color_spaces: self.texture_color_spaces.deep_view(),
        }
    }
}

/// The finished material: the properties of the material itself, the placed
/// nodes with the shader node last, and the colour spaces of its textures.
#[derive(Debug)]
pub struct BuiltMaterialData {
    pub properties: Vec<(&'static str, Value)>,
    pub nodes: Vec<BuiltNode>,
    pub texture_color_spaces: Vec<(String, ColorSpace)>,
}

/// Mathematical content of a [`BuiltMaterialData`].
pub struct BuiltMaterialModel {
    pub properties: Seq<(Seq<char>, ValueModel)>,
    pub nodes: Seq<BuiltNodeModel>,
    pub texture_color_spaces: Seq<(Seq<char>, ColorSpace)>,
}

impl View for BuiltMaterialData {
    type V = BuiltMaterialModel;

    open spec fn view(&self) -> BuiltMaterialModel {
        BuiltMaterialModel {
            properties: self.properties.deep_view(),
            nodes: self.nodes.deep_view(),
            texture_color_spaces: self.texture_color_spaces.deep_view(),
        }
    }
}

impl BuiltMaterialData {
    /// Takes the properties out of the material and leaves it with none.
    pub fn properties(&mut self) -> (r: Vec<(&'static str, Value)>)
        ensures
            r == old(self).properties,
            final(self)@ == (BuiltMaterialModel { properties: Seq::empty(), ..old(self)@ }),
    {
        let mut taken: Vec<(&'static str, Value)> = Vec::new();
        assert(taken.deep_view() =~= Seq::empty());
        std::mem::swap(&mut taken, &mut self.properties);
        taken
    }

    /// Takes the nodes out of the material and leaves it with none.
    pub fn nodes(&mut self) -> (r: Vec<BuiltNode>)
        ensures
            r == old(self).nodes,
            final(self)@ == (BuiltMaterialModel { nodes: Seq::empty(), ..old(self)@ }),
    {
        let mut taken: Vec<BuiltNode> = Vec::new();
        assert(taken.deep_view() =~= Seq::empty());
        std::mem::swap(&mut taken, &mut self.nodes);
        taken
    }

    /// Takes the colour spaces of the textures out of the material and leaves
    /// it with none.
    pub fn texture_color_spaces(&mut self) -> (r: Vec<(String, ColorSpace)>)
        ensures
            r == old(self).texture_color_spaces,
            final(self)@ == (BuiltMaterialModel {
                texture_color_spaces: Seq::empty(),
                ..old(self)@
            }),
    {
        let mut taken: Vec<(String, ColorSpace)> = Vec::new();
        assert(taken.deep_view() =~= Seq::empty());
        std::mem::swap(&mut taken, &mut self.texture_color_spaces);
        taken
    }
}

/// The inputs of a material cannot be put in order: some of them read from
/// each other in a circle, or wait for an input that reads from nothing but
/// inputs that are not declared. `inputs` names the inputs that could not be
/// put in order.
#[derive(Debug)]
pub struct CyclicDependency {
    pub inputs: Vec<&'static str>,
}

/// The declared outputs, each with its shader socket in front.
pub open spec fn bound_outputs(outputs: Seq<OutputModel>) -> Seq<(SocketModel, OutputModel)> {
    outputs.map_values(|output: OutputModel| (output.shader_socket, output))
}

/// Position of the first output bound to `socket`.
pub open spec fn output_index(outputs: Seq<OutputModel>, socket: SocketModel) -> Option<int> {
    assoc_index(bound_outputs(outputs), socket)
}

/// The names of those of the first `n` inputs that `sorted` does not hold.
pub open spec fn unresolved(inputs: Seq<InputModel>, sorted: Seq<usize>, n: int) -> Seq<Seq<char>>
    decreases n,
{
    if n <= 0 {
        Seq::empty()
    } else {
        let acc = unresolved(inputs, sorted, n - 1);
        if sorted.contains((n - 1) as usize) {
            acc
        } else {
            acc.push(inputs[n - 1].id)
        }
    }
}

/// The greatest right edge among the first `n` assembled inputs; 0 where there
/// is none.
pub open spec fn widest(inputs: BuiltInputs, n: int) -> int
    decreases n,
{
    if n <= 0 {
        0
    } else if n == 1 {
        inputs[0].1.x_max
    } else {
        max_int(widest(inputs, n - 1), inputs[n - 1].1.x_max)
    }
}

/// The outputs and inputs that are selected to be built, both in the reverse
/// of the order in which they are built.
pub struct Selection {
    /// Positions of the selected outputs.
    pub outputs: Seq<usize>,
    /// Positions of the inputs to assemble; an input may occur more than once.
    pub inputs: Seq<usize>,
}

/// The inputs assembled so far, and the nodes placed for them.
pub struct InputsState {
    pub inputs: BuiltInputs,
    pub nodes: Seq<BuiltNodeModel>,
}

/// How far the assembly of the outputs has come.
pub struct OutputsState {
    /// The nodes placed so far.
    pub nodes: Seq<BuiltNodeModel>,
    /// What feeds the sockets of the shader node.
    pub links: Seq<(SocketModel, BuiltRefModel)>,
    /// The right edge of everything placed.
    pub x_max: int,
    /// The row in which the next output begins.
    pub y: int,
}

/// A builder together with the order of its inputs.
pub struct Plan {
    pub builder: BuilderModel,
    pub order: Seq<usize>,
}

impl Plan {
    /// The walks from the first `n` inputs named by `dependencies`, one after
    /// the other.
    pub open spec fn walks(self, dependencies: Seq<Seq<char>>, n: int) -> Seq<usize>
        decreases n,
    {
        if n <= 0 {
            Seq::empty()
        } else {
            self.walks(dependencies, n - 1) + walk(
                self.builder.inputs,
                self.order,
                self.order.len() as int,
                input_index(self.builder.inputs, dependencies[n - 1]).unwrap() as usize,
            )
        }
    }

    /// The shader socket that is looked at in the `k`-th place: the sockets are
    /// gone through from the last to the first.
    pub open spec fn socket(self, k: int) -> SocketModel {
        self.builder.shader.input_sockets[self.builder.shader.input_sockets.len() - 1 - k]
    }

    /// What is selected after the first `n` shader sockets are looked at: for
    /// each socket that an output is bound to, the first such output, and the
    /// walks from the inputs that it reads from.
    pub open spec fn selection(self, n: int) -> Selection
        decreases n,
    {
        if n <= 0 {
            Selection { outputs: Seq::empty(), inputs: Seq::empty() }
        } else {
            let acc = self.selection(n - 1);
            match output_index(self.builder.outputs, self.socket(n - 1)) {
                Some(o) => {
                    let dependencies = self.builder.outputs[o].dependencies();
                    Selection {
                        outputs: acc.outputs.push(o as usize),
                        inputs: acc.inputs + self.walks(dependencies, dependencies.len() as int),
                    }
                },
                None => acc,
            }
        }
    }

    /// Whether every input named by `dependencies` is declared.
    pub open spec fn declared(self, dependencies: Seq<Seq<char>>) -> bool {
        forall|d: int|
            0 <= d < dependencies.len() ==> input_index(
                self.builder.inputs,
                #[trigger] dependencies[d],
            ) is Some
    }

    /// Whether every input is declared that the output selected for the shader
    /// socket in the `k`-th place reads from.
    pub open spec fn socket_ready(self, k: int) -> bool {
        match output_index(self.builder.outputs, self.socket(k)) {
            Some(o) => self.declared(self.builder.outputs[o].dependencies()),
            None => true,
        }
    }

    /// Everything that is selected.
    pub open spec fn selected(self) -> Selection {
        self.selection(self.builder.shader.input_sockets.len() as int)
    }

    /// The input that is assembled in the `k`-th place, unless it is assembled
    /// already: the selected inputs are gone through from the last to the first.
    pub open spec fn input_at(self, k: int) -> InputModel {
        self.builder.inputs[self.selected().inputs[self.selected().inputs.len() - 1 - k] as int]
    }

    /// The assembly of the input in the `k`-th place.
    pub open spec fn input_build(self, k: int) -> InputBuild
        decreases k, 1int,
    {
        let before = self.inputs_state(k);
        InputBuild { input: self.input_at(k), inputs: before.inputs, nodes: before.nodes }
    }

    /// The inputs assembled after the first `k` places.
    pub open spec fn inputs_state(self, k: int) -> InputsState
        decreases k, 0int,
    {
        if k <= 0 {
            InputsState { inputs: Seq::empty(), nodes: Seq::empty() }
        } else {
            let before = self.inputs_state(k - 1);
            if has_key(before.inputs, self.input_at(k - 1).id) {
                before
            } else {
                let b = self.input_build(k - 1);
                InputsState { inputs: b.inputs_after(), nodes: b.nodes_after() }
            }
        }
    }

    /// Whether the input in the `k`-th place is assembled already or can be.
    pub open spec fn input_ready(self, k: int) -> bool {
        has_key(self.inputs_state(k).inputs, self.input_at(k).id) || self.input_build(k).ready()
    }

    /// All assembled inputs.
    pub open spec fn built_inputs(self) -> InputsState {
        self.inputs_state(self.selected().inputs.len() as int)
    }

    /// The column in which the outputs begin.
    pub open spec fn output_x(self) -> int {
        widest(self.built_inputs().inputs, self.built_inputs().inputs.len() as int) + NODE_MARGIN
    }

    /// The output that is assembled in the `k`-th place: the selected outputs
    /// are gone through from the last to the first.
    pub open spec fn output_at(self, k: int) -> OutputModel {
        self.builder.outputs[self.selected().outputs[self.selected().outputs.len() - 1 - k] as int]
    }

    /// The assembly of the output in the `k`-th place.
    pub open spec fn output_build(self, k: int) -> OutputBuild
        decreases k, 1int,
    {
        let before = self.outputs_state(k);
        OutputBuild {
            output: self.output_at(k),
            inputs: self.built_inputs().inputs,
            nodes: before.nodes,
            position: (self.output_x(), before.y),
        }
    }

    /// The assembly of the outputs after the first `k` places.
    pub open spec fn outputs_state(self, k: int) -> OutputsState
        decreases k, 0int,
    {
        if k <= 0 {
            OutputsState {
                nodes: self.built_inputs().nodes,
                links: Seq::empty(),
                x_max: self.output_x() - NODE_MARGIN,
                y: 0,
            }
        } else {
            let before = self.outputs_state(k - 1);
            let b = self.output_build(k - 1);
            OutputsState {
                nodes: b.nodes_after(),
                links: assoc_put(before.links, b.output.shader_socket, b.source()),
                x_max: b.x_max_after(before.x_max),
                y: b.y_max_after(before.y) + NODE_MARGIN,
            }
        }
    }

    /// Whether the output in the `k`-th place can be assembled, and the row
    /// after it is within the range of coordinates.
    pub open spec fn output_ready(self, k: int) -> bool {
        &&& self.output_build(k).ready()
        &&& self.outputs_state(k + 1).y <= i64::MAX
    }

    /// The assembly after all outputs.
    pub open spec fn built_outputs(self) -> OutputsState {
        self.outputs_state(self.selected().outputs.len() as int)
    }

    /// The column of the shader node.
    pub open spec fn shader_x(self) -> int {
        self.built_outputs().x_max + NODE_MARGIN
    }

    /// The shader node, before the nodes are moved.
    pub open spec fn shader_node(self) -> BuiltNodeModel {
        BuiltNodeModel {
            kind: self.builder.shader,
            position: (self.shader_x(), 0),
            properties: Seq::empty(),
            socket_values: self.builder.shader_socket_values,
            socket_links: self.built_outputs().links,
        }
    }

    /// All nodes where they are placed at first: top down and left to right
    /// from the origin.
    pub open spec fn placed(self) -> Seq<BuiltNodeModel> {
        self.built_outputs().nodes.push(self.shader_node())
    }

    /// All nodes where they are in the end: moved so that the shader node is
    /// in the origin, and mirrored at the horizontal axis.
    pub open spec fn nodes(self) -> Seq<BuiltNodeModel> {
        Seq::new(
            self.placed().len(),
            |i: int| self.placed()[i].moved_x(-self.shader_x()).mirrored_y(),
        )
    }

    /// Whether the node in the `i`-th place can be moved within the range of
    /// coordinates.
    pub open spec fn movable(self, i: int) -> bool {
        &&& i64::MIN <= self.placed()[i].position.0 - self.shader_x() <= i64::MAX
        &&& i64::MIN < self.placed()[i].position.1
    }

    /// Whether the material can be built: the inputs that the selected outputs
    /// read from are declared, and every selected input and output can be
    /// assembled in its turn, within the range of coordinates.
    pub open spec fn ready(self) -> bool {
        &&& in_bounds(self.order, self.builder.inputs.len() as int)
        &&& forall|k: int|
            0 <= k < self.builder.shader.input_sockets.len() ==> #[trigger] self.socket_ready(k)
        &&& forall|k: int| 0 <= k < self.selected().inputs.len() ==> #[trigger] self.input_ready(k)
        &&& self.output_x() <= i64::MAX
        &&& forall|k: int|
            0 <= k < self.selected().outputs.len() ==> #[trigger] self.output_ready(k)
        &&& self.shader_x() <= i64::MAX
        &&& forall|i: int| 0 <= i < self.placed().len() ==> #[trigger] self.movable(i)
    }
}

impl BuilderModel {
    /// The builder with the order of its inputs, where there is one.
    pub open spec fn plan(self) -> Option<Plan> {
        match sorted_order(self.inputs) {
            Some(order) => Some(Plan { builder: self, order }),
            None => None,
        }
    }

    /// Whether the material can be built, as far as its inputs can be put in
    /// order.
    pub open spec fn buildable(self) -> bool {
        match self.plan() {
            Some(plan) => plan.ready(),
            None => true,
        }
    }

    /// What building the material gives: the finished material, or the names
    /// of the inputs that could not be put in order.
    pub open spec fn built(self) -> Result<BuiltMaterialModel, Seq<Seq<char>>> {
        match self.plan() {
            Some(plan) => Ok(
                BuiltMaterialModel {
                    properties: self.properties,
                    nodes: plan.nodes(),
                    texture_color_spaces: self.texture_color_spaces,
                },
            ),
            None => Err(
                unresolved(self.inputs, SortState::end(self.inputs).sorted, self.inputs.len() as int),
            ),
        }
    }
}


/// Position of the first output bound to `socket`.
pub fn find_output(outputs: &Vec<Output>, socket: &NodeSocketId) -> (r: Option<usize>)
    ensures
        match r {
            Some(i) => output_index(outputs.deep_view(), socket@) == Some(i as int) && i
                < outputs@.len(),
            None => output_index(outputs.deep_view(), socket@) is None,
        },
{
    let ghost bound = bound_outputs(outputs.deep_view());
    let mut i: usize = 0;
    while i < outputs.len()
        invariant
            i <= outputs@.len(),
            bound == bound_outputs(outputs.deep_view()),
            forall|j: int| 0 <= j < i ==> bound[j].0 != socket@,
        decreases outputs@.len() - i,
    {
        if outputs[i].shader_socket.same(socket) {
            proof {
                lemma_first_match(bound, socket@, i as int);
            }
            return Some(i);
        }
        i += 1;
    }
    proof {
        lemma_no_match(bound, socket@);
    }
    None
}

/// Whether `items` holds `item`.
fn holds(items: &Vec<usize>, item: usize) -> (r: bool)
    ensures
        r == items@.contains(item),
{
    let mut i: usize = 0;
    while i < items.len()
        invariant
            i <= items@.len(),
            forall|j: int| 0 <= j < i ==> items@[j] != item,
        decreases items@.len() - i,
    {
        if items[i] == item {
            return true;
        }
        i += 1;
    }
    false
}

/// The greatest right edge among the assembled inputs; 0 where there is none.
fn widest_input(inputs: &Vec<(&'static str, BuiltInput)>) -> (r: i64)
    ensures
        r == widest(inputs.deep_view(), inputs@.len() as int),
{
    if inputs.len() == 0 {
        return 0;
    }
    let mut x_max = inputs[0].1.x_max;
    let mut i: usize = 1;
    while i < inputs.len()
        invariant
            1 <= i <= inputs@.len(),
            x_max == widest(inputs.deep_view(), i as int),
        decreases inputs@.len() - i,
    {
        if inputs[i].1.x_max > x_max {
            x_max = inputs[i].1.x_max;
        }
        i += 1;
    }
    x_max
}

impl MaterialBuilder {
    /// A builder for a material with the shader node `shader` and no
    /// declarations.
    pub fn new(shader: &'static NodeType) -> (r: Self)
        ensures
            r@ == (BuilderModel {
                properties: Seq::empty(),
                shader: shader@,
                shader_socket_values: Seq::empty(),
                inputs: Seq::empty(),
                outputs: Seq::empty(),
                texture_color_spaces: Seq::empty(),
            }),
    {
        let r = MaterialBuilder {
            properties: Vec::new(),
            shader,
            shader_socket_values: Vec::new(),
            inputs: Vec::new(),
            outputs: Vec::new(),
            texture_color_spaces: Vec::new(),
        };
        assert(r.properties.deep_view() =~= Seq::empty());
        assert(r.shader_socket_values.deep_view() =~= Seq::empty());
        assert(r.inputs.deep_view() =~= Seq::empty());
        assert(r.outputs.deep_view() =~= Seq::empty());
        assert(r.texture_color_spaces.deep_view() =~= Seq::empty());
        r
    }

    /// Gives the property `name` of the material a value.
    pub fn property(&mut self, name: &'static str, value: Value) -> (r: &mut Self)
        ensures
            r@ == (BuilderModel {
                properties: assoc_put(old(self)@.properties, name@, value@),
                ..old(self)@
            }),
            *final(self) == *final(r),
    {
        put(&mut self.properties, name, value);
        self
    }

    /// Gives the socket `socket` of the shader node a value.
    pub fn socket_value<S: Into<NodeSocketId>>(&mut self, socket: S, value: Value) -> (r:
        &mut Self)
        requires
            S::obeys_into_spec(),
        ensures
            r@ == (BuilderModel {
                shader_socket_values: assoc_put(
                    old(self)@.shader_socket_values,
                    socket.into_spec()@,
                    value@,
                ),
                ..old(self)@
            }),
            *final(self) == *final(r),
    {
        put(&mut self.shader_socket_values, socket.into(), value);
        self
    }

    /// Notes the colour space of the texture at `path`.
    pub fn texture_color_space(&mut self, path: String, color_space: ColorSpace) -> (r:
        &mut Self)
        ensures
            r@ == (BuilderModel {
                texture_color_spaces: assoc_put(
                    old(self)@.texture_color_spaces,
                    path@,
                    color_space,
                ),
                ..old(self)@
            }),
            *final(self) == *final(r),
    {
        put(&mut self.texture_color_spaces, path, color_space);
        self
    }

    /// Whether an input named `id` is declared.
    pub fn has_input(&self, id: &str) -> (r: bool)
        ensures
            r == (input_index(self@.inputs, id@) is Some),
    {
        find_input(&self.inputs, id).is_some()
    }

    /// The input named `id`; it is declared with an empty pipeline where it is
    /// new.
    pub fn input(&mut self, id: &'static str) -> (r: &mut Input)
        ensures
            match input_index(old(self)@.inputs, id@) {
                Some(i) => *r == old(self).inputs@[i] && final(self).inputs@ == old(
                    self,
                ).inputs@.update(i, *final(r)),
                None => r@ == (InputModel {
                    id: id@,
                    pipeline: Seq::empty(),
                    links: Seq::empty(),
                    properties: Seq::empty(),
                }) && final(self).inputs@ == old(self).inputs@.push(*final(r)),
            },
            final(self).properties == old(self).properties,
            final(self).shader == old(self).shader,
            final(self).shader_socket_values == old(self).shader_socket_values,
            final(self).outputs == old(self).outputs,
            final(self).texture_color_spaces == old(self).texture_color_spaces,
    {
        let at = match find_input(&self.inputs, id) {
            Some(i) => i,
            None => {
                self.inputs.push(Input::new(id));
                self.inputs.len() - 1
            },
        };
        &mut self.inputs[at]
    }

    /// Declares an output that binds the socket `socket` of the shader node to
    /// the socket `source` of the input named `input`.
    pub fn output<S: Into<NodeSocketId>>(
        &mut self,
        socket: S,
        input: &'static str,
        source: &'static str,
    ) -> (r: &mut Output)
        requires
            S::obeys_into_spec(),
        ensures
            r@ == (OutputModel {
                input: crate::nodes::RefModel { target: input@, name: source@ },
                pipeline: Seq::empty(),
                links: Seq::empty(),
                properties: Seq::empty(),
                shader_socket: socket.into_spec()@,
            }),
            final(self).outputs@ == old(self).outputs@.push(*final(r)),
            final(self).properties == old(self).properties,
            final(self).shader == old(self).shader,
            final(self).shader_socket_values == old(self).shader_socket_values,
            final(self).inputs == old(self).inputs,
            final(self).texture_color_spaces == old(self).texture_color_spaces,
    {
        let output = Output {
            input: Ref::new(input, source),
            pipeline: Vec::new(),
            shader_socket: socket.into(),
            links: Vec::new(),
            properties: Vec::new(),
        };
        assert(output.pipeline.deep_view() =~= Seq::empty());
        assert(output.links.deep_view() =~= Seq::empty());
        assert(output.properties.deep_view() =~= Seq::empty());
        self.outputs.push(output);
        let at = self.outputs.len() - 1;
        &mut self.outputs[at]
    }
}


impl MaterialBuilder {
    /// The names of the inputs that `sorted` does not hold.
    fn unresolved(&self, sorted: &Vec<usize>) -> (r: Vec<&'static str>)
        ensures
            r.deep_view() == unresolved(self@.inputs, sorted@, self@.inputs.len() as int),
    {
        let mut names: Vec<&'static str> = Vec::new();
        assert(names.deep_view() =~= Seq::empty());
        let mut i: usize = 0;
        while i < self.inputs.len()
            invariant
                i <= self.inputs@.len(),
                names.deep_view() == unresolved(self@.inputs, sorted@, i as int),
            decreases self.inputs@.len() - i,
        {
            let ghost before = names.deep_view();
            if !holds(sorted, i) {
                names.push(self.inputs[i].id);
                assert(names.deep_view() =~= before.push(self@.inputs[i as int].id));
            }
            i += 1;
        }
        names
    }

    /// Appends the walks from the inputs named by `dependencies`; `false`
    /// where one of them is not declared.
    fn walk_dependencies(
        &self,
        order: &Vec<usize>,
        dependencies: &Vec<&'static str>,
        selected: &mut Vec<usize>,
        Ghost(plan): Ghost<Plan>,
    ) -> (r: bool)
        requires
            plan.builder == self@,
            plan.order == order@,
            in_bounds(order@, self.inputs@.len() as int),
            in_bounds(old(selected)@, self.inputs@.len() as int),
        ensures
            r == plan.declared(dependencies.deep_view()),
            r ==> final(selected)@ == old(selected)@ + plan.walks(
                dependencies.deep_view(),
                dependencies@.len() as int,
            ),
            in_bounds(final(selected)@, self.inputs@.len() as int),
    {
        let ghost before = selected@;
        let ghost names = dependencies.deep_view();
        assert(selected@ =~= before + plan.walks(names, 0));
        let mut d: usize = 0;
        while d < dependencies.len()
            invariant
                d <= dependencies@.len(),
                names == dependencies.deep_view(),
                plan.builder == self@,
                plan.order == order@,
                in_bounds(order@, self.inputs@.len() as int),
                in_bounds(selected@, self.inputs@.len() as int),
                forall|j: int|
                    0 <= j < d ==> input_index(plan.builder.inputs, #[trigger] names[j]) is Some,
                selected@ == before + plan.walks(names, d as int),
            decreases dependencies@.len() - d,
        {
            assert(names[d as int] == dependencies@[d as int]@);
            let dependent = match find_input(&self.inputs, dependencies[d]) {
                Some(dependent) => dependent,
                None => {
                    return false;
                },
            };
            sort_dependencies_recursive(&self.inputs, order, order.len(), selected, dependent);
            assert(selected@ =~= before + (plan.walks(names, d as int) + walk(
                plan.builder.inputs,
                plan.order,
                plan.order.len() as int,
                dependent,
            )));
            d += 1;
        }
        true
    }

    /// Selects the outputs and inputs to build; `None` where a selected output
    /// reads from an input that is not declared.
    fn select(&self, order: &Vec<usize>, Ghost(plan): Ghost<Plan>) -> (r: Option<
        (Vec<usize>, Vec<usize>),
    >)
        requires
            plan.builder == self@,
            plan.order == order@,
            in_bounds(order@, self.inputs@.len() as int),
        ensures
            r is Some <==> forall|k: int|
                0 <= k < plan.builder.shader.input_sockets.len() ==> #[trigger] plan.socket_ready(
                    k,
                ),
            match r {
                Some(selected) => {
                    &&& selected.0@ == plan.selected().outputs
                    &&& selected.1@ == plan.selected().inputs
                    &&& in_bounds(selected.0@, self.outputs@.len() as int)
                    &&& in_bounds(selected.1@, self.inputs@.len() as int)
                },
                None => true,
            },
    {
        let sockets = self.shader.input_sockets;
        let n = sockets.len();
        let mut outputs: Vec<usize> = Vec::new();
        let mut inputs: Vec<usize> = Vec::new();
        let mut k: usize = 0;
        while k < n
            invariant
                k <= n,
                n == sockets@.len(),
                sockets == self.shader.input_sockets,
                plan.builder == self@,
                plan.order == order@,
                in_bounds(order@, self.inputs@.len() as int),
                forall|j: int| 0 <= j < k ==> #[trigger] plan.socket_ready(j),
                outputs@ == plan.selection(k as int).outputs,
                inputs@ == plan.selection(k as int).inputs,
                in_bounds(outputs@, self.outputs@.len() as int),
                in_bounds(inputs@, self.inputs@.len() as int),
            decreases n - k,
        {
            let socket = sockets[n - 1 - k];
            assert(socket@ == plan.socket(k as int));
            match find_output(&self.outputs, &socket) {
                Some(o) => {
                    outputs.push(o);
                    let dependencies = self.outputs[o].dependencies();
                    if !self.walk_dependencies(order, &dependencies, &mut inputs, Ghost(plan)) {
                        assert(!plan.socket_ready(k as int));
                        return None;
                    }
                },
                None => {},
            }
            assert(plan.socket_ready(k as int));
            k += 1;
        }
        Some((outputs, inputs))
    }

    /// Assembles the selected inputs, each one once; `None` where one of them
    /// cannot be assembled.
    fn build_inputs(&self, selected: &Vec<usize>, Ghost(plan): Ghost<Plan>) -> (r: Option<
        (Vec<(&'static str, BuiltInput)>, Vec<BuiltNode>),
    >)
        requires
            plan.builder == self@,
            selected@ == plan.selected().inputs,
            in_bounds(selected@, self.inputs@.len() as int),
        ensures
            r is Some <==> forall|k: int|
                0 <= k < plan.selected().inputs.len() ==> #[trigger] plan.input_ready(k),
            match r {
                Some(built) => {
                    &&& built.0.deep_view() == plan.built_inputs().inputs
                    &&& built.1.deep_view() == plan.built_inputs().nodes
                },
                None => true,
            },
    {
        let mut inputs: Vec<(&'static str, BuiltInput)> = Vec::new();
        let mut nodes: Vec<BuiltNode> = Vec::new();
        assert(inputs.deep_view() =~= Seq::empty());
        assert(nodes.deep_view() =~= Seq::empty());
        let n = selected.len();
        let mut k: usize = 0;
        while k < n
            invariant
                k <= n,
                n == selected@.len(),
                plan.builder == self@,
                selected@ == plan.selected().inputs,
                in_bounds(selected@, self.inputs@.len() as int),
                forall|j: int| 0 <= j < k ==> #[trigger] plan.input_ready(j),
                inputs.deep_view() == plan.inputs_state(k as int).inputs,
                nodes.deep_view() == plan.inputs_state(k as int).nodes,
            decreases n - k,
        {
            let input = &self.inputs[selected[n - 1 - k]];
            assert(input@ == plan.input_at(k as int));
            if find(&inputs, &input.id).is_none() {
                if !input.try_build(&mut inputs, &mut nodes) {
                    assert(!plan.input_ready(k as int));
                    return None;
                }
            }
            assert(plan.input_ready(k as int));
            k += 1;
        }
        Some((inputs, nodes))
    }

    /// Assembles the selected outputs, one below the other, and returns what
    /// feeds the sockets of the shader node and the right edge of everything;
    /// `None` where one of them cannot be assembled.
    fn build_outputs(
        &self,
        selected: &Vec<usize>,
        inputs: &Vec<(&'static str, BuiltInput)>,
        nodes: &mut Vec<BuiltNode>,
        output_x: i64,
        Ghost(plan): Ghost<Plan>,
    ) -> (r: Option<(Vec<(NodeSocketId, BuiltNodeSocketRef)>, i64)>)
        requires
            plan.builder == self@,
            selected@ == plan.selected().outputs,
            in_bounds(selected@, self.outputs@.len() as int),
            inputs.deep_view() == plan.built_inputs().inputs,
            old(nodes).deep_view() == plan.built_inputs().nodes,
            output_x == plan.output_x(),
            output_x - NODE_MARGIN >= i64::MIN,
        ensures
            r is Some <==> forall|k: int|
                0 <= k < plan.selected().outputs.len() ==> #[trigger] plan.output_ready(k),
            match r {
                Some(built) => {
                    &&& final(nodes).deep_view() == plan.built_outputs().nodes
                    &&& built.0.deep_view() == plan.built_outputs().links
                    &&& built.1 == plan.built_outputs().x_max
                },
                None => true,
            },
    {
        let mut links: Vec<(NodeSocketId, BuiltNodeSocketRef)> = Vec::new();
        assert(links.deep_view() =~= Seq::empty());
        let mut x_max = output_x - NODE_MARGIN;
        let mut output_y: i64 = 0;
        let n = selected.len();
        let mut k: usize = 0;
        while k < n
            invariant
                k <= n,
                n == selected@.len(),
                plan.builder == self@,
                selected@ == plan.selected().outputs,
                in_bounds(selected@, self.outputs@.len() as int),
                inputs.deep_view() == plan.built_inputs().inputs,
                output_x == plan.output_x(),
                forall|j: int| 0 <= j < k ==> #[trigger] plan.output_ready(j),
                nodes.deep_view() == plan.outputs_state(k as int).nodes,
                links.deep_view() == plan.outputs_state(k as int).links,
                x_max == plan.outputs_state(k as int).x_max,
                output_y == plan.outputs_state(k as int).y,
            decreases n - k,
        {
            let output = &self.outputs[selected[n - 1 - k]];
            assert(output@ == plan.output_at(k as int));
            assert(plan.output_build(k as int) == output.assembling(
                inputs.deep_view(),
                nodes.deep_view(),
                [output_x, output_y],
            ));
            let (socket, source) = match output.try_build(
                inputs,
                nodes,
                [output_x, output_y],
                &mut x_max,
                &mut output_y,
            ) {
                Some(link) => link,
                None => {
                    assert(!plan.output_ready(k as int));
                    return None;
                },
            };
            if output_y > i64::MAX - NODE_MARGIN {
                assert(!plan.output_ready(k as int));
                return None;
            }
            output_y = output_y + NODE_MARGIN;
            put(&mut links, socket, source);
            assert(plan.output_ready(k as int));
            k += 1;
        }
        Some((links, x_max))
    }

    /// Whether every node can be moved by `shader_x` to the left and mirrored
    /// within the range of coordinates.
    fn all_movable(nodes: &Vec<BuiltNode>, shader_x: i64, Ghost(plan): Ghost<Plan>) -> (r: bool)
        requires
            nodes.deep_view() == plan.placed(),
            shader_x == plan.shader_x(),
        ensures
            r == (forall|i: int| 0 <= i < plan.placed().len() ==> #[trigger] plan.movable(i)),
    {
        let mut i: usize = 0;
        while i < nodes.len()
            invariant
                i <= nodes@.len(),
                nodes.deep_view() == plan.placed(),
                shader_x == plan.shader_x(),
                forall|j: int| 0 <= j < i ==> #[trigger] plan.movable(j),
            decreases nodes@.len() - i,
        {
            let position = nodes[i].position();
            assert(nodes@[i as int]@ == plan.placed()[i as int]);
            let fits = if shader_x >= 0 {
                position[0] >= i64::MIN + shader_x
            } else {
                position[0] <= i64::MAX + shader_x
            };
            if !fits || position[1] == i64::MIN {
                assert(!plan.movable(i as int));
                return false;
            }
            assert(plan.movable(i as int));
            i += 1;
        }
        true
    }

    /// Moves every node so that the shader node, at `shader_x`, comes to lie in
    /// the origin, and mirrors it at the horizontal axis.
    fn rebase(nodes: &mut Vec<BuiltNode>, shader_x: i64, Ghost(plan): Ghost<Plan>)
        requires
            old(nodes).deep_view() == plan.placed(),
            shader_x == plan.shader_x(),
            shader_x > i64::MIN,
            forall|i: int| 0 <= i < plan.placed().len() ==> #[trigger] plan.movable(i),
        ensures
            final(nodes).deep_view() == plan.nodes(),
    {
        let n = nodes.len();
        let mut i: usize = 0;
        while i < n
            invariant
                i <= n,
                n == nodes@.len(),
                n == plan.placed().len(),
                shader_x == plan.shader_x(),
                shader_x > i64::MIN,
                forall|i: int| 0 <= i < plan.placed().len() ==> #[trigger] plan.movable(i),
                forall|j: int| 0 <= j < i ==> (#[trigger] nodes@[j])@ == plan.nodes()[j],
                forall|j: int| i <= j < n ==> (#[trigger] nodes@[j])@ == plan.placed()[j],
            decreases n - i,
        {
            assert(plan.movable(i as int));
            let node = &mut nodes[i];
            node.offset_x(-shader_x);
            node.invert_y();
            i += 1;
        }
        assert(nodes.deep_view() =~= plan.nodes());
    }

    /// Compiles the declarations into the finished material, where that can be
    /// done; see [`MaterialBuilder::build`]. The result is `None` where the
    /// material cannot be built: where something that is read is not declared
    /// or not supplied, or the layout leaves the range of coordinates.
    pub fn try_build(self) -> (r: Option<Result<BuiltMaterialData, CyclicDependency>>)
        ensures
            r is Some <==> self@.buildable(),
            match r {
                Some(Ok(data)) => self@.built() == Ok::<BuiltMaterialModel, Seq<Seq<char>>>(data@),
                Some(Err(error)) => self@.built() == Err::<BuiltMaterialModel, Seq<Seq<char>>>(
                    error.inputs.deep_view(),
                ),
                None => true,
            },
    {
        let count = self.inputs.len();
        proof {
            assert(self@.inputs.len() == count);
            lemma_sorted_order(self@.inputs);
        }
        let (order, edges) = sort_inputs(&self.inputs);
        if edges.len() != 0 {
            let inputs = self.unresolved(&order);
            return Some(Err(CyclicDependency { inputs }));
        }
        let ghost plan = Plan { builder: self@, order: order@ };
        assert(self@.plan() == Some(plan));
        let (selected_outputs, selected_inputs) = match self.select(&order, Ghost(plan)) {
            Some(selected) => selected,
            None => {
                return None;
            },
        };
        let (inputs, mut nodes) = match self.build_inputs(&selected_inputs, Ghost(plan)) {
            Some(built) => built,
            None => {
                return None;
            },
        };
        let widest = widest_input(&inputs);
        if widest > i64::MAX - NODE_MARGIN {
            return None;
        }
        let output_x = widest + NODE_MARGIN;
        let (links, x_max) = match self.build_outputs(
            &selected_outputs,
            &inputs,
            &mut nodes,
            output_x,
            Ghost(plan),
        ) {
            Some(built) => built,
            None => {
                return None;
            },
        };
        if x_max > i64::MAX - NODE_MARGIN {
            return None;
        }
        let shader_x = x_max + NODE_MARGIN;
        let no_properties: Vec<(&'static str, Value)> = Vec::new();
        assert(no_properties.deep_view() =~= Seq::empty());
        let ghost before = nodes.deep_view();
        let shader_node = self.shader.build(
            no_properties,
            self.shader_socket_values,
            links,
            [shader_x, 0],
        );
        nodes.push(shader_node);
        assert(nodes.deep_view() =~= before.push(plan.shader_node()));
        if !Self::all_movable(&nodes, shader_x, Ghost(plan)) {
            return None;
        }
        Self::rebase(&mut nodes, shader_x, Ghost(plan));
        Some(
            Ok(
                BuiltMaterialData {
                    properties: self.properties,
                    nodes,
                    texture_color_spaces: self.texture_color_spaces,
                },
            ),
        )
    }

    /// Compiles the declarations into the finished material.
    ///
    /// The inputs are put in an order in which each comes after those it reads
    /// from. For each input socket of the shader node, in the order in which
    /// the node declares them, the first output bound to it is selected, and
    /// with it the inputs that it reads from, directly or through other
    /// inputs. The selected inputs are assembled in that order, each in the
    /// column after those it reads from; then the selected outputs, one margin
    /// right of the inputs and one below the other; then the shader node, one
    /// margin right of everything. Last, all nodes are moved so that the shader
    /// node lies in the origin, and mirrored at the horizontal axis.
    ///
    /// The build fails just where the inputs cannot be put in order: where
    /// inputs read from each other in a circle, or where an input that another
    /// one reads from reads from nothing but inputs that are not declared.
    pub fn build(self) -> (r: Result<BuiltMaterialData, CyclicDependency>)
        requires
            self@.buildable(),
        ensures
            match r {
                Ok(data) => self@.built() == Ok::<BuiltMaterialModel, Seq<Seq<char>>>(data@),
                Err(error) => self@.built() == Err::<BuiltMaterialModel, Seq<Seq<char>>>(
                    error.inputs.deep_view(),
                ),
            },
            r is Ok <==> exists|order: Seq<usize>| is_schedule(self@.inputs, order),
    {
        let count = self.inputs.len();
        proof {
            assert(self@.inputs.len() == count);
            lemma_sorted_order(self@.inputs);
            if let Some(order) = sorted_order(self@.inputs) {
                assert(is_schedule(self@.inputs, order));
            }
        }
        let built = self.try_build();
        built.unwrap()
    }
}

} // verus!
