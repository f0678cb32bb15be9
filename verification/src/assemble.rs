//! Assembling one input and one output.
//!
//! An input goes into the column after the inputs it reads from, below every
//! assembled input that reaches into that column. An output is assembled where
//! it is told to.
use crate::assoc::{assoc_get, assoc_put, put};
use crate::declare::{Input, InputLink, InputModel, LinkModel, Output, OutputModel};
use crate::nodes::{BuiltNode, BuiltNodeModel, BuiltNodeSocketRef, BuiltRefModel, NodeSocketId};
use crate::pipeline::{
    assembly, evaluate_ref, try_build_pipeline, Assembly, BuiltInput, BuiltInputModel,
    BuiltInputs,
};
use crate::placement::max_int;
use vstd::prelude::*;

verus! {

/// What the assembly of one input depends on.
pub struct InputBuild {
    /// The input to assemble.
    pub input: InputModel,
    /// The inputs assembled before.
    pub inputs: BuiltInputs,
    /// The nodes placed before.
    pub nodes: Seq<BuiltNodeModel>,
}

impl InputBuild {
    /// Whether the input that the `i`-th link reads from, if it reads from one,
    /// is assembled, and the column after it is within the range of coordinates.
    pub open spec fn dependency_built(self, i: int) -> bool {
        match self.input.links[i].1 {
            LinkModel::Input(r) => match assoc_get(self.inputs, r.target) {
                Some(other) => other.next_column() <= i64::MAX,
                None => false,
            },
            LinkModel::Value(_) => true,
        }
    }

    /// Whether every input that a link of the input reads from is assembled,
    /// with the column after it within the range of coordinates.
    pub open spec fn dependencies_built(self) -> bool {
        forall|i: int| 0 <= i < self.input.links.len() ==> #[trigger] self.dependency_built(i)
    }

    /// Whether the row after the `i`-th assembled input is within the range of
    /// coordinates, where that input reaches into this input's column.
    pub open spec fn row_fits(self, i: int) -> bool {
        self.x_min() < self.inputs[i].1.x_max ==> self.inputs[i].1.next_row() <= i64::MAX
    }

    /// Whether the row after every assembled input that reaches into this
    /// input's column is within the range of coordinates.
    pub open spec fn rows_fit(self) -> bool {
        forall|i: int| 0 <= i < self.inputs.len() ==> #[trigger] self.row_fits(i)
    }

    /// The leftmost column that is right of the inputs that the first `n` links
    /// read from.
    pub open spec fn column(self, n: int) -> int
        decreases n,
    {
        if n <= 0 {
            0
        } else {
            match self.input.links[n - 1].1 {
                LinkModel::Input(r) => max_int(
                    self.column(n - 1),
                    assoc_get(self.inputs, r.target).unwrap().next_column(),
                ),
                LinkModel::Value(_) => self.column(n - 1),
            }
        }
    }

    /// The column in which the input begins.
    pub open spec fn x_min(self) -> int {
        self.column(self.input.links.len() as int)
    }

    /// The uppermost row that is below those of the first `n` assembled inputs
    /// that reach into the input's column.
    pub open spec fn row(self, n: int) -> int
        decreases n,
    {
        if n <= 0 {
            0
        } else {
            let other = self.inputs[n - 1].1;
            if self.x_min() < other.x_max {
                max_int(self.row(n - 1), other.next_row())
            } else {
                self.row(n - 1)
            }
        }
    }

    /// The row in which the input begins.
    pub open spec fn y_min(self) -> int {
        self.row(self.inputs.len() as int)
    }

    /// The assembly of the input's pipeline.
    pub open spec fn assembly(self) -> Assembly {
        Assembly {
            pipeline: self.input.pipeline,
            position: (self.x_min(), self.y_min()),
            links: self.input.links,
            properties: self.input.properties,
            inputs: self.inputs,
            outputs: Seq::empty(),
            nodes: self.nodes,
        }
    }

    /// The assembled input.
    pub open spec fn built(self) -> BuiltInputModel {
        BuiltInputModel {
            outputs: self.assembly().end().outputs,
            x_max: self.assembly().far_corner().0,
            y_max: self.assembly().far_corner().1,
        }
    }

    /// The assembled inputs after this one is added.
    pub open spec fn inputs_after(self) -> BuiltInputs {
        assoc_put(self.inputs, self.input.id, self.built())
    }

    /// The placed nodes after the input is assembled.
    pub open spec fn nodes_after(self) -> Seq<BuiltNodeModel> {
        self.assembly().end().nodes
    }

    /// Whether the input can be assembled: the inputs it reads from are
    /// assembled, and its place is found and its pipeline assembled within the
    /// range of coordinates.
    pub open spec fn ready(self) -> bool {
        &&& self.dependencies_built()
        &&& self.rows_fit()
        &&& self.assembly().ready()
    }
}

/// What the assembly of one output depends on.
pub struct OutputBuild {
    /// The output to assemble.
    pub output: OutputModel,
    /// The assembled inputs.
    pub inputs: BuiltInputs,
    /// The nodes placed before.
    pub nodes: Seq<BuiltNodeModel>,
    /// Where the output's pipeline begins.
    pub position: (int, int),
}

impl OutputBuild {
    /// The assembly of the output's pipeline.
    pub open spec fn assembly(self) -> Assembly {
        Assembly {
            pipeline: self.output.pipeline,
            position: self.position,
            links: self.output.links,
            properties: self.output.properties,
            inputs: self.inputs,
            outputs: Seq::empty(),
            nodes: self.nodes,
        }
    }

    /// Whether the output passes a socket of an input straight through.
    pub open spec fn is_direct(self) -> bool {
        self.output.pipeline.len() == 0
    }

    /// The name of the single output of the pipeline's last group.
    pub open spec fn result_name(self) -> Seq<char> {
        self.output.pipeline.last().outputs[0].0
    }

    /// The placed socket that feeds the shader socket.
    pub open spec fn source(self) -> BuiltRefModel {
        if self.is_direct() {
            evaluate_ref(self.output.input, self.inputs).unwrap()
        } else {
            assoc_get(self.assembly().end().outputs, self.result_name()).unwrap()
        }
    }

    /// The placed nodes after the output is assembled.
    pub open spec fn nodes_after(self) -> Seq<BuiltNodeModel> {
        if self.is_direct() {
            self.nodes
        } else {
            self.assembly().end().nodes
        }
    }

    /// The right edge of everything, `x_max` before, after the output is
    /// assembled.
    pub open spec fn x_max_after(self, x_max: int) -> int {
        if self.is_direct() {
            x_max
        } else {
            max_int(x_max, self.assembly().far_corner().0)
        }
    }

    /// The lower edge of the outputs, `y_max` before, after the output is
    /// assembled.
    pub open spec fn y_max_after(self, y_max: int) -> int {
        if self.is_direct() {
            y_max
        } else {
            max_int(y_max, self.assembly().far_corner().1)
        }
    }

    /// Whether the output can be assembled: the socket it passes through
    /// exists, or its pipeline can be assembled and ends in a group with
    /// exactly one output.
    pub open spec fn ready(self) -> bool {
        if self.is_direct() {
            evaluate_ref(self.output.input, self.inputs) is Some
        } else {
            &&& self.assembly().ready()
            &&& self.output.pipeline.last().outputs.len() == 1
            &&& assoc_get(self.assembly().end().outputs, self.result_name()) is Some
        }
    }
}

impl Input {
    /// The assembly of this input in the given surroundings.
    pub open spec fn assembling(&self, inputs: BuiltInputs, nodes: Seq<BuiltNodeModel>)
        -> InputBuild {
        InputBuild { input: self@, inputs, nodes }
    }

    /// The column after the inputs that this input reads from; `None` where
    /// one of them is not assembled, or the column after it is out of range.
    fn free_column(&self, inputs: &Vec<(&'static str, BuiltInput)>, Ghost(b): Ghost<InputBuild>)
        -> (r: Option<i64>)
        requires
            b.input == self@,
            b.inputs == inputs.deep_view(),
        ensures
            r is Some <==> b.dependencies_built(),
            r is Some ==> r.unwrap() == b.x_min(),
    {
        let mut x_min: i64 = 0;
        let mut i: usize = 0;
        while i < self.links.len()
            invariant
                i <= self.links@.len(),
                b.input == self@,
                b.inputs == inputs.deep_view(),
                forall|j: int| 0 <= j < i ==> #[trigger] b.dependency_built(j),
                x_min == b.column(i as int),
            decreases self.links@.len() - i,
        {
            assert(b.input.links[i as int].1 == self.links@[i as int].1@);
            match &self.links[i].1 {
                InputLink::Input(r) => {
                    let next = match r.find_input(inputs) {
                        Some(input) => input.checked_next_column(),
                        None => None,
                    };
                    match next {
                        Some(next) => {
                            if next > x_min {
                                x_min = next;
                            }
                        },
                        None => {
                            assert(!b.dependency_built(i as int));
                            return None;
                        },
                    }
                },
                InputLink::Value(_) => {},
            }
            assert(b.dependency_built(i as int));
            i += 1;
        }
        Some(x_min)
    }

    /// The row below the assembled inputs that reach into the column `x_min`;
    /// `None` where it is out of range.
    fn free_row(inputs: &Vec<(&'static str, BuiltInput)>, x_min: i64, Ghost(b): Ghost<InputBuild>)
        -> (r: Option<i64>)
        requires
            b.inputs == inputs.deep_view(),
            x_min == b.x_min(),
        ensures
            r is Some <==> b.rows_fit(),
            r is Some ==> r.unwrap() == b.y_min(),
    {
        let mut y_min: i64 = 0;
        let mut i: usize = 0;
        while i < inputs.len()
            invariant
                i <= inputs@.len(),
                b.inputs == inputs.deep_view(),
                x_min == b.x_min(),
                forall|j: int| 0 <= j < i ==> #[trigger] b.row_fits(j),
                y_min == b.row(i as int),
            decreases inputs@.len() - i,
        {
            let other = &inputs[i].1;
            assert(other@ == b.inputs[i as int].1);
            if other.x_overlaps(x_min) {
                match other.checked_next_row() {
                    Some(next) => {
                        if next > y_min {
                            y_min = next;
                        }
                    },
                    None => {
                        assert(!b.row_fits(i as int));
                        return None;
                    },
                }
            }
            assert(b.row_fits(i as int));
            i += 1;
        }
        Some(y_min)
    }

    /// Assembles the input where it can be assembled: places the nodes of its
    /// pipeline and enters the result under the input's name. Where it cannot
    /// be assembled the result is `false`; `inputs` is then unchanged, and
    /// `nodes` holds what was placed until then.
    pub fn try_build(
        &self,
        inputs: &mut Vec<(&'static str, BuiltInput)>,
        nodes: &mut Vec<BuiltNode>,
    ) -> (r: bool)
        ensures
            r == self.assembling(old(inputs).deep_view(), old(nodes).deep_view()).ready(),
            r ==> final(nodes).deep_view() == self.assembling(
                old(inputs).deep_view(),
                old(nodes).deep_view(),
            ).nodes_after(),
            r ==> final(inputs).deep_view() == self.assembling(
                old(inputs).deep_view(),
                old(nodes).deep_view(),
            ).inputs_after(),
            !r ==> *final(inputs) == *old(inputs),
    {
        let ghost b = self.assembling(inputs.deep_view(), nodes.deep_view());
        let x_min = match self.free_column(inputs, Ghost(b)) {
            Some(x_min) => x_min,
            None => {
                return false;
            },
        };
        let y_min = match Self::free_row(inputs, x_min, Ghost(b)) {
            Some(y_min) => y_min,
            None => {
                return false;
            },
        };
        let mut outputs: Vec<(&'static str, BuiltNodeSocketRef)> = Vec::new();
        assert(outputs.deep_view() =~= Seq::empty());
        let pipeline = self.pipeline.as_slice();
        assert(pipeline.deep_view() =~= self.pipeline.deep_view());
        assert(b.assembly() == assembly(
            pipeline,
            [x_min, y_min],
            &self.links,
            &self.properties,
            inputs,
            outputs.deep_view(),
            nodes.deep_view(),
        ));
        let corner = match try_build_pipeline(
            pipeline,
            [x_min, y_min],
            &self.links,
            &self.properties,
            inputs,
            &mut outputs,
            nodes,
        ) {
            Some(corner) => corner,
            None => {
                return false;
            },
        };
        put(inputs, self.id, BuiltInput { outputs, x_max: corner[0], y_max: corner[1] });
        true
    }

    /// Assembles the input: places the nodes of its pipeline and enters the
    /// result under the input's name.
    pub fn build(&self, inputs: &mut Vec<(&'static str, BuiltInput)>, nodes: &mut Vec<BuiltNode>)
        requires
            self.assembling(old(inputs).deep_view(), old(nodes).deep_view()).ready(),
        ensures
            final(nodes).deep_view() == self.assembling(
                old(inputs).deep_view(),
                old(nodes).deep_view(),
            ).nodes_after(),
            final(inputs).deep_view() == self.assembling(
                old(inputs).deep_view(),
                old(nodes).deep_view(),
            ).inputs_after(),
    {
        let built = self.try_build(inputs, nodes);
        assert(built);
    }
}

impl Output {
    /// The assembly of this output in the given surroundings.
    pub open spec fn assembling(
        &self,
        inputs: BuiltInputs,
        nodes: Seq<BuiltNodeModel>,
        position: [i64; 2],
    ) -> OutputBuild {
        OutputBuild {
            output: self@,
            inputs,
            nodes,
            position: (position[0] as int, position[1] as int),
        }
    }

    /// Assembles the output at `position` where it can be assembled, and
    /// returns the shader socket together with the placed socket that feeds it.
    /// `x_max` and `y_max` grow to hold what the output's pipeline takes up.
    /// Where the output cannot be assembled the result is `None`, and `nodes`
    /// holds what was placed until then.
    pub fn try_build(
        &self,
        inputs: &Vec<(&'static str, BuiltInput)>,
        nodes: &mut Vec<BuiltNode>,
        position: [i64; 2],
        x_max: &mut i64,
        y_max: &mut i64,
    ) -> (r: Option<(NodeSocketId, BuiltNodeSocketRef)>)
        ensures
            r is Some <==> self.assembling(
                inputs.deep_view(),
                old(nodes).deep_view(),
                position,
            ).ready(),
            match r {
                Some(link) => {
                    let b = self.assembling(inputs.deep_view(), old(nodes).deep_view(), position);
                    &&& link.0@ == self@.shader_socket
                    &&& link.1@ == b.source()
                    &&& final(nodes).deep_view() == b.nodes_after()
                    &&& *final(x_max) == b.x_max_after(*old(x_max) as int)
                    &&& *final(y_max) == b.y_max_after(*old(y_max) as int)
                },
                None => true,
            },
    {
        let ghost b = self.assembling(inputs.deep_view(), nodes.deep_view(), position);
        if self.pipeline.len() == 0 {
            return match self.input.find_socket(inputs) {
                Some(input_socket) => Some((self.shader_socket, input_socket)),
                None => None,
            };
        }
        let mut outputs: Vec<(&'static str, BuiltNodeSocketRef)> = Vec::new();
        assert(outputs.deep_view() =~= Seq::empty());
        let pipeline = self.pipeline.as_slice();
        assert(pipeline.deep_view() =~= self.pipeline.deep_view());
        assert(b.assembly() == assembly(
            pipeline,
            position,
            &self.links,
            &self.properties,
            inputs,
            outputs.deep_view(),
            nodes.deep_view(),
        ));
        let corner = match try_build_pipeline(
            pipeline,
            position,
            &self.links,
            &self.properties,
            inputs,
            &mut outputs,
            nodes,
        ) {
            Some(corner) => corner,
            None => {
                return None;
            },
        };
        let last_group = self.pipeline[self.pipeline.len() - 1];
        assert(last_group@ == b.output.pipeline.last());
        if last_group.outputs.len() != 1 {
            return None;
        }
        let output_name = last_group.outputs[0].0;
        assert(output_name@ == b.result_name());
        let source = match crate::assoc::find(&outputs, &output_name) {
            Some(at) => outputs[at].1,
            None => {
                return None;
            },
        };
        if corner[0] > *x_max {
            *x_max = corner[0];
        }
        if corner[1] > *y_max {
            *y_max = corner[1];
        }
        Some((self.shader_socket, source))
    }

    /// Assembles the output at `position` and returns the shader socket
    /// together with the placed socket that feeds it. `x_max` and `y_max` grow
    /// to hold what the output's pipeline takes up.
    pub fn build(
        &self,
        inputs: &Vec<(&'static str, BuiltInput)>,
        nodes: &mut Vec<BuiltNode>,
        position: [i64; 2],
        x_max: &mut i64,
        y_max: &mut i64,
    ) -> (r: (NodeSocketId, BuiltNodeSocketRef))
        requires
            self.assembling(inputs.deep_view(), old(nodes).deep_view(), position).ready(),
        ensures
            r.0@ == self@.shader_socket,
            r.1@ == self.assembling(inputs.deep_view(), old(nodes).deep_view(), position).source(),
            final(nodes).deep_view() == self.assembling(
                inputs.deep_view(),
                old(nodes).deep_view(),
                position,
            ).nodes_after(),
            *final(x_max) == self.assembling(
                inputs.deep_view(),
                old(nodes).deep_view(),
                position,
            ).x_max_after(*old(x_max) as int),
            *final(y_max) == self.assembling(
                inputs.deep_view(),
                old(nodes).deep_view(),
                position,
            ).y_max_after(*old(y_max) as int),
    {
        let link = self.try_build(inputs, nodes, position, x_max, y_max);
        link.unwrap()
    }
}

} // verus!
