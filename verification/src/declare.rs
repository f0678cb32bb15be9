//! What a material declares: inputs, outputs and the links between them.
use crate::assoc::{assoc_index, assoc_put, lemma_first_match, lemma_no_match, put};
use crate::nodes::{
    GroupModel, GroupRefModel, NodeGroup, NodeGroupRef, NodeSocketId, Ref, RefModel, SocketModel,
};
use crate::text::str_eq;
use crate::value::{Value, ValueModel};
use vstd::prelude::*;
use vstd::std_specs::convert::{FromSpecImpl, IntoSpec};

verus! {

/// What feeds an input of a group in a pipeline: a socket of a declared input,
/// or a literal.
#[derive(Debug)]
pub enum InputLink {
    Input(Ref),
    Value(Value),
}

/// Mathematical content of an [`InputLink`].
pub enum LinkModel {
    Input(RefModel),
    Value(ValueModel),
}

impl View for InputLink {
    type V = LinkModel;

    open spec fn view(&self) -> LinkModel {
        match self {
            InputLink::Input(r) => LinkModel::Input(r@),
            InputLink::Value(v) => LinkModel::Value(v@),
        }
    }
}

impl DeepView for InputLink {
    type V = LinkModel;

    open spec fn deep_view(&self) -> LinkModel {
        self@
    }
}

impl LinkModel {
    /// Whether the link reads from the input named `target`.
    pub open spec fn reads(self, target: Seq<char>) -> bool {
        match self {
            LinkModel::Input(r) => r.target == target,
            LinkModel::Value(_) => false,
        }
    }
}

impl InputLink {
    /// Whether the link reads from no input.
    pub fn is_dependency_free(&self) -> (r: bool)
        ensures
            r == (self@ is Value),
    {
        match self {
            InputLink::Input(_) => false,
            InputLink::Value(_) => true,
        }
    }

    /// Whether the link reads from the input named `target`.
    pub fn depends_on(&self, target: &str) -> (r: bool)
        ensures
            r == self@.reads(target@),
    {
        match self {
            InputLink::Input(r) => r.depends_on(target),
            InputLink::Value(_) => false,
        }
    }
}

impl From<Ref> for InputLink {
    fn from(r: Ref) -> (ret: Self) {
        InputLink::Input(r)
    }
}

impl FromSpecImpl<Ref> for InputLink {
    open spec fn obeys_from_spec() -> bool {
        true
    }

    open spec fn from_spec(r: Ref) -> Self {
        InputLink::Input(r)
    }
}

impl From<Value> for InputLink {
    fn from(v: Value) -> (ret: Self) {
        InputLink::Value(v)
    }
}

impl FromSpecImpl<Value> for InputLink {
    open spec fn obeys_from_spec() -> bool {
        true
    }

    open spec fn from_spec(v: Value) -> Self {
        InputLink::Value(v)
    }
}

impl From<u32> for NodeSocketId {
    fn from(i: u32) -> (ret: Self) {
        NodeSocketId::Position(i)
    }
}

impl FromSpecImpl<u32> for NodeSocketId {
    open spec fn obeys_from_spec() -> bool {
        true
    }

    open spec fn from_spec(i: u32) -> Self {
        NodeSocketId::Position(i)
    }
}

impl From<&'static str> for NodeSocketId {
    fn from(s: &'static str) -> (ret: Self) {
        NodeSocketId::Name(s)
    }
}

impl FromSpecImpl<&'static str> for NodeSocketId {
    open spec fn obeys_from_spec() -> bool {
        true
    }

    open spec fn from_spec(s: &'static str) -> Self {
        NodeSocketId::Name(s)
    }
}

/// A named pipeline whose result other pipelines can read.
#[derive(Debug)]
pub struct Input {
    pub id: &'static str,
    pub pipeline: Vec<&'static NodeGroup>,
    pub links: Vec<(NodeGroupRef, InputLink)>,
    pub properties: Vec<(NodeGroupRef, Value)>,
}

/// Mathematical content of an [`Input`].
pub struct InputModel {
    pub id: Seq<char>,
    pub pipeline: Seq<GroupModel>,
    pub links: Seq<(GroupRefModel, LinkModel)>,
    pub properties: Seq<(GroupRefModel, ValueModel)>,
}

impl View for Input {
    type V = InputModel;

    open spec fn view(&self) -> InputModel {
        InputModel {
            id: self.id@,
            pipeline: self.pipeline.deep_view(),
            links: self.links.deep_view(),
            properties: self.properties.deep_view(),
        }
    }
}

impl DeepView for Input {
    type V = InputModel;

    open spec fn deep_view(&self) -> InputModel {
        self@
    }
}

impl InputModel {
    /// Whether no link of the input reads from an input.
    pub open spec fn is_dependency_free(self) -> bool {
        forall|i: int| 0 <= i < self.links.len() ==> (#[trigger] self.links[i]).1 is Value
    }

    /// Whether some link of the input reads from the input named `target`.
    pub open spec fn depends_on(self, target: Seq<char>) -> bool {
        exists|i: int| 0 <= i < self.links.len() && (#[trigger] self.links[i]).1.reads(target)
    }
}

impl Input {
    /// An input of the given name with an empty pipeline.
    pub fn new(id: &'static str) -> (r: Self)
        ensures
            r@ == (InputModel {
                id: id@,
                pipeline: Seq::empty(),
                links: Seq::empty(),
                properties: Seq::empty(),
            }),
    {
        let r = Input { id, pipeline: Vec::new(), links: Vec::new(), properties: Vec::new() };
        assert(r.pipeline.deep_view() =~= Seq::empty());
        assert(r.links.deep_view() =~= Seq::empty());
        assert(r.properties.deep_view() =~= Seq::empty());
        r
    }

    /// Whether no link of the input reads from an input.
    pub fn is_dependency_free(&self) -> (r: bool)
        ensures
            r == self@.is_dependency_free(),
    {
        let mut i: usize = 0;
        while i < self.links.len()
            invariant
                i <= self.links@.len(),
                forall|j: int| 0 <= j < i ==> (#[trigger] self@.links[j]).1 is Value,
            decreases self.links@.len() - i,
        {
            if !self.links[i].1.is_dependency_free() {
                assert(!(self@.links[i as int].1 is Value));
                return false;
            }
            i += 1;
        }
        true
    }

    /// Whether some link of the input reads from `other`.
    pub fn depends_on(&self, other: &Input) -> (r: bool)
        ensures
            r == self@.depends_on(other@.id),
    {
        let mut i: usize = 0;
        while i < self.links.len()
            invariant
                i <= self.links@.len(),
                forall|j: int| 0 <= j < i ==> !(#[trigger] self@.links[j]).1.reads(other@.id),
            decreases self.links@.len() - i,
        {
            if self.links[i].1.depends_on(other.id) {
                assert(self@.links[i as int].1.reads(other@.id));
                return true;
            }
            i += 1;
        }
        false
    }

    /// Replaces the pipeline.
    pub fn pipeline(&mut self, pipeline: Vec<&'static NodeGroup>) -> (r: &mut Self)
        ensures
            r@ == (InputModel { pipeline: pipeline.deep_view(), ..old(self)@ }),
            *final(self) == *final(r),
    {
        self.pipeline = pipeline;
        self
    }

    /// Appends a group to the pipeline.
    pub fn push(&mut self, node_group: &'static NodeGroup) -> (r: &mut Self)
        ensures
            r@ == (InputModel { pipeline: old(self)@.pipeline.push(node_group@), ..old(self)@ }),
            *final(self) == *final(r),
    {
        let ghost before = self.pipeline.deep_view();
        self.pipeline.push(node_group);
        assert(self.pipeline.deep_view() =~= before.push(node_group@));
        self
    }

    /// Links the input `socket` of the group `target` to `source`.
    pub fn link<S: Into<InputLink>>(
        &mut self,
        target: &'static NodeGroup,
        socket: &'static str,
        source: S,
    ) -> (r: &mut Self)
        requires
            S::obeys_into_spec(),
        ensures
            r@ == (InputModel {
                links: assoc_put(
                    old(self)@.links,
                    GroupRefModel { group: target.id, name: socket@ },
                    source.into_spec()@,
                ),
                ..old(self)@
            }),
            *final(self) == *final(r),
    {
        put(&mut self.links, NodeGroupRef::new(target, socket), source.into());
        self
    }

    /// Gives the property `property` of the group `target` a value.
    pub fn property(
        &mut self,
        target: &'static NodeGroup,
        property: &'static str,
        value: Value,
    ) -> (r: &mut Self)
        ensures
            r@ == (InputModel {
                properties: assoc_put(
                    old(self)@.properties,
                    GroupRefModel { group: target.id, name: property@ },
                    value@,
                ),
                ..old(self)@
            }),
            *final(self) == *final(r),
    {
        put(&mut self.properties, NodeGroupRef::new(target, property), value);
        self
    }

    /// Names the socket `socket` of this input.
    pub fn socket(&self, socket: &'static str) -> (r: Ref)
        ensures
            r@ == (RefModel { target: self@.id, name: socket@ }),
    {
        Ref::new(self.id, socket)
    }
}

/// The declared inputs, each with its name in front.
pub open spec fn named_inputs(inputs: Seq<InputModel>) -> Seq<(Seq<char>, InputModel)> {
    inputs.map_values(|input: InputModel| (input.id, input))
}

/// Position of the first input named `id`.
pub open spec fn input_index(inputs: Seq<InputModel>, id: Seq<char>) -> Option<int> {
    assoc_index(named_inputs(inputs), id)
}

/// Position of the first input named `id`.
pub fn find_input(inputs: &Vec<Input>, id: &str) -> (r: Option<usize>)
    ensures
        match r {
            Some(i) => input_index(inputs.deep_view(), id@) == Some(i as int) && i
                < inputs@.len(),
            None => input_index(inputs.deep_view(), id@) is None,
        },
{
    let ghost named = named_inputs(inputs.deep_view());
    let mut i: usize = 0;
    while i < inputs.len()
        invariant
            i <= inputs@.len(),
            named == named_inputs(inputs.deep_view()),
            forall|j: int| 0 <= j < i ==> named[j].0 != id@,
        decreases inputs@.len() - i,
    {
        if str_eq(inputs[i].id, id) {
            proof {
                lemma_first_match(named, id@, i as int);
            }
            return Some(i);
        }
        i += 1;
    }
    proof {
        lemma_no_match(named, id@);
    }
    None
}

/// Binds a socket of the shader node to the result of a pipeline, or straight
/// to a socket of an input.
#[derive(Debug)]
pub struct Output {
    pub input: Ref,
    pub pipeline: Vec<&'static NodeGroup>,
    pub links: Vec<(NodeGroupRef, InputLink)>,
    pub properties: Vec<(NodeGroupRef, Value)>,
    pub shader_socket: NodeSocketId,
}

/// Mathematical content of an [`Output`].
pub struct OutputModel {
    pub input: RefModel,
    pub pipeline: Seq<GroupModel>,
    pub links: Seq<(GroupRefModel, LinkModel)>,
    pub properties: Seq<(GroupRefModel, ValueModel)>,
    pub shader_socket: SocketModel,
}

impl View for Output {
    type V = OutputModel;

    open spec fn view(&self) -> OutputModel {
        OutputModel {
            input: self.input@,
            pipeline: self.pipeline.deep_view(),
            links: self.links.deep_view(),
            properties: self.properties.deep_view(),
            shader_socket: self.shader_socket@,
        }
    }
}

impl DeepView for Output {
    type V = OutputModel;

    open spec fn deep_view(&self) -> OutputModel {
        self@
    }
}

impl OutputModel {
    /// The inputs that the first `n` links read from, in the order of the links.
    pub open spec fn link_targets(self, n: int) -> Seq<Seq<char>>
        decreases n,
    {
        if n <= 0 {
            Seq::empty()
        } else {
            let acc = self.link_targets(n - 1);
            match self.links[n - 1].1 {
                LinkModel::Input(r) => acc.push(r.target),
                LinkModel::Value(_) => acc,
            }
        }
    }

    /// The inputs that the output reads from: the bound input where there is no
    /// pipeline, else the inputs that the pipeline's links read from.
    pub open spec fn dependencies(self) -> Seq<Seq<char>> {
        if self.pipeline.len() == 0 {
            seq![self.input.target]
        } else {
            self.link_targets(self.links.len() as int)
        }
    }
}

impl Output {
    /// Replaces the pipeline.
    pub fn pipeline(&mut self, pipeline: Vec<&'static NodeGroup>) -> (r: &mut Self)
        ensures
            r@ == (OutputModel { pipeline: pipeline.deep_view(), ..old(self)@ }),
            *final(self) == *final(r),
    {
        self.pipeline = pipeline;
        self
    }

    /// Gives the property `property` of the group `target` a value.
    pub fn property(
        &mut self,
        target: &'static NodeGroup,
        property: &'static str,
        value: Value,
    ) -> (r: &mut Self)
        ensures
            r@ == (OutputModel {
                properties: assoc_put(
                    old(self)@.properties,
                    GroupRefModel { group: target.id, name: property@ },
                    value@,
                ),
                ..old(self)@
            }),
            *final(self) == *final(r),
    {
        put(&mut self.properties, NodeGroupRef::new(target, property), value);
        self
    }

    /// Appends a group to the pipeline.
    pub fn push(&mut self, node_group: &'static NodeGroup) -> (r: &mut Self)
        ensures
            r@ == (OutputModel { pipeline: old(self)@.pipeline.push(node_group@), ..old(self)@ }),
            *final(self) == *final(r),
    {
        let ghost before = self.pipeline.deep_view();
        self.pipeline.push(node_group);
        assert(self.pipeline.deep_view() =~= before.push(node_group@));
        self
    }

    /// Links the input `socket` of the group `target` to the bound input.
    pub fn link_input(&mut self, target: &'static NodeGroup, socket: &'static str) -> (r:
        &mut Self)
        ensures
            r@ == (OutputModel {
                links: assoc_put(
                    old(self)@.links,
                    GroupRefModel { group: target.id, name: socket@ },
                    LinkModel::Input(old(self)@.input),
                ),
                ..old(self)@
            }),
            *final(self) == *final(r),
    {
        let source = InputLink::Input(self.input);
        put(&mut self.links, NodeGroupRef::new(target, socket), source);
        self
    }

    /// Links the input `socket` of the group `target` to `source`.
    pub fn link<S: Into<InputLink>>(
        &mut self,
        target: &'static NodeGroup,
        socket: &'static str,
        source: S,
    ) -> (r: &mut Self)
        requires
            S::obeys_into_spec(),
        ensures
            r@ == (OutputModel {
                links: assoc_put(
                    old(self)@.links,
                    GroupRefModel { group: target.id, name: socket@ },
                    source.into_spec()@,
                ),
                ..old(self)@
            }),
            *final(self) == *final(r),
    {
        put(&mut self.links, NodeGroupRef::new(target, socket), source.into());
        self
    }

    /// The names of the inputs that the output reads from.
    pub fn dependencies(&self) -> (r: Vec<&'static str>)
        ensures
            r.deep_view() == self@.dependencies(),
    {
        let mut targets: Vec<&'static str> = Vec::new();
        if self.pipeline.len() == 0 {
            targets.push(self.input.target);
            assert(targets.deep_view() =~= seq![self@.input.target]);
            return targets;
        }
        assert(targets.deep_view() =~= Seq::empty());
        let mut i: usize = 0;
        while i < self.links.len()
            invariant
                i <= self.links@.len(),
                targets.deep_view() == self@.link_targets(i as int),
            decreases self.links@.len() - i,
        {
            let ghost before = targets.deep_view();
            assert(self.links@[i as int].1@ == self@.links[i as int].1);
            match &self.links[i].1 {
                InputLink::Input(r) => {
                    targets.push(r.target);
                    assert(targets.deep_view() =~= before.push(r@.target));
                },
                InputLink::Value(_) => {},
            }
            i += 1;
        }
        targets
    }
}

} // verus!
