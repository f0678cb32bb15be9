//! What is owed to declarations that are in order: they can be built, unless
//! the layout leaves the range of coordinates.
//!
//! Readiness has two sides. A stage is *wired* where everything that it looks
//! up is there; it *fits* where every coordinate that it computes is within
//! range. This module says in terms of the declarations alone when a material
//! is wired.
use crate::assemble::{InputBuild, OutputBuild};
use crate::assoc::{
    assoc_get, assoc_index, has_key, lemma_first_match, lemma_index_is_first, lemma_put_get,
};
use crate::builder::{bound_outputs, output_index, Plan};
use crate::coverage::{
    lemma_dependencies_are_assembled, lemma_selection_in_bounds, lemma_turn_assembles,
};
use crate::declare::{input_index, named_inputs, InputModel, LinkModel, OutputModel};
use crate::group::Expansion;
use crate::growth::{assembles, lemma_inputs_grow};
use crate::resolver::{walk, walk_tail};
use crate::schedule::lemma_sorted_order;
use crate::nodes::{GroupModel, GroupRefModel, RefModel};
use crate::pipeline::{evaluate_link, evaluate_ref, Assembly, BuiltInputs};
use crate::placement::Placement;
use crate::resolver::in_bounds;
use crate::wiring::{lemma_sound_group_exports, lemma_sound_group_is_linked};
use crate::NODE_MARGIN;
use vstd::prelude::*;

verus! {

/// Whether every coordinate that is read or computed to place the node is
/// within range.
pub open spec fn placement_fits(p: Placement) -> bool {
    &&& forall|i: int|
        0 <= i < p.node.links.len() ==> match #[trigger] p.source(i) {
            Some(r) => p.nodes[r.node_index].next_column() <= i64::MAX,
            None => true,
        }
    &&& p.previous_fits()
    &&& p.far_corner().0 <= i64::MAX
    &&& p.far_corner().1 <= i64::MAX
}

/// Whether every fixed link of the node reads from a placed node.
pub open spec fn placement_wired(p: Placement) -> bool {
    forall|i: int|
        0 <= i < p.node.links.len() ==> match #[trigger] p.source(i) {
            Some(r) => 0 <= r.node_index < p.nodes.len(),
            None => false,
        }
}

/// Whether every node of the group is placed within the range of coordinates.
pub open spec fn expansion_fits(e: Expansion) -> bool {
    forall|k: int| 0 <= k < e.group.nodes.len() ==> placement_fits(#[trigger] e.placement(k))
}

/// Whether everything that the group reads is there: what its nodes need from
/// outside, what they read from each other, and what its outputs name.
pub open spec fn expansion_wired(e: Expansion) -> bool {
    &&& forall|k: int| 0 <= k < e.group.nodes.len() ==> #[trigger] e.node_supplied(k)
    &&& forall|k: int| 0 <= k < e.group.nodes.len() ==> placement_wired(#[trigger] e.placement(k))
    &&& e.exports_resolved()
}

/// Whether every group of the pipeline is expanded within the range of
/// coordinates, and so is the step to the next.
pub open spec fn assembly_fits(a: Assembly) -> bool {
    &&& forall|g: int| 0 <= g < a.pipeline.len() ==> expansion_fits(#[trigger] a.expansion(g))
    &&& forall|g: int|
        0 <= g < a.pipeline.len() ==> (#[trigger] a.expansion(g)).end().x_max + NODE_MARGIN
            <= i64::MAX
    &&& i64::MIN <= a.end().x - NODE_MARGIN
}

/// Whether everything that the pipeline reads is there.
pub open spec fn assembly_wired(a: Assembly) -> bool {
    &&& forall|g: int| 0 <= g < a.pipeline.len() ==> #[trigger] a.links_evaluable(g)
    &&& forall|g: int| 0 <= g < a.pipeline.len() ==> expansion_wired(#[trigger] a.expansion(g))
}

/// Whether the place of the input is found and its pipeline assembled within
/// the range of coordinates.
pub open spec fn input_fits(b: InputBuild) -> bool {
    &&& forall|i: int|
        0 <= i < b.input.links.len() ==> match (#[trigger] b.input.links[i]).1 {
            LinkModel::Input(r) => match assoc_get(b.inputs, r.target) {
                Some(other) => other.next_column() <= i64::MAX,
                None => true,
            },
            LinkModel::Value(_) => true,
        }
    &&& b.rows_fit()
    &&& assembly_fits(b.assembly())
}

/// Whether every input that the input reads from is assembled, and everything
/// that its pipeline reads is there.
pub open spec fn input_wired(b: InputBuild) -> bool {
    &&& forall|i: int|
        0 <= i < b.input.links.len() ==> match (#[trigger] b.input.links[i]).1 {
            LinkModel::Input(r) => assoc_get(b.inputs, r.target) is Some,
            LinkModel::Value(_) => true,
        }
    &&& assembly_wired(b.assembly())
}

/// Whether the output's pipeline is assembled within the range of coordinates.
pub open spec fn output_fits(b: OutputBuild) -> bool {
    !b.is_direct() ==> assembly_fits(b.assembly())
}

/// Whether the socket that the output passes through exists, or everything
/// that its pipeline reads is there and the pipeline ends in a group with
/// exactly one output.
pub open spec fn output_wired(b: OutputBuild) -> bool {
    if b.is_direct() {
        evaluate_ref(b.output.input, b.inputs) is Some
    } else {
        &&& assembly_wired(b.assembly())
        &&& b.output.pipeline.last().outputs.len() == 1
        &&& assoc_get(b.assembly().end().outputs, b.result_name()) is Some
    }
}

/// Whether the whole layout of the material is within the range of
/// coordinates.
pub open spec fn plan_fits(plan: Plan) -> bool {
    &&& forall|k: int|
        0 <= k < plan.selected().inputs.len() && assembles(plan, k) ==> input_fits(
            #[trigger] plan.input_build(k),
        )
    &&& plan.output_x() <= i64::MAX
    &&& forall|k: int|
        0 <= k < plan.selected().outputs.len() ==> output_fits(#[trigger] plan.output_build(k))
    &&& forall|k: int|
        0 <= k < plan.selected().outputs.len() ==> (#[trigger] plan.outputs_state(k + 1)).y
            <= i64::MAX
    &&& plan.shader_x() <= i64::MAX
    &&& forall|i: int| 0 <= i < plan.placed().len() ==> #[trigger] plan.movable(i)
}

/// Whether everything that is read while the material is built is there.
pub open spec fn plan_wired(plan: Plan) -> bool {
    &&& in_bounds(plan.order, plan.builder.inputs.len() as int)
    &&& forall|k: int|
        0 <= k < plan.builder.shader.input_sockets.len() ==> #[trigger] plan.socket_ready(k)
    &&& forall|k: int|
        0 <= k < plan.selected().inputs.len() && assembles(plan, k) ==> input_wired(
            #[trigger] plan.input_build(k),
        )
    &&& forall|k: int|
        0 <= k < plan.selected().outputs.len() ==> output_wired(#[trigger] plan.output_build(k))
}

/// A node that is wired and fits can be placed.
pub proof fn lemma_placement_ready(p: Placement)
    requires
        placement_wired(p),
        placement_fits(p),
    ensures
        p.ready(),
{
    assert forall|i: int| 0 <= i < p.node.links.len() implies #[trigger] p.link_resolved(i) by {
        let s = p.source(i);
    }
}

/// A group that is wired and fits can be expanded.
pub proof fn lemma_expansion_ready(e: Expansion)
    requires
        expansion_wired(e),
        expansion_fits(e),
    ensures
        e.ready(),
{
    assert forall|k: int| 0 <= k < e.group.nodes.len() implies #[trigger] e.node_ready(k) by {
        assert(e.node_supplied(k));
        assert(placement_wired(e.placement(k)));
        assert(placement_fits(e.placement(k)));
        lemma_placement_ready(e.placement(k));
    }
}

/// A pipeline that is wired and fits can be assembled.
pub proof fn lemma_assembly_ready(a: Assembly)
    requires
        assembly_wired(a),
        assembly_fits(a),
    ensures
        a.ready(),
{
    assert forall|g: int| 0 <= g < a.pipeline.len() implies #[trigger] a.group_ready(g) by {
        assert(a.links_evaluable(g));
        assert(expansion_wired(a.expansion(g)));
        assert(expansion_fits(a.expansion(g)));
        lemma_expansion_ready(a.expansion(g));
    }
}

/// An input that is wired and fits can be assembled.
pub proof fn lemma_input_ready(b: InputBuild)
    requires
        input_wired(b),
        input_fits(b),
    ensures
        b.ready(),
{
    assert forall|i: int| 0 <= i < b.input.links.len() implies #[trigger] b.dependency_built(
        i,
    ) by {
        let link = b.input.links[i];
    }
    lemma_assembly_ready(b.assembly());
}

/// An output that is wired and fits can be assembled.
pub proof fn lemma_output_ready(b: OutputBuild)
    requires
        output_wired(b),
        output_fits(b),
    ensures
        b.ready(),
{
    if !b.is_direct() {
        lemma_assembly_ready(b.assembly());
    }
}

/// A material that is wired and fits can be built.
pub proof fn lemma_plan_ready(plan: Plan)
    requires
        plan_wired(plan),
        plan_fits(plan),
    ensures
        plan.ready(),
{
    assert forall|k: int| 0 <= k < plan.selected().inputs.len() implies #[trigger] plan.input_ready(
        k,
    ) by {
        if assembles(plan, k) {
            assert(input_wired(plan.input_build(k)));
            assert(input_fits(plan.input_build(k)));
            lemma_input_ready(plan.input_build(k));
        }
    }
    assert forall|k: int| 0 <= k < plan.selected().outputs.len() implies #[trigger] plan.output_ready(
        k,
    ) by {
        assert(output_wired(plan.output_build(k)));
        assert(output_fits(plan.output_build(k)));
        assert(plan.outputs_state(k + 1).y <= i64::MAX);
        lemma_output_ready(plan.output_build(k));
    }
}

/// The name by which links and properties address `name` of the group.
pub open spec fn addressed(group: GroupModel, name: Seq<char>) -> GroupRefModel {
    GroupRefModel { group: group.id, name }
}

/// Whether one of the first `k` groups of the pipeline has an output named
/// `name`.
pub open spec fn puts_out(pipeline: Seq<GroupModel>, k: int, name: Seq<char>) -> bool {
    exists|g: int| 0 <= g < k && g < pipeline.len() && has_key((#[trigger] pipeline[g]).outputs, name)
}

/// Whether each input of the `g`-th group of the pipeline is fed: by a link
/// addressed to it, or by the output of that name of an earlier group.
pub open spec fn group_fed<V>(
    pipeline: Seq<GroupModel>,
    links: Seq<(GroupRefModel, V)>,
    g: int,
) -> bool {
    forall|i: int|
        0 <= i < pipeline[g].inputs.len() ==> has_key(
            links,
            addressed(pipeline[g], (#[trigger] pipeline[g].inputs[i]).0),
        ) || puts_out(pipeline, g, pipeline[g].inputs[i].0)
}

/// Whether each property of the `g`-th group of the pipeline is given a value.
pub open spec fn group_set<V>(
    pipeline: Seq<GroupModel>,
    properties: Seq<(GroupRefModel, V)>,
    g: int,
) -> bool {
    forall|i: int|
        0 <= i < pipeline[g].properties.len() ==> has_key(
            properties,
            addressed(pipeline[g], (#[trigger] pipeline[g].properties[i]).0),
        )
}

/// A value is found for a key just where some entry has the key.
proof fn lemma_got_is_key<K, V>(s: Seq<(K, V)>, k: K)
    ensures
        assoc_get(s, k) is Some <==> has_key(s, k),
{
}

/// Storing a value under a key that is new appends it.
pub proof fn lemma_got_key<K, V>(s: Seq<(K, V)>, k: K)
    ensures
        !has_key(s, k) ==> forall|v: V| #[trigger] crate::assoc::assoc_put(s, k, v) == s.push((k, v)),
{
}

/// Taking all of a sequence gives the sequence.
proof fn lemma_take_all<T>(s: Seq<T>)
    ensures
        s.take(s.len() as int) == s,
{
    assert(s.take(s.len() as int) =~= s);
}

/// An entry among the first `n` has the key where one among those before has it, or
/// the last of them.
proof fn lemma_key_of_prefix<K, V>(s: Seq<(K, V)>, n: int, k: K)
    requires
        0 < n <= s.len(),
    ensures
        has_key(s.take(n), k) == (has_key(s.take(n - 1), k) || s[n - 1].0 == k),
{
    let a = s.take(n - 1);
    let b = s.take(n);
    if has_key(a, k) {
        let i = choose|i: int| 0 <= i < a.len() && a[i].0 == k;
        assert(b[i].0 == k);
    }
    if s[n - 1].0 == k {
        assert(b[n - 1].0 == k);
    }
    if has_key(b, k) {
        let i = choose|i: int| 0 <= i < b.len() && b[i].0 == k;
        if i < n - 1 {
            assert(a[i].0 == k);
        }
    }
}

/// The names under which a pipeline's outputs are found after a group has
/// added its own: those from before, and those of the group's outputs.
proof fn lemma_exported_keys(e: Expansion, n: int, name: Seq<char>)
    requires
        0 <= n <= e.group.outputs.len(),
    ensures
        has_key(e.exported(n), name) == (has_key(e.outputs, name) || has_key(
            e.group.outputs.take(n),
            name,
        )),
    decreases n,
{
    if n > 0 {
        lemma_exported_keys(e, n - 1, name);
        lemma_key_of_prefix(e.group.outputs, n, name);
        lemma_put_get(
            e.exported(n - 1),
            e.group.outputs[n - 1].0,
            assoc_get(e.end().outputs, e.group.outputs[n - 1].1).unwrap(),
            name,
        );
    } else {
        assert(e.group.outputs.take(0).len() == 0);
    }
}

/// The names under which a pipeline's outputs are found after its first `k`
/// groups: those it started from, and those of the outputs of these groups.
pub proof fn lemma_assembly_keys(a: Assembly, k: int, name: Seq<char>)
    requires
        0 <= k <= a.pipeline.len(),
    ensures
        has_key(a.state(k).outputs, name) == (has_key(a.outputs, name) || puts_out(
            a.pipeline,
            k,
            name,
        )),
    decreases k,
{
    if k > 0 {
        lemma_assembly_keys(a, k - 1, name);
        let e = a.expansion(k - 1);
        lemma_exported_keys(e, e.group.outputs.len() as int, name);
        lemma_take_all(e.group.outputs);
        if puts_out(a.pipeline, k, name) {
            let g = choose|g: int|
                0 <= g < k && g < a.pipeline.len() && has_key(
                    (#[trigger] a.pipeline[g]).outputs,
                    name,
                );
            if g < k - 1 {
                assert(puts_out(a.pipeline, k - 1, name));
            }
        }
        if puts_out(a.pipeline, k - 1, name) {
            let g = choose|g: int|
                0 <= g < k - 1 && g < a.pipeline.len() && has_key(
                    (#[trigger] a.pipeline[g]).outputs,
                    name,
                );
            assert(has_key(a.pipeline[g].outputs, name));
        }
        if has_key(a.pipeline[k - 1].outputs, name) {
            assert(puts_out(a.pipeline, k, name));
        }
    }
}

/// The names under which the links of a group are found: those of the links
/// addressed to the group.
proof fn lemma_group_links_keys(a: Assembly, g: int, n: int, name: Seq<char>)
    requires
        0 <= g < a.pipeline.len(),
        0 <= n <= a.links.len(),
    ensures
        has_key(a.group_links(g, n), name) == has_key(
            a.links.take(n),
            addressed(a.pipeline[g], name),
        ),
    decreases n,
{
    if n > 0 {
        lemma_group_links_keys(a, g, n - 1, name);
        lemma_key_of_prefix(a.links, n, addressed(a.pipeline[g], name));
        let link = a.links[n - 1];
        if link.0.group == a.pipeline[g].id {
            lemma_put_get(
                a.group_links(g, n - 1),
                link.0.name,
                evaluate_link(link.1, a.inputs).unwrap(),
                name,
            );
        }
    } else {
        assert(a.links.take(0).len() == 0);
    }
}

/// The names under which the properties of a group are found: those of the
/// properties addressed to the group.
proof fn lemma_group_properties_keys(a: Assembly, g: int, n: int, name: Seq<char>)
    requires
        0 <= g < a.pipeline.len(),
        0 <= n <= a.properties.len(),
    ensures
        has_key(a.group_properties(g, n), name) == has_key(
            a.properties.take(n),
            addressed(a.pipeline[g], name),
        ),
    decreases n,
{
    if n > 0 {
        lemma_group_properties_keys(a, g, n - 1, name);
        lemma_key_of_prefix(a.properties, n, addressed(a.pipeline[g], name));
        let property = a.properties[n - 1];
        if property.0.group == a.pipeline[g].id {
            lemma_put_get(a.group_properties(g, n - 1), property.0.name, property.1, name);
        }
    } else {
        assert(a.properties.take(0).len() == 0);
    }
}

/// Where the inputs of a group are fed and its properties are given values,
/// each of its nodes is supplied; and where the group is sound besides,
/// everything that it reads is there.
pub proof fn lemma_group_is_wired(a: Assembly, g: int)
    requires
        0 <= g < a.pipeline.len(),
        a.pipeline[g].valid(),
        group_fed(a.pipeline, a.links, g),
        group_set(a.pipeline, a.properties, g),
    ensures
        expansion_wired(a.expansion(g)),
{
    let e = a.expansion(g);
    let group = a.pipeline[g];
    lemma_take_all(a.links);
    lemma_take_all(a.properties);
    assert forall|k: int| 0 <= k < group.nodes.len() implies #[trigger] e.node_supplied(k) by {
        assert forall|i: int|
            0 <= i < group.inputs.len() && (#[trigger] group.inputs[i]).1.target
                == group.nodes[k].id implies e.input_link(group.inputs[i].0) is Some by {
            let name = group.inputs[i].0;
            lemma_group_links_keys(a, g, a.links.len() as int, name);
            lemma_assembly_keys(a, g, name);
            lemma_got_is_key(e.outside_links, name);
            lemma_got_is_key(e.outputs, name);
        }
        assert forall|i: int|
            0 <= i < group.properties.len() && (#[trigger] group.properties[i]).1.target
                == group.nodes[k].id implies assoc_get(
            e.outside_properties,
            group.properties[i].0,
        ) is Some by {
            let name = group.properties[i].0;
            lemma_group_properties_keys(a, g, a.properties.len() as int, name);
            lemma_got_is_key(e.outside_properties, name);
        }
    }
    assert forall|k: int| 0 <= k < group.nodes.len() implies placement_wired(
        #[trigger] e.placement(k),
    ) by {
        let p = e.placement(k);
        assert forall|i: int| 0 <= i < p.node.links.len() implies match #[trigger] p.source(i) {
            Some(r) => 0 <= r.node_index < p.nodes.len(),
            None => false,
        } by {
            lemma_sound_group_is_linked(e, k, i);
        }
    }
    lemma_sound_group_exports(e);
}

/// The pipeline of the first declared input named `id`.
pub open spec fn pipeline_of(inputs: Seq<InputModel>, id: Seq<char>) -> Seq<GroupModel> {
    inputs[input_index(inputs, id).unwrap()].pipeline
}

/// Whether the reference names a socket that a declared input puts out.
pub open spec fn ref_sound(inputs: Seq<InputModel>, r: RefModel) -> bool {
    &&& input_index(inputs, r.target) is Some
    &&& puts_out(pipeline_of(inputs, r.target), pipeline_of(inputs, r.target).len() as int, r.name)
}

/// Whether the pipeline holds a group with the handle `group`.
pub open spec fn in_pipeline(pipeline: Seq<GroupModel>, group: u32) -> bool {
    exists|g: int| 0 <= g < pipeline.len() && (#[trigger] pipeline[g]).id == group
}

/// Whether the link can be followed: it feeds a literal, or it reads from a
/// declared input, and from a socket that this input puts out where the link
/// is addressed to a group of the pipeline.
pub open spec fn link_sound(
    inputs: Seq<InputModel>,
    pipeline: Seq<GroupModel>,
    link: (GroupRefModel, LinkModel),
) -> bool {
    match link.1 {
        LinkModel::Input(r) => input_index(inputs, r.target) is Some && (in_pipeline(
            pipeline,
            link.0.group,
        ) ==> ref_sound(inputs, r)),
        LinkModel::Value(_) => true,
    }
}

/// Whether the pipeline is in order: its groups are sound, their inputs are
/// fed and their properties given values, and its links can be followed.
pub open spec fn pipeline_sound<V>(
    inputs: Seq<InputModel>,
    pipeline: Seq<GroupModel>,
    links: Seq<(GroupRefModel, LinkModel)>,
    properties: Seq<(GroupRefModel, V)>,
) -> bool {
    &&& forall|g: int| 0 <= g < pipeline.len() ==> (#[trigger] pipeline[g]).valid()
    &&& forall|g: int| 0 <= g < pipeline.len() ==> #[trigger] group_fed(pipeline, links, g)
    &&& forall|g: int| 0 <= g < pipeline.len() ==> #[trigger] group_set(pipeline, properties, g)
    &&& forall|l: int| 0 <= l < links.len() ==> link_sound(inputs, pipeline, #[trigger] links[l])
}

/// Whether the input is in order.
pub open spec fn input_sound(inputs: Seq<InputModel>, input: InputModel) -> bool {
    pipeline_sound(inputs, input.pipeline, input.links, input.properties)
}

/// Whether the output is in order: it passes through a socket that a declared
/// input puts out, or its pipeline is in order and ends in a group with
/// exactly one output.
pub open spec fn output_sound(inputs: Seq<InputModel>, output: OutputModel) -> bool {
    if output.pipeline.len() == 0 {
        ref_sound(inputs, output.input)
    } else {
        &&& pipeline_sound(inputs, output.pipeline, output.links, output.properties)
        &&& output.pipeline.last().outputs.len() == 1
    }
}

/// Whether no two declared inputs have the same name.
pub open spec fn names_distinct(inputs: Seq<InputModel>) -> bool {
    forall|i: int, j: int|
        0 <= i < j < inputs.len() ==> (#[trigger] inputs[i]).id != (#[trigger] inputs[j]).id
}

/// Whether the declarations are in order: no two inputs have the same name,
/// the selected outputs read from declared inputs, and every selected input
/// and output is in order.
pub open spec fn consistent(plan: Plan) -> bool {
    &&& names_distinct(plan.builder.inputs)
    &&& forall|k: int|
        0 <= k < plan.builder.shader.input_sockets.len() ==> #[trigger] plan.socket_ready(k)
    &&& forall|k: int|
        0 <= k < plan.selected().inputs.len() ==> input_sound(
            plan.builder.inputs,
            #[trigger] plan.input_at(k),
        )
    &&& forall|k: int|
        0 <= k < plan.selected().outputs.len() ==> output_sound(
            plan.builder.inputs,
            #[trigger] plan.output_at(k),
        )
}

/// Whether the assembled input holds every socket that the pipeline of the
/// declared input of its name puts out.
pub open spec fn entry_sound(
    inputs: Seq<InputModel>,
    entry: (Seq<char>, crate::pipeline::BuiltInputModel),
) -> bool {
    forall|name: Seq<char>| #[trigger]
        puts_out(
            pipeline_of(inputs, entry.0),
            pipeline_of(inputs, entry.0).len() as int,
            name,
        ) ==> has_key(entry.1.outputs, name)
}

/// Whether every assembled input holds what its pipeline puts out.
pub open spec fn table_sound(inputs: Seq<InputModel>, assembled: BuiltInputs) -> bool {
    forall|t: int| 0 <= t < assembled.len() ==> entry_sound(inputs, #[trigger] assembled[t])
}

/// Links that can be followed in the declarations can be followed among the
/// assembled inputs, once the inputs that they read from are assembled.
proof fn lemma_links_evaluable(a: Assembly, g: int, inputs: Seq<InputModel>)
    requires
        0 <= g < a.pipeline.len(),
        table_sound(inputs, a.inputs),
        forall|l: int| 0 <= l < a.links.len() ==> link_sound(inputs, a.pipeline, #[trigger] a.links[l]),
        forall|l: int|
            0 <= l < a.links.len() ==> match (#[trigger] a.links[l]).1 {
                LinkModel::Input(r) => has_key(a.inputs, r.target),
                LinkModel::Value(_) => true,
            },
    ensures
        a.links_evaluable(g),
{
    assert forall|l: int|
        0 <= l < a.links.len() && (#[trigger] a.links[l]).0.group
            == a.pipeline[g].id implies evaluate_link(a.links[l].1, a.inputs) is Some by {
        let link = a.links[l];
        assert(link_sound(inputs, a.pipeline, link));
        if let LinkModel::Input(r) = link.1 {
            assert(a.pipeline[g].id == link.0.group);
            assert(in_pipeline(a.pipeline, link.0.group));
            assert(ref_sound(inputs, r));
            assert(has_key(a.inputs, r.target));
            lemma_index_is_first(a.inputs, r.target);
            let t = assoc_index(a.inputs, r.target).unwrap();
            assert(entry_sound(inputs, a.inputs[t]));
            assert(a.inputs[t].0 == r.target);
            assert(puts_out(
                pipeline_of(inputs, a.inputs[t].0),
                pipeline_of(inputs, a.inputs[t].0).len() as int,
                r.name,
            ));
            assert(has_key(a.inputs[t].1.outputs, r.name));
            lemma_got_is_key(a.inputs[t].1.outputs, r.name);
        }
    }
}

/// Every assembled input holds what its pipeline puts out.
proof fn lemma_table_sound(plan: Plan, k: int)
    requires
        names_distinct(plan.builder.inputs),
        in_bounds(plan.selected().inputs, plan.builder.inputs.len() as int),
        0 <= k <= plan.selected().inputs.len(),
    ensures
        table_sound(plan.builder.inputs, plan.inputs_state(k).inputs),
    decreases k,
{
    if k > 0 {
        lemma_table_sound(plan, k - 1);
        if assembles(plan, k - 1) {
            let inputs = plan.builder.inputs;
            let m = plan.selected().inputs.len() as int;
            let b = plan.input_build(k - 1);
            let a = b.assembly();
            let before = plan.inputs_state(k - 1).inputs;
            let after = plan.inputs_state(k).inputs;
            let id = plan.input_at(k - 1).id;
            lemma_index_is_first(before, id);
            assert(after == before.push((id, b.built())));
            let at = plan.selected().inputs[m - 1 - (k - 1)] as int;
            assert(inputs[at].id == id);
            let named = named_inputs(inputs);
            assert(named[at].0 == id);
            assert forall|j: int| 0 <= j < at implies named[j].0 != id by {
                assert(inputs[j].id != inputs[at].id);
            }
            lemma_first_match(named, id, at);
            assert(pipeline_of(inputs, id) == a.pipeline);
            assert forall|t: int| 0 <= t < after.len() implies entry_sound(
                inputs,
                #[trigger] after[t],
            ) by {
                if t < before.len() {
                    assert(after[t] == before[t]);
                } else {
                    assert forall|name: Seq<char>| #[trigger]
                        puts_out(
                            pipeline_of(inputs, id),
                            pipeline_of(inputs, id).len() as int,
                            name,
                        ) implies has_key(b.built().outputs, name) by {
                        lemma_assembly_keys(a, a.pipeline.len() as int, name);
                    }
                }
            }
        }
    }
}

/// An input that is in order finds everything that it reads, once it is its
/// turn.
pub proof fn lemma_input_is_wired(plan: Plan, k: int)
    requires
        plan.builder.inputs.len() <= usize::MAX,
        plan.builder.outputs.len() <= usize::MAX,
        plan.builder.plan() == Some(plan),
        consistent(plan),
        0 <= k < plan.selected().inputs.len(),
    ensures
        input_wired(plan.input_build(k)),
{
    let inputs = plan.builder.inputs;
    let b = plan.input_build(k);
    let a = b.assembly();
    lemma_sorted_order(inputs);
    lemma_selection_in_bounds(plan, plan.builder.shader.input_sockets.len() as int);
    lemma_table_sound(plan, k);
    assert(input_sound(inputs, plan.input_at(k)));
    assert forall|l: int| 0 <= l < b.input.links.len() implies match (#[trigger] b.input.links[l]).1 {
        LinkModel::Input(r) => has_key(b.inputs, r.target),
        LinkModel::Value(_) => true,
    } by {
        assert(link_sound(inputs, b.input.pipeline, b.input.links[l]));
        lemma_dependencies_are_assembled(plan, k, l);
    }
    assert forall|l: int| 0 <= l < b.input.links.len() implies match (#[trigger] b.input.links[l]).1 {
        LinkModel::Input(r) => assoc_get(b.inputs, r.target) is Some,
        LinkModel::Value(_) => true,
    } by {
        if let LinkModel::Input(r) = b.input.links[l].1 {
            lemma_got_is_key(b.inputs, r.target);
        }
    }
    assert forall|g: int| 0 <= g < a.pipeline.len() implies #[trigger] a.links_evaluable(g) by {
        lemma_links_evaluable(a, g, inputs);
    }
    assert forall|g: int| 0 <= g < a.pipeline.len() implies expansion_wired(
        #[trigger] a.expansion(g),
    ) by {
        assert(a.pipeline[g].valid());
        assert(group_fed(a.pipeline, a.links, g));
        assert(group_set(a.pipeline, a.properties, g));
        lemma_group_is_wired(a, g);
    }
}

/// Each part of a walk begins with the input that the walk starts from.
proof fn lemma_tail_head(
    inputs: Seq<InputModel>,
    order: Seq<usize>,
    dependent: usize,
    upto: int,
    k: int,
)
    ensures
        walk_tail(inputs, order, dependent, upto, k).len() >= 1,
        walk_tail(inputs, order, dependent, upto, k)[0] == dependent,
    decreases upto - k,
{
    if !(k >= upto || k < 0) {
        lemma_tail_head(inputs, order, dependent, upto, k + 1);
    }
}

/// A walk begins with the input that it starts from.
proof fn lemma_walk_head(inputs: Seq<InputModel>, order: Seq<usize>, dependent: usize, upto: int)
    ensures
        walk(inputs, order, upto, dependent).len() >= 1,
        walk(inputs, order, upto, dependent)[0] == dependent,
{
    if upto > 0 {
        lemma_tail_head(inputs, order, dependent, upto, 0);
    }
}

/// The walks from the inputs that are named hold each of these inputs.
proof fn lemma_walks_hold_roots(plan: Plan, dependencies: Seq<Seq<char>>, n: int, d: int)
    requires
        0 <= d < n <= dependencies.len(),
    ensures
        plan.walks(dependencies, n).contains(
            input_index(plan.builder.inputs, dependencies[d]).unwrap() as usize,
        ),
    decreases n,
{
    let acc = plan.walks(dependencies, n - 1);
    let root = input_index(plan.builder.inputs, dependencies[n - 1]).unwrap() as usize;
    let next = walk(plan.builder.inputs, plan.order, plan.order.len() as int, root);
    let all = plan.walks(dependencies, n);
    assert(all == acc + next);
    if d < n - 1 {
        lemma_walks_hold_roots(plan, dependencies, n - 1, d);
        let wanted = input_index(plan.builder.inputs, dependencies[d]).unwrap() as usize;
        let i = choose|i: int| 0 <= i < acc.len() && acc[i] == wanted;
        assert(all[i] == wanted);
    } else {
        lemma_walk_head(plan.builder.inputs, plan.order, root, plan.order.len() as int);
        assert(all[acc.len() as int] == next[0]);
    }
}

/// What is selected for a shader socket stays selected: the output bound to
/// the socket, and the inputs that it names.
proof fn lemma_selection_holds(plan: Plan, n: int, k: int, d: int)
    requires
        0 <= k < n <= plan.builder.shader.input_sockets.len(),
        output_index(plan.builder.outputs, plan.socket(k)) is Some,
        0 <= d < plan.builder.outputs[output_index(
            plan.builder.outputs,
            plan.socket(k),
        ).unwrap()].dependencies().len(),
    ensures
        plan.selection(n).inputs.contains(
            input_index(
                plan.builder.inputs,
                plan.builder.outputs[output_index(
                    plan.builder.outputs,
                    plan.socket(k),
                ).unwrap()].dependencies()[d],
            ).unwrap() as usize,
        ),
    decreases n,
{
    let o = output_index(plan.builder.outputs, plan.socket(k)).unwrap();
    let dependencies = plan.builder.outputs[o].dependencies();
    let wanted = input_index(plan.builder.inputs, dependencies[d]).unwrap() as usize;
    let before = plan.selection(n - 1).inputs;
    let now = plan.selection(n).inputs;
    if k < n - 1 {
        lemma_selection_holds(plan, n - 1, k, d);
        let i = choose|i: int| 0 <= i < before.len() && before[i] == wanted;
        match output_index(plan.builder.outputs, plan.socket(n - 1)) {
            Some(other) => {
                let more = plan.builder.outputs[other].dependencies();
                assert(now == before + plan.walks(more, more.len() as int));
                assert(now[i] == wanted);
            },
            None => {},
        }
    } else {
        let walks = plan.walks(dependencies, dependencies.len() as int);
        lemma_walks_hold_roots(plan, dependencies, dependencies.len() as int, d);
        let i = choose|i: int| 0 <= i < walks.len() && walks[i] == wanted;
        assert(now == before + walks);
        assert(now[before.len() + i] == wanted);
    }
}

/// Each selected output is the first output bound to a shader socket.
proof fn lemma_selected_socket(plan: Plan, n: int, q: int) -> (k: int)
    requires
        plan.builder.outputs.len() <= usize::MAX,
        0 <= n <= plan.builder.shader.input_sockets.len(),
        0 <= q < plan.selection(n).outputs.len(),
    ensures
        0 <= k < n,
        output_index(plan.builder.outputs, plan.socket(k)) == Some(
            plan.selection(n).outputs[q] as int,
        ),
    decreases n,
{
    let before = plan.selection(n - 1).outputs;
    lemma_index_is_first(bound_outputs(plan.builder.outputs), plan.socket(n - 1));
    if q < before.len() {
        let k = lemma_selected_socket(plan, n - 1, q);
        match output_index(plan.builder.outputs, plan.socket(n - 1)) {
            Some(o) => {
                assert(plan.selection(n).outputs == before.push(o as usize));
            },
            None => {},
        }
        k
    } else {
        let o = output_index(plan.builder.outputs, plan.socket(n - 1)).unwrap();
        assert(plan.selection(n).outputs == before.push(o as usize));
        lemma_index_is_first(bound_outputs(plan.builder.outputs), plan.socket(n - 1));
        n - 1
    }
}

/// Every input that a selected output names is assembled before the outputs
/// are.
proof fn lemma_root_is_assembled(plan: Plan, k: int, d: int)
    requires
        plan.builder.inputs.len() <= usize::MAX,
        0 <= k < plan.builder.shader.input_sockets.len(),
        plan.socket_ready(k),
        output_index(plan.builder.outputs, plan.socket(k)) is Some,
        0 <= d < plan.builder.outputs[output_index(
            plan.builder.outputs,
            plan.socket(k),
        ).unwrap()].dependencies().len(),
    ensures
        has_key(
            plan.built_inputs().inputs,
            plan.builder.outputs[output_index(
                plan.builder.outputs,
                plan.socket(k),
            ).unwrap()].dependencies()[d],
        ),
{
    let inputs = plan.builder.inputs;
    let o = output_index(plan.builder.outputs, plan.socket(k)).unwrap();
    let dependencies = plan.builder.outputs[o].dependencies();
    let name = dependencies[d];
    assert(input_index(inputs, name) is Some);
    lemma_index_is_first(named_inputs(inputs), name);
    let root = input_index(inputs, name).unwrap();
    let selected = plan.selected().inputs;
    let m = selected.len() as int;
    lemma_selection_holds(plan, plan.builder.shader.input_sockets.len() as int, k, d);
    let q = choose|q: int| 0 <= q < m && selected[q] == root as usize;
    let turn = m - 1 - q;
    assert(plan.input_at(turn) == inputs[root]);
    lemma_turn_assembles(plan, turn);
    lemma_inputs_grow(plan, turn + 1, m);
    let assembled = plan.inputs_state(turn + 1).inputs;
    let at = choose|at: int| 0 <= at < assembled.len() && assembled[at].0 == name;
    assert(plan.built_inputs().inputs[at].0 == name);
}

/// The input that a link of an output reads from is among the inputs that the
/// links name.
proof fn lemma_link_is_dependency(output: OutputModel, n: int, l: int)
    requires
        0 <= l < n <= output.links.len(),
        output.links[l].1 is Input,
    ensures
        exists|d: int|
            0 <= d < output.link_targets(n).len() && output.link_targets(n)[d]
                == output.links[l].1->Input_0.target,
    decreases n,
{
    let before = output.link_targets(n - 1);
    let now = output.link_targets(n);
    if l < n - 1 {
        lemma_link_is_dependency(output, n - 1, l);
        let d = choose|d: int|
            0 <= d < before.len() && before[d] == output.links[l].1->Input_0.target;
        assert(now[d] == before[d]);
    } else {
        assert(now == before.push(output.links[l].1->Input_0.target));
        assert(now[before.len() as int] == output.links[l].1->Input_0.target);
    }
}

/// An output that is in order finds everything that it reads, once the inputs
/// are assembled.
pub proof fn lemma_output_is_wired(plan: Plan, k: int)
    requires
        plan.builder.inputs.len() <= usize::MAX,
        plan.builder.outputs.len() <= usize::MAX,
        plan.builder.plan() == Some(plan),
        consistent(plan),
        0 <= k < plan.selected().outputs.len(),
    ensures
        output_wired(plan.output_build(k)),
{
    let inputs = plan.builder.inputs;
    let b = plan.output_build(k);
    let a = b.assembly();
    let output = plan.output_at(k);
    let sockets = plan.builder.shader.input_sockets.len() as int;
    let count = plan.selected().outputs.len() as int;
    let m = plan.selected().inputs.len() as int;
    lemma_sorted_order(inputs);
    lemma_selection_in_bounds(plan, sockets);
    lemma_table_sound(plan, m);
    assert(output_sound(inputs, output));
    let socket = lemma_selected_socket(plan, sockets, count - 1 - k);
    assert(plan.socket_ready(socket));
    assert(plan.builder.outputs[output_index(plan.builder.outputs, plan.socket(socket)).unwrap()]
        == output);
    if b.is_direct() {
        let r = output.input;
        assert(output.dependencies()[0] == r.target);
        lemma_root_is_assembled(plan, socket, 0);
        lemma_index_is_first(b.inputs, r.target);
        let t = assoc_index(b.inputs, r.target).unwrap();
        assert(entry_sound(inputs, b.inputs[t]));
        assert(puts_out(
            pipeline_of(inputs, b.inputs[t].0),
            pipeline_of(inputs, b.inputs[t].0).len() as int,
            r.name,
        ));
        lemma_got_is_key(b.inputs[t].1.outputs, r.name);
    } else {
        assert forall|l: int| 0 <= l < a.links.len() implies match (#[trigger] a.links[l]).1 {
            LinkModel::Input(r) => has_key(a.inputs, r.target),
            LinkModel::Value(_) => true,
        } by {
            if a.links[l].1 is Input {
                lemma_link_is_dependency(output, output.links.len() as int, l);
                let d = choose|d: int|
                    0 <= d < output.link_targets(output.links.len() as int).len()
                        && output.link_targets(output.links.len() as int)[d]
                        == output.links[l].1->Input_0.target;
                lemma_root_is_assembled(plan, socket, d);
            }
        }
        assert forall|g: int| 0 <= g < a.pipeline.len() implies #[trigger] a.links_evaluable(
            g,
        ) by {
            lemma_links_evaluable(a, g, inputs);
        }
        assert forall|g: int| 0 <= g < a.pipeline.len() implies expansion_wired(
            #[trigger] a.expansion(g),
        ) by {
            assert(a.pipeline[g].valid());
            assert(group_fed(a.pipeline, a.links, g));
            assert(group_set(a.pipeline, a.properties, g));
            lemma_group_is_wired(a, g);
        }
        let last = a.pipeline.len() - 1;
        let name = b.result_name();
        assert(a.pipeline[last].outputs[0].0 == name);
        assert(has_key(a.pipeline[last].outputs, name));
        assert(puts_out(a.pipeline, a.pipeline.len() as int, name));
        lemma_assembly_keys(a, a.pipeline.len() as int, name);
        lemma_got_is_key(a.end().outputs, name);
    }
}

/// Declarations that are in order can be built, unless the layout leaves the
/// range of coordinates: where no two inputs have the same name, the selected
/// outputs read from declared inputs, and every selected input and output is
/// in order, everything that is read while the material is built is there.
pub proof fn lemma_consistent_is_wired(plan: Plan)
    requires
        plan.builder.inputs.len() <= usize::MAX,
        plan.builder.outputs.len() <= usize::MAX,
        plan.builder.plan() == Some(plan),
        consistent(plan),
    ensures
        plan_wired(plan),
        plan_fits(plan) ==> plan.ready() && plan.builder.buildable(),
{
    lemma_sorted_order(plan.builder.inputs);
    assert forall|k: int|
        0 <= k < plan.selected().inputs.len() && assembles(plan, k) implies input_wired(
        #[trigger] plan.input_build(k),
    ) by {
        lemma_input_is_wired(plan, k);
    }
    assert forall|k: int| 0 <= k < plan.selected().outputs.len() implies output_wired(
        #[trigger] plan.output_build(k),
    ) by {
        lemma_output_is_wired(plan, k);
    }
    if plan_fits(plan) {
        lemma_plan_ready(plan);
    }
}

} // verus!
