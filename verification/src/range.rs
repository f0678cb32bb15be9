//! How much room a layout takes: each node, each group and each input or
//! output moves the far edge of what is placed by one step at most, so a
//! material whose weight in steps is within the range of coordinates fits.
use crate::assemble::InputBuild;
use crate::builder::{widest, MaterialBuilder, Plan};
use crate::consistency::{consistent, lemma_consistent_is_wired, lemma_plan_ready};
use crate::coverage::lemma_selection_in_bounds;
use crate::schedule::lemma_sorted_order;
use crate::consistency::{
    assembly_fits, assembly_wired, expansion_fits, expansion_wired, input_fits, input_wired,
    output_fits, output_wired, placement_fits, placement_wired, plan_fits, plan_wired,
};
use crate::group::Expansion;
use crate::growth::{
    assembles, lemma_assembly_grows, lemma_expansion_grows, lemma_inputs_grow,
    lemma_outputs_grow,
};
use crate::nodes::{BuiltNodeModel, GroupModel};
use crate::pipeline::{Assembly, BuiltInputs};
use crate::placement::Placement;
use crate::NODE_MARGIN;
use vstd::prelude::*;

verus! {

/// The most that one node adds to the extent of a layout in one direction:
/// the greatest size of a node, and the margin after it.
pub const STEP: i64 = 4_294_967_345;

/// Whether no node of the group has a negative size or one beyond the range
/// of sizes.
pub open spec fn bounded(group: GroupModel) -> bool {
    forall|k: int|
        0 <= k < group.nodes.len() ==> 0 <= (#[trigger] group.nodes[k]).kind.size.0 <= u32::MAX
            && 0 <= group.nodes[k].kind.size.1 <= u32::MAX
}

/// Whether every node lies right of and below the origin, and the column and
/// the row after it within `limit`.
pub open spec fn below(nodes: Seq<BuiltNodeModel>, limit: int) -> bool {
    forall|i: int|
        0 <= i < nodes.len() ==> {
            let node = #[trigger] nodes[i];
            &&& 0 <= node.position.0
            &&& 0 <= node.position.1
            &&& 0 <= node.kind.size.0
            &&& 0 <= node.kind.size.1
            &&& node.next_column() <= limit
            &&& node.next_row() <= limit
        }
}

/// The column of a node is within the limit of what is placed.
proof fn lemma_column_is_below(p: Placement, n: int, limit: int)
    requires
        placement_wired(p),
        below(p.nodes, limit),
        0 <= p.base.0 <= limit,
        0 <= n <= p.node.links.len(),
    ensures
        0 <= p.column(n) <= limit,
    decreases n,
{
    if n > 0 {
        lemma_column_is_below(p, n - 1, limit);
        let s = p.source(n - 1);
        assert(p.nodes[s.unwrap().node_index].next_column() <= limit);
    }
}

/// A node that is wired is placed within one step of what is placed before.
pub proof fn lemma_placement_fits(p: Placement, limit: int)
    requires
        placement_wired(p),
        below(p.nodes, limit),
        0 <= p.base.0 <= limit,
        0 <= p.base.1 <= limit,
        0 <= p.node.kind.size.0 <= u32::MAX,
        0 <= p.node.kind.size.1 <= u32::MAX,
        limit + STEP <= i64::MAX,
    ensures
        placement_fits(p),
        below(p.nodes.push(p.built()), limit + STEP),
        0 <= p.far_corner().0 <= limit + STEP - NODE_MARGIN,
        0 <= p.far_corner().1 <= limit + STEP - NODE_MARGIN,
{
    lemma_column_is_below(p, p.node.links.len() as int, limit);
    assert forall|i: int| 0 <= i < p.node.links.len() implies match #[trigger] p.source(i) {
        Some(r) => p.nodes[r.node_index].next_column() <= i64::MAX,
        None => true,
    } by {
        let s = p.source(i);
        assert(p.nodes[s.unwrap().node_index].next_column() <= limit);
    }
    if p.has_previous() {
        assert(p.nodes[p.nodes.len() - 1].next_row() <= limit);
    }
    let after = p.nodes.push(p.built());
    assert forall|i: int| 0 <= i < after.len() implies {
        let node = #[trigger] after[i];
        &&& 0 <= node.position.0
        &&& 0 <= node.position.1
        &&& 0 <= node.kind.size.0
        &&& 0 <= node.kind.size.1
        &&& node.next_column() <= limit + STEP
        &&& node.next_row() <= limit + STEP
    } by {
        if i < p.nodes.len() {
            assert(after[i] == p.nodes[i]);
        }
    }
}

/// A group that is wired is expanded within one step for each of its nodes.
pub proof fn lemma_expansion_fits(e: Expansion, limit: int, k: int)
    requires
        expansion_wired(e),
        bounded(e.group),
        below(e.nodes, limit),
        0 <= e.position.0 <= limit,
        0 <= e.position.1 <= limit,
        0 <= k <= e.group.nodes.len(),
        limit + e.group.nodes.len() * STEP <= i64::MAX,
    ensures
        forall|j: int| 0 <= j < k ==> placement_fits(#[trigger] e.placement(j)),
        below(e.state(k).nodes, limit + k * STEP),
        0 <= e.state(k).x_max <= limit + k * STEP,
        0 <= e.state(k).y_max <= limit + k * STEP,
    decreases k,
{
    if k > 0 {
        lemma_expansion_fits(e, limit, k - 1);
        let p = e.placement(k - 1);
        assert(placement_wired(p));
        lemma_placement_fits(p, limit + (k - 1) * STEP);
    }
}

/// The weight of the first `k` groups of a pipeline: one for each group and
/// one for each of its nodes.
pub open spec fn weight(pipeline: Seq<GroupModel>, k: int) -> int
    decreases k,
{
    if k <= 0 {
        0
    } else {
        weight(pipeline, k - 1) + pipeline[k - 1].nodes.len() + 1
    }
}

/// The weight of a pipeline grows with each group.
proof fn lemma_weight_grows(pipeline: Seq<GroupModel>, j: int, k: int)
    requires
        0 <= j <= k,
    ensures
        0 <= weight(pipeline, j) <= weight(pipeline, k),
    decreases k,
{
    if j < k {
        lemma_weight_grows(pipeline, j, k - 1);
    } else if k > 0 {
        lemma_weight_grows(pipeline, 0, k - 1);
        lemma_weight_grows(pipeline, k - 1, k - 1);
    }
}

/// Whether no node of any group of the pipeline has a negative size or one
/// beyond the range of sizes.
pub open spec fn pipeline_bounded(pipeline: Seq<GroupModel>) -> bool {
    forall|g: int| 0 <= g < pipeline.len() ==> bounded(#[trigger] pipeline[g])
}

/// A pipeline that is wired is assembled within one step for each unit of
/// its weight.
pub proof fn lemma_assembly_fits(a: Assembly, limit: int, k: int)
    requires
        assembly_wired(a),
        pipeline_bounded(a.pipeline),
        below(a.nodes, limit),
        0 <= a.position.0 <= limit,
        0 <= a.position.1 <= limit,
        0 <= k <= a.pipeline.len(),
        limit + weight(a.pipeline, a.pipeline.len() as int) * STEP <= i64::MAX,
    ensures
        forall|g: int| 0 <= g < k ==> expansion_fits(#[trigger] a.expansion(g)),
        forall|g: int|
            0 <= g < k ==> (#[trigger] a.expansion(g)).end().x_max + NODE_MARGIN <= i64::MAX,
        below(a.state(k).nodes, limit + weight(a.pipeline, k) * STEP),
        0 <= a.state(k).x <= limit + weight(a.pipeline, k) * STEP,
        0 <= a.state(k).y_max <= limit + weight(a.pipeline, k) * STEP,
    decreases k,
{
    if k > 0 {
        lemma_assembly_fits(a, limit, k - 1);
        lemma_weight_grows(a.pipeline, k, a.pipeline.len() as int);
        lemma_weight_grows(a.pipeline, 0, k - 1);
        let e = a.expansion(k - 1);
        let n = e.group.nodes.len() as int;
        let before = limit + weight(a.pipeline, k - 1) * STEP;
        assert(weight(a.pipeline, k) == weight(a.pipeline, k - 1) + n + 1);
        assert(before + n * STEP + STEP == limit + weight(a.pipeline, k) * STEP) by (nonlinear_arith)
            requires
                before == limit + weight(a.pipeline, k - 1) * STEP,
                weight(a.pipeline, k) == weight(a.pipeline, k - 1) + n + 1,
        ;
        assert(expansion_wired(e));
        assert(bounded(a.pipeline[k - 1]));
        lemma_expansion_fits(e, before, n);
        assert forall|j: int| 0 <= j < e.group.nodes.len() implies placement_fits(
            #[trigger] e.placement(j),
        ) by {}
    }
}

/// Whether each assembled input ends right of the origin, and the column and
/// the row after it are within `limit`.
pub open spec fn entries_below(inputs: BuiltInputs, limit: int) -> bool {
    forall|t: int|
        0 <= t < inputs.len() ==> 0 <= (#[trigger] inputs[t]).1.next_column() <= limit
            && inputs[t].1.next_row() <= limit
}

/// The column in which an input begins is within the limit of what is assembled.
proof fn lemma_free_column_is_below(b: InputBuild, n: int, limit: int)
    requires
        input_wired(b),
        entries_below(b.inputs, limit),
        0 <= limit,
        0 <= n <= b.input.links.len(),
    ensures
        0 <= b.column(n) <= limit,
    decreases n,
{
    if n > 0 {
        lemma_free_column_is_below(b, n - 1, limit);
        let link = b.input.links[n - 1];
        if let crate::declare::LinkModel::Input(r) = link.1 {
            crate::assoc::lemma_index_is_first(b.inputs, r.target);
            let t = crate::assoc::assoc_index(b.inputs, r.target).unwrap();
            assert(b.inputs[t].1.next_column() <= limit);
        }
    }
}

/// The row in which an input begins is within the limit of what is assembled.
proof fn lemma_free_row_is_below(b: InputBuild, n: int, limit: int)
    requires
        entries_below(b.inputs, limit),
        0 <= limit,
        0 <= n <= b.inputs.len(),
    ensures
        0 <= b.row(n) <= limit,
    decreases n,
{
    if n > 0 {
        lemma_free_row_is_below(b, n - 1, limit);
        assert(b.inputs[n - 1].1.next_row() <= limit);
    }
}

/// An input that is wired is assembled within one step for each unit of the
/// weight of its pipeline, and one more.
pub proof fn lemma_input_fits(b: InputBuild, limit: int)
    requires
        input_wired(b),
        pipeline_bounded(b.input.pipeline),
        below(b.nodes, limit),
        entries_below(b.inputs, limit),
        0 <= limit,
        limit + (weight(b.input.pipeline, b.input.pipeline.len() as int) + 1) * STEP
            <= i64::MAX,
    ensures
        input_fits(b),
        below(
            b.nodes_after(),
            limit + (weight(b.input.pipeline, b.input.pipeline.len() as int) + 1) * STEP,
        ),
        b.built().next_column() <= limit + (weight(
            b.input.pipeline,
            b.input.pipeline.len() as int,
        ) + 1) * STEP,
        b.built().next_row() <= limit + (weight(b.input.pipeline, b.input.pipeline.len() as int)
            + 1) * STEP,
{
    let a = b.assembly();
    let n = b.input.pipeline.len() as int;
    let w = weight(b.input.pipeline, n);
    lemma_weight_grows(b.input.pipeline, 0, n);
    lemma_free_column_is_below(b, b.input.links.len() as int, limit);
    lemma_free_row_is_below(b, b.inputs.len() as int, limit);
    assert(limit + w * STEP + STEP == limit + (w + 1) * STEP) by (nonlinear_arith);
    lemma_assembly_fits(a, limit, n);
    assert forall|i: int| 0 <= i < b.input.links.len() implies match (#[trigger] b.input.links[i]).1 {
        crate::declare::LinkModel::Input(r) => match crate::assoc::assoc_get(b.inputs, r.target) {
            Some(other) => other.next_column() <= i64::MAX,
            None => true,
        },
        crate::declare::LinkModel::Value(_) => true,
    } by {
        if let crate::declare::LinkModel::Input(r) = b.input.links[i].1 {
            crate::assoc::lemma_index_is_first(b.inputs, r.target);
            if let Some(t) = crate::assoc::assoc_index(b.inputs, r.target) {
                assert(b.inputs[t].1.next_column() <= limit);
            }
        }
    }
    assert forall|i: int| 0 <= i < b.inputs.len() implies #[trigger] b.row_fits(i) by {
        assert(b.inputs[i].1.next_row() <= limit);
    }
    let after = b.nodes_after();
    let bound = limit + (w + 1) * STEP;
    assert forall|i: int| 0 <= i < after.len() implies {
        let node = #[trigger] after[i];
        &&& 0 <= node.position.0
        &&& 0 <= node.position.1
        &&& 0 <= node.kind.size.0
        &&& 0 <= node.kind.size.1
        &&& node.next_column() <= bound
        &&& node.next_row() <= bound
    } by {
        let node = a.state(n).nodes[i];
        assert(node.next_column() <= limit + w * STEP);
    }
}

/// The weight of the inputs in the first `k` places: one to begin with, and
/// for each input that is assembled the weight of its pipeline and one more.
pub open spec fn inputs_weight(plan: Plan, k: int) -> int
    decreases k,
{
    if k <= 0 {
        1
    } else if assembles(plan, k - 1) {
        inputs_weight(plan, k - 1) + weight(
            plan.input_at(k - 1).pipeline,
            plan.input_at(k - 1).pipeline.len() as int,
        ) + 1
    } else {
        inputs_weight(plan, k - 1)
    }
}

/// The weight of the inputs and of the outputs in the first `k` places: for
/// each output the weight of its pipeline and one more.
pub open spec fn outputs_weight(plan: Plan, k: int) -> int
    decreases k,
{
    if k <= 0 {
        inputs_weight(plan, plan.selected().inputs.len() as int)
    } else {
        outputs_weight(plan, k - 1) + weight(
            plan.output_at(k - 1).pipeline,
            plan.output_at(k - 1).pipeline.len() as int,
        ) + 1
    }
}

/// The weight of a material: that of its inputs and outputs, and one for the
/// shader node.
pub open spec fn plan_weight(plan: Plan) -> int {
    outputs_weight(plan, plan.selected().outputs.len() as int) + 1
}

/// Whether no node that the plan places has a negative size or one beyond the
/// range of sizes.
pub open spec fn plan_bounded(plan: Plan) -> bool {
    &&& forall|k: int|
        0 <= k < plan.selected().inputs.len() ==> pipeline_bounded(
            (#[trigger] plan.input_at(k)).pipeline,
        )
    &&& forall|k: int|
        0 <= k < plan.selected().outputs.len() ==> pipeline_bounded(
            (#[trigger] plan.output_at(k)).pipeline,
        )
}

/// The weight of the inputs grows with each place.
proof fn lemma_inputs_weight_grows(plan: Plan, j: int, k: int)
    requires
        0 <= j <= k,
    ensures
        1 <= inputs_weight(plan, j) <= inputs_weight(plan, k),
    decreases k,
{
    if k > 0 {
        let pipeline = plan.input_at(k - 1).pipeline;
        lemma_weight_grows(pipeline, 0, pipeline.len() as int);
        if j < k {
            lemma_inputs_weight_grows(plan, j, k - 1);
        } else {
            lemma_inputs_weight_grows(plan, k - 1, k - 1);
        }
    }
}

/// The weight of the outputs grows with each place.
proof fn lemma_outputs_weight_grows(plan: Plan, j: int, k: int)
    requires
        0 <= j <= k,
    ensures
        inputs_weight(plan, plan.selected().inputs.len() as int) <= outputs_weight(plan, j)
            <= outputs_weight(plan, k),
    decreases k,
{
    if k > 0 {
        let pipeline = plan.output_at(k - 1).pipeline;
        lemma_weight_grows(pipeline, 0, pipeline.len() as int);
        if j < k {
            lemma_outputs_weight_grows(plan, j, k - 1);
        } else {
            lemma_outputs_weight_grows(plan, k - 1, k - 1);
        }
    }
}

/// Steps are counted in order.
proof fn lemma_scaled(a: int, b: int)
    requires
        a <= b,
    ensures
        a * STEP <= b * STEP,
        (a + 1) * STEP == a * STEP + STEP,
{
    assert(a * STEP <= b * STEP) by (nonlinear_arith)
        requires
            a <= b,
    ;
    assert((a + 1) * STEP == a * STEP + STEP) by (nonlinear_arith);
}

/// The inputs of a material that is wired are assembled within one step for
/// each unit of their weight.
pub proof fn lemma_inputs_fit(plan: Plan, k: int)
    requires
        plan_wired(plan),
        plan_bounded(plan),
        plan_weight(plan) * STEP <= i64::MAX,
        0 <= k <= plan.selected().inputs.len(),
    ensures
        forall|j: int| 0 <= j < k && assembles(plan, j) ==> input_fits(#[trigger] plan.input_build(j)),
        below(plan.inputs_state(k).nodes, inputs_weight(plan, k) * STEP),
        entries_below(plan.inputs_state(k).inputs, inputs_weight(plan, k) * STEP),
    decreases k,
{
    let m = plan.selected().inputs.len() as int;
    let o = plan.selected().outputs.len() as int;
    lemma_inputs_weight_grows(plan, 0, k);
    lemma_scaled(1, inputs_weight(plan, k));
    if k > 0 {
        lemma_inputs_fit(plan, k - 1);
        lemma_inputs_weight_grows(plan, 0, k - 1);
        lemma_inputs_weight_grows(plan, k, m);
        lemma_outputs_weight_grows(plan, 0, o);
        lemma_scaled(inputs_weight(plan, k), plan_weight(plan));
        lemma_scaled(1, inputs_weight(plan, k - 1));
        if assembles(plan, k - 1) {
            let b = plan.input_build(k - 1);
            let pipeline = plan.input_at(k - 1).pipeline;
            let w = weight(pipeline, pipeline.len() as int);
            let before = inputs_weight(plan, k - 1);
            let limit = before * STEP;
            assert(limit + (w + 1) * STEP == inputs_weight(plan, k) * STEP) by (nonlinear_arith)
                requires
                    limit == before * STEP,
                    inputs_weight(plan, k) == before + w + 1,
            ;
            assert(input_wired(b));
            assert(pipeline_bounded(pipeline));
            lemma_input_fits(b, limit);
            crate::consistency::lemma_got_key(b.inputs, b.input.id);
            let after = plan.inputs_state(k).inputs;
            assert(after == b.inputs.push((b.input.id, b.built())));
            let a = b.assembly();
            lemma_weight_grows(pipeline, 0, pipeline.len() as int);
            lemma_free_column_is_below(b, b.input.links.len() as int, limit);
            lemma_free_row_is_below(b, b.inputs.len() as int, limit);
            lemma_scaled(w, w + 1);
            lemma_assembly_fits(a, limit, pipeline.len() as int);
            assert forall|t: int| 0 <= t < after.len() implies 0 <= (
            #[trigger] after[t]).1.next_column() <= inputs_weight(plan, k) * STEP
                && after[t].1.next_row() <= inputs_weight(plan, k) * STEP by {
                if t < b.inputs.len() {
                    assert(after[t] == b.inputs[t]);
                }
            }
        }
    }
}

/// The widest input ends one margin before the limit of what is assembled.
proof fn lemma_widest_is_below(inputs: BuiltInputs, n: int, limit: int)
    requires
        entries_below(inputs, limit),
        NODE_MARGIN <= limit,
        0 <= n <= inputs.len(),
    ensures
        -NODE_MARGIN <= widest(inputs, n) <= limit - NODE_MARGIN,
    decreases n,
{
    if n > 0 {
        assert(inputs[n - 1].1.next_column() <= limit);
        if n > 1 {
            lemma_widest_is_below(inputs, n - 1, limit);
        } else {
            assert(inputs[0].1.next_column() <= limit);
        }
    }
}

/// The outputs of a material that is wired are assembled within one step for
/// each unit of their weight.
pub proof fn lemma_outputs_fit(plan: Plan, k: int)
    requires
        plan_wired(plan),
        plan_bounded(plan),
        plan_weight(plan) * STEP <= i64::MAX,
        0 <= k <= plan.selected().outputs.len(),
    ensures
        0 <= plan.output_x() <= outputs_weight(plan, 0) * STEP,
        forall|j: int| 0 <= j < k ==> output_fits(#[trigger] plan.output_build(j)),
        forall|j: int| 0 <= j < k ==> (#[trigger] plan.outputs_state(j + 1)).y <= i64::MAX,
        below(plan.outputs_state(k).nodes, outputs_weight(plan, k) * STEP),
        0 <= plan.outputs_state(k).y <= outputs_weight(plan, k) * STEP,
        -NODE_MARGIN <= plan.outputs_state(k).x_max <= outputs_weight(plan, k) * STEP
            - NODE_MARGIN,
    decreases k,
{
    let m = plan.selected().inputs.len() as int;
    let o = plan.selected().outputs.len() as int;
    lemma_inputs_fit(plan, m);
    lemma_inputs_weight_grows(plan, 0, m);
    lemma_scaled(1, inputs_weight(plan, m));
    lemma_outputs_weight_grows(plan, 0, k);
    lemma_outputs_weight_grows(plan, k, o);
    lemma_scaled(outputs_weight(plan, 0), outputs_weight(plan, k));
    lemma_scaled(outputs_weight(plan, k), plan_weight(plan));
    let all = plan.built_inputs().inputs;
    lemma_widest_is_below(all, all.len() as int, inputs_weight(plan, m) * STEP);
    if k > 0 {
        lemma_outputs_fit(plan, k - 1);
        lemma_outputs_weight_grows(plan, 0, k - 1);
        lemma_scaled(outputs_weight(plan, 0), outputs_weight(plan, k - 1));
        let b = plan.output_build(k - 1);
        let pipeline = plan.output_at(k - 1).pipeline;
        let n = pipeline.len() as int;
        let w = weight(pipeline, n);
        let before = outputs_weight(plan, k - 1);
        let limit = before * STEP;
        lemma_weight_grows(pipeline, 0, n);
        lemma_scaled(w, w + 1);
        assert(limit + (w + 1) * STEP == outputs_weight(plan, k) * STEP) by (nonlinear_arith)
            requires
                limit == before * STEP,
                outputs_weight(plan, k) == before + w + 1,
        ;
        assert(output_wired(b));
        if !b.is_direct() {
            let a = b.assembly();
            assert(pipeline_bounded(pipeline));
            lemma_assembly_fits(a, limit, n);
            assert forall|i: int| 0 <= i < a.end().nodes.len() implies {
                let node = #[trigger] a.end().nodes[i];
                &&& 0 <= node.position.0
                &&& 0 <= node.position.1
                &&& 0 <= node.kind.size.0
                &&& 0 <= node.kind.size.1
                &&& node.next_column() <= outputs_weight(plan, k) * STEP
                &&& node.next_row() <= outputs_weight(plan, k) * STEP
            } by {
                assert(a.state(n).nodes[i].next_column() <= limit + w * STEP);
            }
        } else {
            assert forall|i: int| 0 <= i < b.nodes.len() implies {
                let node = #[trigger] b.nodes[i];
                &&& 0 <= node.position.0
                &&& 0 <= node.position.1
                &&& 0 <= node.kind.size.0
                &&& 0 <= node.kind.size.1
                &&& node.next_column() <= outputs_weight(plan, k) * STEP
                &&& node.next_row() <= outputs_weight(plan, k) * STEP
            } by {
                assert(b.nodes[i].next_column() <= limit);
            }
        }
    }
}

/// A material that is wired fits where its weight in steps is within the range
/// of coordinates.
pub proof fn lemma_weight_bounds_layout(plan: Plan)
    requires
        plan_wired(plan),
        plan_bounded(plan),
        0 <= plan.builder.shader.size.0,
        0 <= plan.builder.shader.size.1,
        plan_weight(plan) * STEP <= i64::MAX,
    ensures
        plan_fits(plan),
{
    let m = plan.selected().inputs.len() as int;
    let o = plan.selected().outputs.len() as int;
    lemma_inputs_fit(plan, m);
    lemma_outputs_fit(plan, o);
    lemma_outputs_weight_grows(plan, 0, o);
    lemma_scaled(outputs_weight(plan, 0), outputs_weight(plan, o));
    lemma_scaled(outputs_weight(plan, o), plan_weight(plan));
    let placed = plan.placed();
    assert forall|i: int| 0 <= i < placed.len() implies #[trigger] plan.movable(i) by {
        if i < placed.len() - 1 {
            assert(placed[i] == plan.built_outputs().nodes[i]);
            assert(placed[i].next_column() <= outputs_weight(plan, o) * STEP);
        }
    }
}

/// No node that a builder places has a negative size or one beyond the range
/// of sizes.
pub proof fn lemma_material_is_bounded(builder: MaterialBuilder, plan: Plan)
    requires
        builder@.plan() == Some(plan),
        forall|k: int|
            0 <= k < plan.builder.shader.input_sockets.len() ==> #[trigger] plan.socket_ready(k),
    ensures
        plan_bounded(plan),
        0 <= plan.builder.shader.size.0,
        0 <= plan.builder.shader.size.1,
        plan.builder.inputs.len() <= usize::MAX,
        plan.builder.outputs.len() <= usize::MAX,
{
    let inputs = builder.inputs;
    let outputs = builder.outputs;
    assert(builder@.inputs.len() == inputs.len());
    assert(builder@.outputs.len() == outputs.len());
    lemma_sorted_order(builder@.inputs);
    lemma_selection_in_bounds(plan, plan.builder.shader.input_sockets.len() as int);
    let m = plan.selected().inputs.len() as int;
    let o = plan.selected().outputs.len() as int;
    assert forall|k: int| 0 <= k < m implies pipeline_bounded(
        (#[trigger] plan.input_at(k)).pipeline,
    ) by {
        let at = plan.selected().inputs[m - 1 - k] as int;
        let input = inputs@[at];
        assert(plan.input_at(k) == input@);
        assert forall|g: int| 0 <= g < input@.pipeline.len() implies bounded(
            #[trigger] input@.pipeline[g],
        ) by {
            let group = input.pipeline@[g];
            assert(input@.pipeline[g] == group@);
            assert forall|n: int| 0 <= n < group@.nodes.len() implies 0 <= (
            #[trigger] group@.nodes[n]).kind.size.0 <= u32::MAX && 0
                <= group@.nodes[n].kind.size.1 <= u32::MAX by {
                assert(group@.nodes[n] == group.nodes@[n]@);
            }
        }
    }
    assert forall|k: int| 0 <= k < o implies pipeline_bounded(
        (#[trigger] plan.output_at(k)).pipeline,
    ) by {
        let at = plan.selected().outputs[o - 1 - k] as int;
        let output = outputs@[at];
        assert(plan.output_at(k) == output@);
        assert forall|g: int| 0 <= g < output@.pipeline.len() implies bounded(
            #[trigger] output@.pipeline[g],
        ) by {
            let group = output.pipeline@[g];
            assert(output@.pipeline[g] == group@);
            assert forall|n: int| 0 <= n < group@.nodes.len() implies 0 <= (
            #[trigger] group@.nodes[n]).kind.size.0 <= u32::MAX && 0
                <= group@.nodes[n].kind.size.1 <= u32::MAX by {
                assert(group@.nodes[n] == group.nodes@[n]@);
            }
        }
    }
}

/// Declarations that are in order can be built, where their weight in steps
/// is within the range of coordinates: then [`MaterialBuilder::try_build`]
/// gives a result, and [`MaterialBuilder::build`] can be called.
pub proof fn lemma_in_order_is_buildable(builder: MaterialBuilder, plan: Plan)
    requires
        builder@.plan() == Some(plan),
        consistent(plan),
        plan_weight(plan) * STEP <= i64::MAX,
    ensures
        builder@.buildable(),
{
    lemma_material_is_bounded(builder, plan);
    lemma_consistent_is_wired(plan);
    lemma_weight_bounds_layout(plan);
    lemma_plan_ready(plan);
}

} // verus!
