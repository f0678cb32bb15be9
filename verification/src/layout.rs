//! Where the nodes lie: what is placed later lies right of or below what it
//! must not cover.
use crate::assemble::InputBuild;
use crate::assoc::lemma_index_is_first;
use crate::builder::{
    BuiltMaterialData, BuiltMaterialModel, MaterialBuilder, Plan, widest,
};
use crate::coverage::lemma_selection_in_bounds;
use crate::schedule::lemma_sorted_order;
use crate::group::Expansion;
use crate::laws::{lemma_find_input, lemma_find_output};
use crate::growth::{
    assembles, input_span, lemma_assembly_grows, lemma_expansion_grows, lemma_inputs_grow,
    lemma_outputs_grow, output_span,
};
use crate::nodes::{BuiltNodeModel, GroupModel};
use crate::pipeline::Assembly;
use crate::placement::Placement;
use crate::NODE_MARGIN;
use vstd::prelude::*;

verus! {

/// Whether two nodes, as they are placed at first, cover no common ground:
/// one lies right of the other, or below it. Edges may touch.
pub open spec fn apart(a: BuiltNodeModel, b: BuiltNodeModel) -> bool {
    ||| a.right() <= b.position.0
    ||| b.right() <= a.position.0
    ||| a.bottom() <= b.position.1
    ||| b.bottom() <= a.position.1
}

/// Whether a node lies within the given bounds.
pub open spec fn inside(node: BuiltNodeModel, left: int, top: int, right: int, bottom: int)
    -> bool {
    &&& left <= node.position.0
    &&& top <= node.position.1
    &&& node.right() <= right
    &&& node.bottom() <= bottom
}

/// Whether no node of the group has a negative size.
pub open spec fn sized(group: GroupModel) -> bool {
    forall|k: int|
        0 <= k < group.nodes.len() ==> (#[trigger] group.nodes[k]).kind.size.0 >= 0
            && group.nodes[k].kind.size.1 >= 0
}

/// The column of a node is not left of the base.
proof fn lemma_column_is_right_of_base(p: Placement, n: int)
    ensures
        p.column(n) >= p.base.0,
    decreases n,
{
    if n > 0 {
        lemma_column_is_right_of_base(p, n - 1);
    }
}

/// A node is placed at or right of the base; and at or below it, where the
/// node that it has to make way for is.
pub proof fn lemma_placed_from_base(p: Placement)
    requires
        p.has_previous() ==> p.nodes.last().position.1 >= p.base.1 && p.nodes.last().kind.size.1
            >= 0,
    ensures
        p.position().0 >= p.base.0,
        p.position().1 >= p.base.1,
{
    lemma_column_is_right_of_base(p, p.node.links.len() as int);
}

/// A node never covers the node that it has to make way for.
pub proof fn lemma_makes_way(p: Placement)
    requires
        p.has_previous(),
    ensures
        apart(p.nodes.last(), p.built()),
{
}

/// The nodes of a group lie within what the group takes up, which begins at
/// the group's position.
pub proof fn lemma_group_bounds(e: Expansion, k: int, i: int)
    requires
        sized(e.group),
        0 <= k <= e.group.nodes.len(),
        e.nodes.len() <= i < e.nodes.len() + k,
    ensures
        e.state(k).nodes.len() == e.nodes.len() + k,
        inside(
            e.state(k).nodes[i],
            e.position.0,
            e.position.1,
            e.state(k).x_max,
            e.state(k).y_max,
        ),
        e.state(k).x_max >= e.position.0,
        e.state(k).y_max >= e.position.1,
    decreases k,
{
    lemma_expansion_grows(e, 0, k);
    lemma_group_extent(e, k);
    lemma_expansion_grows(e, k - 1, k);
    let before = e.state(k - 1);
    let p = e.placement(k - 1);
    lemma_group_extent(e, k - 1);
    lemma_expansion_grows(e, 0, k - 1);
    if i < e.nodes.len() + k - 1 {
        lemma_group_bounds(e, k - 1, i);
        assert(e.state(k).nodes[i] == before.nodes[i]);
    } else {
        assert(e.state(k).nodes[i] == p.built());
        if k - 1 > 0 {
            lemma_group_bounds(e, k - 1, i - 1);
            assert(p.nodes.last() == before.nodes[i - 1]);
            assert(e.group.nodes[k - 2].kind.size.1 >= 0);
            lemma_last_kind(e, k - 1);
        }
        lemma_placed_from_base(p);
        assert(e.group.nodes[k - 1].kind.size.0 >= 0);
    }
}

/// The node placed last is of the kind of the group's node that it stands for.
proof fn lemma_last_kind(e: Expansion, k: int)
    requires
        1 <= k <= e.group.nodes.len(),
    ensures
        e.state(k).nodes.last().kind == e.group.nodes[k - 1].kind,
{
    let p = e.placement(k - 1);
    assert(e.state(k).nodes == e.state(k - 1).nodes.push(p.built()));
    assert(p.built().kind == p.node.kind);
}

/// What a group takes up begins at the group's position.
proof fn lemma_group_extent(e: Expansion, k: int)
    requires
        0 <= k,
    ensures
        e.state(k).x_max >= e.position.0,
        e.state(k).y_max >= e.position.1,
    decreases k,
{
    if k > 0 {
        lemma_group_extent(e, k - 1);
    }
}

/// Whether no node of any group of the pipeline has a negative size.
pub open spec fn pipeline_sized(pipeline: Seq<GroupModel>) -> bool {
    forall|g: int| 0 <= g < pipeline.len() ==> sized(#[trigger] pipeline[g])
}

/// The range of positions in the node list of the nodes of the `g`-th group of
/// a pipeline.
pub open spec fn group_span(a: Assembly, g: int) -> (int, int) {
    (a.state(g).nodes.len() as int, a.state(g + 1).nodes.len() as int)
}

/// The groups of a pipeline begin one after the other, each at least one
/// margin right of the one before; and what the pipeline takes up only grows.
pub proof fn lemma_assembly_columns(a: Assembly, g: int, h: int)
    requires
        0 <= g <= h,
    ensures
        a.state(g).x <= a.state(h).x,
        g < h ==> a.state(g).x + NODE_MARGIN <= a.state(h).x,
        a.state(g).y_max <= a.state(h).y_max,
        a.position.1 <= a.state(h).y_max,
    decreases h,
{
    lemma_assembly_floor(a, h);
    if g < h {
        lemma_assembly_columns(a, g, h - 1);
        let e = a.expansion(h - 1);
        lemma_group_extent(e, e.group.nodes.len() as int);
    }
}

/// The lower edge of a pipeline is not above the row in which it begins.
proof fn lemma_assembly_floor(a: Assembly, h: int)
    ensures
        a.position.1 <= a.state(h).y_max,
    decreases h,
{
    if h > 0 {
        lemma_assembly_floor(a, h - 1);
    }
}

/// The nodes of a group of a pipeline lie between the column in which the
/// group begins and one margin left of the column in which the next begins,
/// and between the row in which the pipeline begins and its lower edge.
pub proof fn lemma_assembly_bounds(a: Assembly, g: int, i: int)
    requires
        pipeline_sized(a.pipeline),
        0 <= g < a.pipeline.len(),
        group_span(a, g).0 <= i < group_span(a, g).1,
    ensures
        i < a.end().nodes.len(),
        inside(
            a.end().nodes[i],
            a.state(g).x,
            a.position.1,
            a.state(g + 1).x - NODE_MARGIN,
            a.end().y_max,
        ),
{
    let e = a.expansion(g);
    let m = e.group.nodes.len() as int;
    lemma_expansion_grows(e, 0, m);
    assert(sized(a.pipeline[g]));
    lemma_group_bounds(e, m, i);
    lemma_assembly_grows(a, g + 1, a.pipeline.len() as int);
    lemma_assembly_columns(a, g + 1, a.pipeline.len() as int);
}

/// Nodes of different groups of a pipeline cover no common ground.
pub proof fn lemma_groups_apart(a: Assembly, g: int, h: int, i: int, j: int)
    requires
        pipeline_sized(a.pipeline),
        0 <= g < h < a.pipeline.len(),
        group_span(a, g).0 <= i < group_span(a, g).1,
        group_span(a, h).0 <= j < group_span(a, h).1,
    ensures
        apart(a.end().nodes[i], a.end().nodes[j]),
{
    lemma_assembly_bounds(a, g, i);
    lemma_assembly_bounds(a, h, j);
    lemma_assembly_columns(a, g + 1, h);
}

/// Each node that a pipeline places belongs to one of its groups.
pub proof fn lemma_find_group(a: Assembly, i: int, k: int) -> (g: int)
    requires
        0 <= k,
        a.nodes.len() <= i < a.state(k).nodes.len(),
    ensures
        0 <= g < k,
        group_span(a, g).0 <= i < group_span(a, g).1,
    decreases k,
{
    if i < a.state(k - 1).nodes.len() {
        lemma_find_group(a, i, k - 1)
    } else {
        k - 1
    }
}

/// The nodes of a pipeline lie within what the pipeline takes up, which
/// begins at the pipeline's position.
pub proof fn lemma_pipeline_bounds(a: Assembly, i: int)
    requires
        pipeline_sized(a.pipeline),
        a.nodes.len() <= i < a.end().nodes.len(),
    ensures
        inside(
            a.end().nodes[i],
            a.position.0,
            a.position.1,
            a.far_corner().0,
            a.far_corner().1,
        ),
{
    let n = a.pipeline.len() as int;
    let g = lemma_find_group(a, i, n);
    lemma_assembly_bounds(a, g, i);
    lemma_assembly_columns(a, 0, g);
    lemma_assembly_columns(a, g + 1, n);
}

/// Whether no node that the plan places has a negative size.
pub open spec fn plan_sized(plan: Plan) -> bool {
    &&& forall|k: int|
        0 <= k < plan.selected().inputs.len() ==> pipeline_sized(
            (#[trigger] plan.input_at(k)).pipeline,
        )
    &&& forall|k: int|
        0 <= k < plan.selected().outputs.len() ==> pipeline_sized(
            (#[trigger] plan.output_at(k)).pipeline,
        )
    &&& plan.builder.shader.size.0 >= 0
    &&& plan.builder.shader.size.1 >= 0
}

/// An input that is assembled is entered after those assembled before it.
pub proof fn lemma_input_entry(plan: Plan, k: int)
    requires
        0 <= k,
        assembles(plan, k),
    ensures
        plan.inputs_state(k + 1).inputs == plan.inputs_state(k).inputs.push(
            (plan.input_at(k).id, plan.input_build(k).built()),
        ),
{
    let b = plan.input_build(k);
    lemma_index_is_first(b.inputs, b.input.id);
}

/// An input begins below every assembled input that reaches into its column.
proof fn lemma_row_is_below(b: InputBuild, n: int, t: int)
    requires
        0 <= t < n,
        b.x_min() < b.inputs[t].1.x_max,
    ensures
        b.row(n) >= b.inputs[t].1.next_row(),
    decreases n,
{
    if t < n - 1 {
        lemma_row_is_below(b, n - 1, t);
    }
}

/// The nodes of an input lie within what the input takes up.
pub proof fn lemma_input_bounds(plan: Plan, k: int, i: int)
    requires
        plan_sized(plan),
        0 <= k < plan.selected().inputs.len(),
        assembles(plan, k),
        input_span(plan, k).0 <= i < input_span(plan, k).1,
    ensures
        inside(
            plan.inputs_state(k + 1).nodes[i],
            plan.input_build(k).x_min(),
            plan.input_build(k).y_min(),
            plan.input_build(k).built().x_max,
            plan.input_build(k).built().y_max,
        ),
{
    let b = plan.input_build(k);
    assert(pipeline_sized(plan.input_at(k).pipeline));
    lemma_pipeline_bounds(b.assembly(), i);
}

/// Nodes of different inputs cover no common ground.
pub proof fn lemma_inputs_apart(plan: Plan, j: int, k: int, i1: int, i2: int)
    requires
        plan_sized(plan),
        0 <= j < k < plan.selected().inputs.len(),
        assembles(plan, j),
        assembles(plan, k),
        input_span(plan, j).0 <= i1 < input_span(plan, j).1,
        input_span(plan, k).0 <= i2 < input_span(plan, k).1,
    ensures
        apart(plan.inputs_state(k + 1).nodes[i1], plan.inputs_state(k + 1).nodes[i2]),
{
    lemma_input_bounds(plan, j, i1);
    lemma_input_bounds(plan, k, i2);
    lemma_inputs_grow(plan, j + 1, k + 1);
    lemma_inputs_grow(plan, j + 1, k);
    lemma_input_entry(plan, j);
    let t = plan.inputs_state(j).inputs.len() as int;
    let earlier = plan.input_build(j).built();
    let b = plan.input_build(k);
    assert(plan.inputs_state(j + 1).inputs[t].1 == earlier);
    assert(b.inputs[t].1 == earlier);
    if b.x_min() < earlier.x_max {
        lemma_row_is_below(b, b.inputs.len() as int, t);
    }
}

/// No assembled input reaches further right than the widest.
pub proof fn lemma_widest(inputs: crate::pipeline::BuiltInputs, n: int, t: int)
    requires
        0 <= t < n,
    ensures
        inputs[t].1.x_max <= widest(inputs, n),
    decreases n,
{
    if t < n - 1 {
        lemma_widest(inputs, n - 1, t);
    }
}

/// The outputs begin one below the other, each at least one margin below the
/// one before; and the right edge of everything only grows.
pub proof fn lemma_output_rows(plan: Plan, g: int, h: int)
    requires
        0 <= g <= h,
    ensures
        plan.outputs_state(g).y <= plan.outputs_state(h).y,
        g < h ==> plan.outputs_state(g).y + NODE_MARGIN <= plan.outputs_state(h).y,
        plan.outputs_state(g).x_max <= plan.outputs_state(h).x_max,
    decreases h,
{
    if g < h {
        lemma_output_rows(plan, g, h - 1);
    }
}

/// The nodes of an output lie right of the column in which the outputs begin,
/// between the row in which the output begins and one margin above the row in
/// which the next begins, and left of the right edge of everything.
pub proof fn lemma_output_bounds(plan: Plan, k: int, i: int)
    requires
        plan_sized(plan),
        0 <= k < plan.selected().outputs.len(),
        output_span(plan, k).0 <= i < output_span(plan, k).1,
    ensures
        inside(
            plan.outputs_state(k + 1).nodes[i],
            plan.output_x(),
            plan.outputs_state(k).y,
            plan.outputs_state(k + 1).x_max,
            plan.outputs_state(k + 1).y - NODE_MARGIN,
        ),
{
    let b = plan.output_build(k);
    assert(pipeline_sized(plan.output_at(k).pipeline));
    if !b.is_direct() {
        lemma_pipeline_bounds(b.assembly(), i);
    }
}

/// Nodes of different outputs cover no common ground.
pub proof fn lemma_outputs_apart(plan: Plan, j: int, k: int, i1: int, i2: int)
    requires
        plan_sized(plan),
        0 <= j < k < plan.selected().outputs.len(),
        output_span(plan, j).0 <= i1 < output_span(plan, j).1,
        output_span(plan, k).0 <= i2 < output_span(plan, k).1,
    ensures
        apart(plan.outputs_state(k + 1).nodes[i1], plan.outputs_state(k + 1).nodes[i2]),
{
    lemma_output_bounds(plan, j, i1);
    lemma_output_bounds(plan, k, i2);
    lemma_outputs_grow(plan, j + 1, k + 1);
    lemma_output_rows(plan, j + 1, k);
}

/// The nodes of the inputs lie left of the column in which the outputs begin,
/// by one margin at least.
pub proof fn lemma_inputs_left_of_outputs(plan: Plan, k: int, i: int)
    requires
        plan_sized(plan),
        0 <= k < plan.selected().inputs.len(),
        assembles(plan, k),
        input_span(plan, k).0 <= i < input_span(plan, k).1,
    ensures
        plan.built_inputs().nodes[i].right() + NODE_MARGIN <= plan.output_x(),
{
    let m = plan.selected().inputs.len() as int;
    lemma_input_bounds(plan, k, i);
    lemma_inputs_grow(plan, k + 1, m);
    lemma_input_entry(plan, k);
    let t = plan.inputs_state(k).inputs.len() as int;
    let all = plan.built_inputs().inputs;
    assert(plan.inputs_state(k + 1).inputs[t].1 == plan.input_build(k).built());
    assert(all[t].1 == plan.input_build(k).built());
    lemma_widest(all, all.len() as int, t);
}

/// Whether the node at `i` is one of the `g`-th group of the pipeline of the
/// input in the `k`-th place.
pub open spec fn in_input_group(plan: Plan, k: int, g: int, i: int) -> bool {
    &&& 0 <= k < plan.selected().inputs.len()
    &&& assembles(plan, k)
    &&& 0 <= g < plan.input_at(k).pipeline.len()
    &&& group_span(plan.input_build(k).assembly(), g).0 <= i < group_span(
        plan.input_build(k).assembly(),
        g,
    ).1
}

/// Whether the node at `i` is one of the `g`-th group of the pipeline of the
/// output in the `k`-th place.
pub open spec fn in_output_group(plan: Plan, k: int, g: int, i: int) -> bool {
    &&& 0 <= k < plan.selected().outputs.len()
    &&& 0 <= g < plan.output_at(k).pipeline.len()
    &&& group_span(plan.output_build(k).assembly(), g).0 <= i < group_span(
        plan.output_build(k).assembly(),
        g,
    ).1
}

/// Whether the nodes at `i` and `j` come from one expansion of one group.
pub open spec fn same_group(plan: Plan, i: int, j: int) -> bool {
    ||| exists|k: int, g: int| #[trigger]
        in_input_group(plan, k, g, i) && in_input_group(plan, k, g, j)
    ||| exists|k: int, g: int| #[trigger]
        in_output_group(plan, k, g, i) && in_output_group(plan, k, g, j)
}

/// A node placed for an input stays where it is in the node list.
proof fn lemma_placed_input(plan: Plan, k: int, i: int)
    requires
        0 <= k <= plan.selected().inputs.len(),
        0 <= i < plan.inputs_state(k).nodes.len(),
    ensures
        i < plan.placed().len() - 1,
        plan.placed()[i] == plan.inputs_state(k).nodes[i],
{
    let m = plan.selected().inputs.len() as int;
    let o = plan.selected().outputs.len() as int;
    lemma_inputs_grow(plan, k, m);
    lemma_outputs_grow(plan, 0, o);
    assert(plan.inputs_state(m).nodes[i] == plan.inputs_state(k).nodes[i]);
    assert(plan.outputs_state(o).nodes[i] == plan.outputs_state(0).nodes[i]);
}

/// A node placed for an output stays where it is in the node list.
proof fn lemma_placed_output(plan: Plan, k: int, i: int)
    requires
        0 <= k <= plan.selected().outputs.len(),
        0 <= i < plan.outputs_state(k).nodes.len(),
    ensures
        i < plan.placed().len() - 1,
        plan.placed()[i] == plan.outputs_state(k).nodes[i],
{
    let o = plan.selected().outputs.len() as int;
    lemma_outputs_grow(plan, k, o);
    assert(plan.outputs_state(o).nodes[i] == plan.outputs_state(k).nodes[i]);
}

/// Every other node ends one margin left of the shader node, or further left.
proof fn lemma_shader_is_apart(plan: Plan, i: int)
    requires
        plan_sized(plan),
        0 <= i < plan.placed().len() - 1,
    ensures
        plan.placed()[i].right() + NODE_MARGIN <= plan.shader_x(),
{
    let m = plan.selected().inputs.len() as int;
    let o = plan.selected().outputs.len() as int;
    lemma_outputs_grow(plan, 0, o);
    if i < plan.built_inputs().nodes.len() {
        let k = lemma_find_input(plan, i, m);
        lemma_inputs_left_of_outputs(plan, k, i);
        lemma_output_rows(plan, 0, o);
        lemma_placed_input(plan, m, i);
    } else {
        let k = lemma_find_output(plan, i, o);
        lemma_output_bounds(plan, k, i);
        lemma_placed_output(plan, k + 1, i);
        lemma_output_rows(plan, k + 1, o);
    }
}

/// A node covers no common ground with a node placed later, unless both come
/// from one expansion of one group.
proof fn lemma_later_apart(plan: Plan, i: int, j: int)
    requires
        plan_sized(plan),
        0 <= i < j < plan.placed().len(),
        !same_group(plan, i, j),
    ensures
        apart(plan.placed()[i], plan.placed()[j]),
{
    let m = plan.selected().inputs.len() as int;
    let o = plan.selected().outputs.len() as int;
    let last = plan.placed().len() - 1;
    lemma_outputs_grow(plan, 0, o);
    if j == last {
        lemma_shader_is_apart(plan, i);
        assert(plan.placed()[j] == plan.shader_node());
    } else if j < plan.built_inputs().nodes.len() {
        let ki = lemma_find_input(plan, i, m);
        let kj = lemma_find_input(plan, j, m);
        lemma_placed_input(plan, ki + 1, i);
        lemma_placed_input(plan, kj + 1, j);
        if ki < kj {
            lemma_inputs_apart(plan, ki, kj, i, j);
            lemma_placed_input(plan, kj + 1, i);
        } else if kj < ki {
            lemma_inputs_grow(plan, kj + 1, ki);
        } else {
            let a = plan.input_build(ki).assembly();
            let n = a.pipeline.len() as int;
            let gi = lemma_find_group(a, i, n);
            let gj = lemma_find_group(a, j, n);
            assert(pipeline_sized(plan.input_at(ki).pipeline));
            if gi < gj {
                lemma_groups_apart(a, gi, gj, i, j);
            } else if gj < gi {
                lemma_groups_apart(a, gj, gi, j, i);
            } else {
                assert(in_input_group(plan, ki, gi, i) && in_input_group(plan, ki, gi, j));
            }
        }
    } else if i < plan.built_inputs().nodes.len() {
        let ki = lemma_find_input(plan, i, m);
        let kj = lemma_find_output(plan, j, o);
        lemma_inputs_left_of_outputs(plan, ki, i);
        lemma_output_bounds(plan, kj, j);
        lemma_placed_input(plan, m, i);
        lemma_placed_output(plan, kj + 1, j);
    } else {
        let ki = lemma_find_output(plan, i, o);
        let kj = lemma_find_output(plan, j, o);
        lemma_placed_output(plan, ki + 1, i);
        lemma_placed_output(plan, kj + 1, j);
        if ki < kj {
            lemma_outputs_apart(plan, ki, kj, i, j);
            lemma_placed_output(plan, kj + 1, i);
        } else if kj < ki {
            lemma_outputs_grow(plan, kj + 1, ki);
        } else {
            let b = plan.output_build(ki);
            let a = b.assembly();
            let n = a.pipeline.len() as int;
            assert(!b.is_direct());
            let gi = lemma_find_group(a, i, n);
            let gj = lemma_find_group(a, j, n);
            assert(pipeline_sized(plan.output_at(ki).pipeline));
            if gi < gj {
                lemma_groups_apart(a, gi, gj, i, j);
            } else if gj < gi {
                lemma_groups_apart(a, gj, gi, j, i);
            } else {
                assert(in_output_group(plan, ki, gi, i) && in_output_group(plan, ki, gi, j));
            }
        }
    }
}

/// A node of a group of an input lies in the end where the expansion of the
/// group has placed it.
pub proof fn lemma_input_group_node(plan: Plan, k: int, g: int, i: int)
    requires
        in_input_group(plan, k, g, i),
    ensures
        0 <= i < plan.placed().len() - 1,
        plan.placed()[i] == plan.input_build(k).assembly().expansion(g).end().nodes[i],
        plan.input_build(k).assembly().expansion(g).nodes.len() <= i
            < plan.input_build(k).assembly().expansion(g).nodes.len() + plan.input_at(
            k,
        ).pipeline[g].nodes.len(),
{
    let a = plan.input_build(k).assembly();
    let e = a.expansion(g);
    lemma_expansion_grows(e, 0, e.group.nodes.len() as int);
    lemma_assembly_grows(a, g + 1, a.pipeline.len() as int);
    lemma_assembly_grows(a, 0, g + 1);
    lemma_placed_input(plan, k + 1, i);
}

/// A node of a group of an output lies in the end where the expansion of the
/// group has placed it.
pub proof fn lemma_output_group_node(plan: Plan, k: int, g: int, i: int)
    requires
        in_output_group(plan, k, g, i),
    ensures
        0 <= i < plan.placed().len() - 1,
        plan.placed()[i] == plan.output_build(k).assembly().expansion(g).end().nodes[i],
        plan.output_build(k).assembly().expansion(g).nodes.len() <= i
            < plan.output_build(k).assembly().expansion(g).nodes.len() + plan.output_at(
            k,
        ).pipeline[g].nodes.len(),
{
    let a = plan.output_build(k).assembly();
    let e = a.expansion(g);
    lemma_expansion_grows(e, 0, e.group.nodes.len() as int);
    lemma_assembly_grows(a, g + 1, a.pipeline.len() as int);
    lemma_assembly_grows(a, 0, g + 1);
    lemma_placed_output(plan, k + 1, i);
}

/// Whether two nodes of a finished material cover no common ground. A node
/// reaches from its position to the right and downwards. Edges may touch.
pub open spec fn clear(a: BuiltNodeModel, b: BuiltNodeModel) -> bool {
    ||| a.position.0 + a.kind.size.0 <= b.position.0
    ||| b.position.0 + b.kind.size.0 <= a.position.0
    ||| a.position.1 <= b.position.1 - b.kind.size.1
    ||| b.position.1 <= a.position.1 - a.kind.size.1
}

/// Nodes never lie on top of each other, unless they come from one expansion
/// of one group: any two other nodes of a finished material cover no common
/// ground.
pub proof fn lemma_no_overlap(plan: Plan, i: int, j: int)
    requires
        plan_sized(plan),
        0 <= i < plan.nodes().len(),
        0 <= j < plan.nodes().len(),
        i != j,
        !same_group(plan, i, j),
    ensures
        clear(plan.nodes()[i], plan.nodes()[j]),
{
    if i < j {
        lemma_later_apart(plan, i, j);
    } else {
        assert(!same_group(plan, j, i)) by {
            if same_group(plan, j, i) {
                if exists|k: int, g: int| #[trigger]
                    in_input_group(plan, k, g, j) && in_input_group(plan, k, g, i) {
                    let (k, g) = choose|k: int, g: int| #[trigger]
                        in_input_group(plan, k, g, j) && in_input_group(plan, k, g, i);
                    assert(in_input_group(plan, k, g, i) && in_input_group(plan, k, g, j));
                } else {
                    let (k, g) = choose|k: int, g: int| #[trigger]
                        in_output_group(plan, k, g, j) && in_output_group(plan, k, g, i);
                    assert(in_output_group(plan, k, g, i) && in_output_group(plan, k, g, j));
                }
            }
        }
        lemma_later_apart(plan, j, i);
    }
}

/// Within a group, a node never lies on top of the node placed just before
/// it.
pub proof fn lemma_neighbours_apart(e: Expansion, k: int)
    requires
        1 <= k < e.group.nodes.len(),
    ensures
        apart(e.end().nodes[e.nodes.len() + k - 1], e.end().nodes[e.nodes.len() + k]),
{
    let p = e.placement(k);
    let n = e.group.nodes.len() as int;
    lemma_expansion_grows(e, 0, k);
    lemma_expansion_grows(e, k, k + 1);
    lemma_expansion_grows(e, k + 1, n);
    lemma_makes_way(p);
    assert(e.state(k + 1).nodes == e.state(k).nodes.push(p.built()));
}

/// No node that a builder places has a negative size.
pub proof fn lemma_material_is_sized(builder: MaterialBuilder, plan: Plan)
    requires
        builder@.plan() == Some(plan),
        forall|k: int|
            0 <= k < plan.builder.shader.input_sockets.len() ==> #[trigger] plan.socket_ready(k),
    ensures
        plan_sized(plan),
{
    let inputs = builder.inputs;
    let outputs = builder.outputs;
    assert(builder@.inputs.len() == inputs.len());
    assert(builder@.outputs.len() == outputs.len());
    lemma_sorted_order(builder@.inputs);
    lemma_selection_in_bounds(plan, plan.builder.shader.input_sockets.len() as int);
    let m = plan.selected().inputs.len() as int;
    let o = plan.selected().outputs.len() as int;
    assert forall|k: int| 0 <= k < m implies pipeline_sized(
        (#[trigger] plan.input_at(k)).pipeline,
    ) by {
        let at = plan.selected().inputs[m - 1 - k] as int;
        let input = inputs@[at];
        assert(plan.input_at(k) == input@);
        assert forall|g: int| 0 <= g < input@.pipeline.len() implies sized(
            #[trigger] input@.pipeline[g],
        ) by {
            let group = input.pipeline@[g];
            assert(input@.pipeline[g] == group@);
            assert forall|n: int| 0 <= n < group@.nodes.len() implies (#[trigger] group@.nodes[n]).kind.size.0
                >= 0 && group@.nodes[n].kind.size.1 >= 0 by {
                assert(group@.nodes[n] == group.nodes@[n]@);
            }
        }
    }
    assert forall|k: int| 0 <= k < o implies pipeline_sized(
        (#[trigger] plan.output_at(k)).pipeline,
    ) by {
        let at = plan.selected().outputs[o - 1 - k] as int;
        let output = outputs@[at];
        assert(plan.output_at(k) == output@);
        assert forall|g: int| 0 <= g < output@.pipeline.len() implies sized(
            #[trigger] output@.pipeline[g],
        ) by {
            let group = output.pipeline@[g];
            assert(output@.pipeline[g] == group@);
            assert forall|n: int| 0 <= n < group@.nodes.len() implies (#[trigger] group@.nodes[n]).kind.size.0
                >= 0 && group@.nodes[n].kind.size.1 >= 0 by {
                assert(group@.nodes[n] == group.nodes@[n]@);
            }
        }
    }
}

/// In a material that is built, nodes never lie on top of each other, unless
/// they come from one expansion of one group: any two other nodes cover no
/// common ground.
pub proof fn lemma_built_nodes_are_clear(
    builder: MaterialBuilder,
    data: BuiltMaterialData,
    i: int,
    j: int,
)
    requires
        builder@.buildable(),
        builder@.built() == Ok::<BuiltMaterialModel, Seq<Seq<char>>>(data@),
        0 <= i < data@.nodes.len(),
        0 <= j < data@.nodes.len(),
        i != j,
        !same_group(builder@.plan().unwrap(), i, j),
    ensures
        clear(data@.nodes[i], data@.nodes[j]),
{
    let plan = builder@.plan().unwrap();
    lemma_material_is_sized(builder, plan);
    lemma_no_overlap(plan, i, j);
}

} // verus!
