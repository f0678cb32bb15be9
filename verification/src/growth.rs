//! Nothing that is placed is ever moved or taken away while a material is
//! assembled: every stage only appends to the node list.
use crate::assemble::{InputBuild, OutputBuild};
use crate::assoc::{assoc_index, has_key, lemma_index_is_first};
use crate::builder::Plan;
use crate::group::Expansion;
use crate::pipeline::Assembly;
use vstd::prelude::*;

verus! {

/// Whether `b` begins with `a`.
pub open spec fn extends<T>(a: Seq<T>, b: Seq<T>) -> bool {
    &&& a.len() <= b.len()
    &&& forall|i: int| 0 <= i < a.len() ==> #[trigger] b[i] == a[i]
}

/// The expansion of a group appends one node for each node of the group.
pub proof fn lemma_expansion_grows(e: Expansion, j: int, k: int)
    requires
        0 <= j <= k,
    ensures
        extends(e.state(j).nodes, e.state(k).nodes),
        e.state(k).nodes.len() == e.nodes.len() + k,
    decreases k,
{
    if k > 0 {
        if j < k {
            lemma_expansion_grows(e, j, k - 1);
        } else {
            lemma_expansion_grows(e, k - 1, k - 1);
        }
    }
}

/// The assembly of a pipeline only appends nodes.
pub proof fn lemma_assembly_grows(a: Assembly, j: int, k: int)
    requires
        0 <= j <= k,
    ensures
        extends(a.state(j).nodes, a.state(k).nodes),
    decreases k,
{
    if j < k {
        lemma_assembly_grows(a, j, k - 1);
        let e = a.expansion(k - 1);
        lemma_expansion_grows(e, 0, e.group.nodes.len() as int);
    }
}

/// The assembly of an input only appends nodes.
pub proof fn lemma_input_grows(b: InputBuild)
    ensures
        extends(b.nodes, b.nodes_after()),
{
    lemma_assembly_grows(b.assembly(), 0, b.input.pipeline.len() as int);
}

/// The assembly of an output only appends nodes.
pub proof fn lemma_output_grows(b: OutputBuild)
    ensures
        extends(b.nodes, b.nodes_after()),
{
    lemma_assembly_grows(b.assembly(), 0, b.output.pipeline.len() as int);
}

/// Whether the input in the `k`-th place is assembled there: it is not
/// assembled before.
pub open spec fn assembles(plan: Plan, k: int) -> bool {
    !has_key(plan.inputs_state(k).inputs, plan.input_at(k).id)
}

/// While the inputs are assembled, nodes and assembled inputs are only
/// appended.
pub proof fn lemma_inputs_grow(plan: Plan, j: int, k: int)
    requires
        0 <= j <= k,
    ensures
        extends(plan.inputs_state(j).nodes, plan.inputs_state(k).nodes),
        extends(plan.inputs_state(j).inputs, plan.inputs_state(k).inputs),
    decreases k,
{
    if j < k {
        lemma_inputs_grow(plan, j, k - 1);
        if assembles(plan, k - 1) {
            let b = plan.input_build(k - 1);
            lemma_input_grows(b);
            lemma_index_is_first(b.inputs, b.input.id);
            if assoc_index(b.inputs, b.input.id) is Some {
                let i = assoc_index(b.inputs, b.input.id).unwrap();
                assert(b.inputs[i].0 == b.input.id);
            }
            assert(b.inputs_after() == b.inputs.push((b.input.id, b.built())));
        }
    }
}

/// While the outputs are assembled, nodes are only appended.
pub proof fn lemma_outputs_grow(plan: Plan, j: int, k: int)
    requires
        0 <= j <= k,
    ensures
        extends(plan.outputs_state(j).nodes, plan.outputs_state(k).nodes),
    decreases k,
{
    if j < k {
        lemma_outputs_grow(plan, j, k - 1);
        lemma_output_grows(plan.output_build(k - 1));
    }
}

/// The range of positions in the node list of the nodes that are placed for
/// the input in the `k`-th place.
pub open spec fn input_span(plan: Plan, k: int) -> (int, int) {
    (plan.inputs_state(k).nodes.len() as int, plan.inputs_state(k + 1).nodes.len() as int)
}

/// The range of positions in the node list of the nodes that are placed for
/// the output in the `k`-th place.
pub open spec fn output_span(plan: Plan, k: int) -> (int, int) {
    (plan.outputs_state(k).nodes.len() as int, plan.outputs_state(k + 1).nodes.len() as int)
}

/// The nodes that are placed for an input or an output keep their positions
/// in the node list: the finished list holds each of them, moved and mirrored,
/// where it was appended.
pub proof fn lemma_nodes_stay(plan: Plan, k: int, i: int)
    requires
        0 <= k,
        0 <= i,
    ensures
        k <= plan.selected().inputs.len() && i < plan.inputs_state(k).nodes.len() ==> i
            < plan.nodes().len() && plan.nodes()[i] == plan.inputs_state(k).nodes[i].moved_x(
            -plan.shader_x(),
        ).mirrored_y(),
        k <= plan.selected().outputs.len() && i < plan.outputs_state(k).nodes.len() ==> i
            < plan.nodes().len() && plan.nodes()[i] == plan.outputs_state(k).nodes[i].moved_x(
            -plan.shader_x(),
        ).mirrored_y(),
{
    let m = plan.selected().inputs.len() as int;
    let o = plan.selected().outputs.len() as int;
    lemma_outputs_grow(plan, 0, o);
    if k <= m {
        lemma_inputs_grow(plan, k, m);
    }
    if k <= o {
        lemma_outputs_grow(plan, k, o);
    }
}

} // verus!
