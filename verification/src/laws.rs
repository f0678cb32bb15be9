//! What holds of every material that is built.
use crate::assoc::{assoc_get, has_key, lemma_index_is_first};
use crate::builder::{
    output_index, BuiltMaterialData, BuiltMaterialModel, MaterialBuilder, Plan,
};
use crate::declare::{input_index, InputModel};
use crate::growth::{assembles, input_span, lemma_inputs_grow, output_span};
use crate::resolver::{depends, in_bounds, walk, walk_tail};
use vstd::prelude::*;

verus! {

/// Building is a function of what is declared: builders that hold the same
/// declarations give the same material.
pub proof fn lemma_build_is_deterministic(
    first: MaterialBuilder,
    second: MaterialBuilder,
    one: BuiltMaterialData,
    other: BuiltMaterialData,
)
    requires
        first@ == second@,
        first@.built() == Ok::<BuiltMaterialModel, Seq<Seq<char>>>(one@),
        second@.built() == Ok::<BuiltMaterialModel, Seq<Seq<char>>>(other@),
    ensures
        one@ == other@,
{
}

/// An input is assembled after every input that it reads from: where the
/// input in the `i`-th place reads from the input in the `j`-th place, and both
/// are assembled there, the `j`-th place comes first, and all nodes placed for
/// it come before the nodes placed for the other in the node list.
pub proof fn lemma_dependencies_first(plan: Plan, i: int, j: int)
    requires
        plan.ready(),
        0 <= i < plan.selected().inputs.len(),
        0 <= j < plan.selected().inputs.len(),
        assembles(plan, i),
        assembles(plan, j),
        plan.input_at(i).depends_on(plan.input_at(j).id),
    ensures
        j < i,
        input_span(plan, j).1 <= input_span(plan, i).0,
{
    let reader = plan.input_at(i);
    let id = plan.input_at(j).id;
    assert(plan.input_ready(i));
    let b = plan.input_build(i);
    assert(b.dependencies_built());
    let l = choose|l: int| 0 <= l < reader.links.len() && (#[trigger] reader.links[l]).1.reads(id);
    assert(b.input.links[l].1.reads(id));
    assert(b.dependency_built(l));
    assert(assoc_get(b.inputs, id) is Some);
    assert(has_key(plan.inputs_state(i).inputs, id));
    let at = choose|at: int|
        0 <= at < plan.inputs_state(i).inputs.len() && plan.inputs_state(i).inputs[at].0 == id;
    if j >= i {
        lemma_inputs_grow(plan, i, j);
        assert(plan.inputs_state(j).inputs[at].0 == id);
    }
    lemma_inputs_grow(plan, j + 1, i);
}

/// Whether each input of `chain` reads from the next.
pub open spec fn is_path(inputs: Seq<InputModel>, chain: Seq<usize>) -> bool {
    &&& chain.len() > 0
    &&& in_bounds(chain, inputs.len() as int)
    &&& forall|t: int|
        0 <= t < chain.len() - 1 ==> #[trigger] depends(
            inputs,
            chain[t] as int,
            chain[t + 1] as int,
        )
}

/// Whether the input at `a` reads from the input at `b`, directly or through
/// other inputs, or is that input.
pub open spec fn linked(inputs: Seq<InputModel>, a: usize, b: usize) -> bool {
    exists|chain: Seq<usize>| #[trigger]
        is_path(inputs, chain) && chain[0] == a && chain.last() == b
}

impl Plan {
    /// Whether the output selected for the shader socket in the `k`-th place
    /// names the input at `r` as the `d`-th input that it reads from.
    pub open spec fn reads_root(self, k: int, d: int, r: usize) -> bool {
        &&& 0 <= k < self.builder.shader.input_sockets.len()
        &&& match output_index(self.builder.outputs, self.socket(k)) {
            Some(o) => {
                let dependencies = self.builder.outputs[o].dependencies();
                0 <= d < dependencies.len() && input_index(self.builder.inputs, dependencies[d])
                    == Some(r as int)
            },
            None => false,
        }
    }

    /// Whether a selected output reads from the input at `x`, directly or
    /// through other inputs.
    pub open spec fn reachable(self, x: usize) -> bool {
        exists|k: int, d: int, r: usize| #[trigger]
            self.reads_root(k, d, r) && linked(self.builder.inputs, r, x)
    }
}

/// Every input is linked to itself.
proof fn lemma_link_self(inputs: Seq<InputModel>, a: usize)
    requires
        a < inputs.len(),
    ensures
        linked(inputs, a, a),
{
    let chain = seq![a];
    assert(is_path(inputs, chain) && chain[0] == a && chain.last() == a);
}

/// An input is linked to whatever an input that it reads from is linked to.
proof fn lemma_link_through(inputs: Seq<InputModel>, a: usize, b: usize, c: usize)
    requires
        a < inputs.len(),
        depends(inputs, a as int, b as int),
        linked(inputs, b, c),
    ensures
        linked(inputs, a, c),
{
    let tail = choose|chain: Seq<usize>| #[trigger]
        is_path(inputs, chain) && chain[0] == b && chain.last() == c;
    let chain = seq![a] + tail;
    assert forall|t: int| 0 <= t < chain.len() - 1 implies #[trigger] depends(
        inputs,
        chain[t] as int,
        chain[t + 1] as int,
    ) by {
        if t > 0 {
            let h = t - 1;
            assert(depends(inputs, tail[h] as int, tail[h + 1] as int));
            assert(chain[t] == tail[h] && chain[t + 1] == tail[h + 1]);
        } else {
            assert(chain[0] == a && chain[1] == tail[0]);
        }
    }
    assert forall|t: int| 0 <= t < chain.len() implies (#[trigger] chain[t]) < inputs.len() by {
        if t > 0 {
            assert(chain[t] == tail[t - 1]);
        }
    }
    assert(chain.last() == tail.last());
    assert(is_path(inputs, chain) && chain[0] == a && chain.last() == c);
}

/// Every input of the walk from `dependent` is one that `dependent` reads
/// from, directly or through other inputs, or is `dependent` itself.
pub proof fn lemma_walk_is_linked(
    inputs: Seq<InputModel>,
    order: Seq<usize>,
    upto: int,
    dependent: usize,
)
    requires
        in_bounds(order, inputs.len() as int),
        upto <= order.len(),
        dependent < inputs.len(),
    ensures
        forall|y: usize| #[trigger]
            walk(inputs, order, upto, dependent).contains(y) ==> linked(inputs, dependent, y),
    decreases upto, upto + 1,
{
    if upto <= 0 {
        lemma_link_self(inputs, dependent);
        let only = walk(inputs, order, upto, dependent);
        assert forall|y: usize| #[trigger] only.contains(y) implies y == dependent by {
            let i = choose|i: int| 0 <= i < only.len() && only[i] == y;
            assert(only[0] == dependent);
        }
    } else {
        lemma_walk_tail_is_linked(inputs, order, dependent, upto, 0);
        assert(walk(inputs, order, upto, dependent) == walk_tail(
            inputs,
            order,
            dependent,
            upto,
            0,
        ));
    }
}

/// Every input of a part of the walk from `dependent` is linked to `dependent`.
proof fn lemma_walk_tail_is_linked(
    inputs: Seq<InputModel>,
    order: Seq<usize>,
    dependent: usize,
    upto: int,
    k: int,
)
    requires
        in_bounds(order, inputs.len() as int),
        upto <= order.len(),
        dependent < inputs.len(),
    ensures
        forall|y: usize| #[trigger]
            walk_tail(inputs, order, dependent, upto, k).contains(y) ==> linked(
                inputs,
                dependent,
                y,
            ),
    decreases upto, upto - k,
{
    if k >= upto || k < 0 {
        lemma_link_self(inputs, dependent);
        let only = walk_tail(inputs, order, dependent, upto, k);
        assert forall|y: usize| #[trigger] only.contains(y) implies y == dependent by {
            let i = choose|i: int| 0 <= i < only.len() && only[i] == y;
            assert(only[0] == dependent);
        }
    } else {
        lemma_walk_tail_is_linked(inputs, order, dependent, upto, k + 1);
        let acc = walk_tail(inputs, order, dependent, upto, k + 1);
        if depends(inputs, dependent as int, order[k] as int) {
            let next = walk(inputs, order, k, order[k]);
            lemma_walk_is_linked(inputs, order, k, order[k]);
            let all = acc + next;
            assert forall|y: usize| #[trigger] all.contains(y) implies linked(
                inputs,
                dependent,
                y,
            ) by {
                let i = choose|i: int| 0 <= i < all.len() && all[i] == y;
                if i < acc.len() {
                    assert(acc[i] == y);
                    assert(acc.contains(y));
                } else {
                    assert(next[i - acc.len()] == y);
                    assert(next.contains(y));
                    lemma_link_through(inputs, dependent, order[k], y);
                }
            }
        }
    }
}

/// Every input of the walks for a selected output is one that the output reads
/// from, directly or through other inputs.
proof fn lemma_walks_are_reachable(plan: Plan, k: int, n: int)
    requires
        plan.builder.inputs.len() <= usize::MAX,
        in_bounds(plan.order, plan.builder.inputs.len() as int),
        0 <= k < plan.builder.shader.input_sockets.len(),
        output_index(plan.builder.outputs, plan.socket(k)) is Some,
        plan.socket_ready(k),
        0 <= n <= plan.builder.outputs[output_index(
            plan.builder.outputs,
            plan.socket(k),
        ).unwrap()].dependencies().len(),
    ensures
        forall|y: usize| #[trigger]
            plan.walks(
                plan.builder.outputs[output_index(
                    plan.builder.outputs,
                    plan.socket(k),
                ).unwrap()].dependencies(),
                n,
            ).contains(y) ==> plan.reachable(y),
    decreases n,
{
    if n > 0 {
        lemma_walks_are_reachable(plan, k, n - 1);
        let inputs = plan.builder.inputs;
        let o = output_index(plan.builder.outputs, plan.socket(k)).unwrap();
        let dependencies = plan.builder.outputs[o].dependencies();
        let acc = plan.walks(dependencies, n - 1);
        assert(input_index(inputs, dependencies[n - 1]) is Some);
        let at = input_index(inputs, dependencies[n - 1]).unwrap();
        lemma_index_is_first(crate::declare::named_inputs(inputs), dependencies[n - 1]);
        let r = at as usize;
        let next = walk(inputs, plan.order, plan.order.len() as int, r);
        lemma_walk_is_linked(inputs, plan.order, plan.order.len() as int, r);
        let all = acc + next;
        assert(plan.reads_root(k, n - 1, r));
        assert forall|y: usize| #[trigger] all.contains(y) implies plan.reachable(y) by {
            let i = choose|i: int| 0 <= i < all.len() && all[i] == y;
            if i < acc.len() {
                assert(acc[i] == y);
                assert(acc.contains(y));
            } else {
                assert(next[i - acc.len()] == y);
                assert(next.contains(y));
                assert(plan.reads_root(k, n - 1, r) && linked(inputs, r, y));
            }
        }
    }
}

/// Every selected input is one that a selected output reads from, directly or
/// through other inputs.
proof fn lemma_selection_is_reachable(plan: Plan, n: int)
    requires
        plan.builder.inputs.len() <= usize::MAX,
        in_bounds(plan.order, plan.builder.inputs.len() as int),
        forall|k: int|
            0 <= k < plan.builder.shader.input_sockets.len() ==> #[trigger] plan.socket_ready(k),
        0 <= n <= plan.builder.shader.input_sockets.len(),
    ensures
        forall|y: usize| #[trigger] plan.selection(n).inputs.contains(y) ==> plan.reachable(y),
    decreases n,
{
    if n > 0 {
        lemma_selection_is_reachable(plan, n - 1);
        let acc = plan.selection(n - 1).inputs;
        assert(plan.socket_ready(n - 1));
        match output_index(plan.builder.outputs, plan.socket(n - 1)) {
            Some(o) => {
                let dependencies = plan.builder.outputs[o].dependencies();
                let next = plan.walks(dependencies, dependencies.len() as int);
                lemma_walks_are_reachable(plan, n - 1, dependencies.len() as int);
                let all = acc + next;
                assert(plan.selection(n).inputs == all);
                assert forall|y: usize| #[trigger] all.contains(y) implies plan.reachable(y) by {
                    let i = choose|i: int| 0 <= i < all.len() && all[i] == y;
                    if i < acc.len() {
                        assert(acc[i] == y);
                        assert(acc.contains(y));
                    } else {
                        assert(next[i - acc.len()] == y);
                        assert(next.contains(y));
                    }
                }
            },
            None => {},
        }
    }
}

/// Only what is needed is assembled: every input that is assembled is one that
/// a selected output reads from, directly or through other inputs.
pub proof fn lemma_only_reachable_inputs(plan: Plan, k: int)
    requires
        plan.builder.inputs.len() <= usize::MAX,
        plan.ready(),
        0 <= k < plan.selected().inputs.len(),
    ensures
        plan.reachable(plan.selected().inputs[k]),
{
    lemma_selection_is_reachable(plan, plan.builder.shader.input_sockets.len() as int);
    assert(plan.selected().inputs.contains(plan.selected().inputs[k]));
}

/// Each node that is placed while the inputs are assembled is placed for one of
/// them.
pub proof fn lemma_find_input(plan: Plan, x: int, k: int) -> (j: int)
    requires
        0 <= k,
        0 <= x < plan.inputs_state(k).nodes.len(),
    ensures
        0 <= j < k,
        assembles(plan, j),
        input_span(plan, j).0 <= x < input_span(plan, j).1,
    decreases k,
{
    if x < plan.inputs_state(k - 1).nodes.len() {
        lemma_find_input(plan, x, k - 1)
    } else {
        k - 1
    }
}

/// Each node that is placed while the outputs are assembled is placed for one of
/// them.
pub proof fn lemma_find_output(plan: Plan, x: int, k: int) -> (j: int)
    requires
        0 <= k,
        plan.built_inputs().nodes.len() <= x < plan.outputs_state(k).nodes.len(),
    ensures
        0 <= j < k,
        output_span(plan, j).0 <= x < output_span(plan, j).1,
    decreases k,
{
    if x < plan.outputs_state(k - 1).nodes.len() {
        lemma_find_output(plan, x, k - 1)
    } else {
        k - 1
    }
}

/// Where the nodes come from: each node of the finished list is placed for an
/// input that is assembled, or for a selected output, or is the shader node,
/// which is the last.
pub proof fn lemma_node_origin(plan: Plan, x: int)
    requires
        0 <= x < plan.nodes().len(),
    ensures
        (exists|j: int|
            0 <= j < plan.selected().inputs.len() && assembles(plan, j) && (#[trigger] input_span(
                plan,
                j,
            )).0 <= x < input_span(plan, j).1) || (exists|j: int|
            0 <= j < plan.selected().outputs.len() && (#[trigger] output_span(plan, j)).0 <= x
                < output_span(plan, j).1) || x == plan.nodes().len() - 1,
{
    let m = plan.selected().inputs.len() as int;
    let o = plan.selected().outputs.len() as int;
    if x < plan.inputs_state(m).nodes.len() {
        let j = lemma_find_input(plan, x, m);
        assert(input_span(plan, j).0 <= x < input_span(plan, j).1);
    } else if x < plan.outputs_state(o).nodes.len() {
        let j = lemma_find_output(plan, x, o);
        assert(output_span(plan, j).0 <= x < output_span(plan, j).1);
    }
}

} // verus!
