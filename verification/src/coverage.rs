//! The order in which the inputs are assembled lets no input wait: whatever an
//! input reads from is assembled before it.
use crate::assoc::{has_key, lemma_index_is_first};
use crate::builder::{output_index, Plan};
use crate::declare::{input_index, named_inputs, InputModel, LinkModel};
use crate::growth::{assembles, lemma_inputs_grow};
use crate::resolver::{depends, in_bounds, walk, walk_tail};
use crate::schedule::{is_schedule, lemma_sorted_order};
use vstd::prelude::*;

verus! {

/// Whether `w` holds, after each of its inputs, every input that this one
/// reads from.
pub open spec fn covered(inputs: Seq<InputModel>, w: Seq<usize>) -> bool {
    forall|p: int, b: int|
        0 <= p < w.len() && 0 <= b < inputs.len() && #[trigger] depends(inputs, w[p] as int, b)
            ==> exists|q: int| p < q < w.len() && w[q] == b
}

/// Whether every input that the input at `d` reads from is among the first
/// `upto` inputs of `order`.
pub open spec fn within(inputs: Seq<InputModel>, order: Seq<usize>, upto: int, d: usize) -> bool {
    forall|b: int|
        0 <= b < inputs.len() && #[trigger] depends(inputs, d as int, b) ==> exists|j: int|
            0 <= j < upto && order[j] == b
}

/// What holds of the part of a walk that is made when the inputs of `order`
/// from `upto` down to `k` have been looked at.
spec fn tail_covered(
    inputs: Seq<InputModel>,
    order: Seq<usize>,
    dependent: usize,
    upto: int,
    k: int,
) -> bool {
    let w = walk_tail(inputs, order, dependent, upto, k);
    &&& w.len() >= 1
    &&& w[0] == dependent
    &&& in_bounds(w, inputs.len() as int)
    &&& forall|p: int, b: int|
        1 <= p < w.len() && 0 <= b < inputs.len() && #[trigger] depends(inputs, w[p] as int, b)
            ==> exists|q: int| p < q < w.len() && w[q] == b
    &&& forall|j: int|
        k <= j < upto && 0 <= j && #[trigger] depends(inputs, dependent as int, order[j] as int)
            ==> exists|q: int| 1 <= q < w.len() && w[q] == order[j]
}

/// A walk through a schedule holds, after each of its inputs, every input that
/// this one reads from.
pub proof fn lemma_walk_is_covered(
    inputs: Seq<InputModel>,
    order: Seq<usize>,
    upto: int,
    dependent: usize,
)
    requires
        inputs.len() <= usize::MAX,
        is_schedule(inputs, order),
        0 <= upto <= order.len(),
        dependent < inputs.len(),
        within(inputs, order, upto, dependent),
    ensures
        covered(inputs, walk(inputs, order, upto, dependent)),
        walk(inputs, order, upto, dependent).len() >= 1,
        walk(inputs, order, upto, dependent)[0] == dependent,
        in_bounds(walk(inputs, order, upto, dependent), inputs.len() as int),
    decreases upto, upto + 1,
{
    let w = walk(inputs, order, upto, dependent);
    if upto <= 0 {
        assert forall|p: int, b: int|
            0 <= p < w.len() && 0 <= b < inputs.len() && #[trigger] depends(
                inputs,
                w[p] as int,
                b,
            ) implies exists|q: int| p < q < w.len() && w[q] == b by {
            let j = choose|j: int| 0 <= j < upto && order[j] == b;
        }
    } else {
        lemma_tail_is_covered(inputs, order, dependent, upto, 0);
        assert(w == walk_tail(inputs, order, dependent, upto, 0));
        assert(tail_covered(inputs, order, dependent, upto, 0));
        assert forall|p: int, b: int|
            0 <= p < w.len() && 0 <= b < inputs.len() && #[trigger] depends(
                inputs,
                w[p] as int,
                b,
            ) implies exists|q: int| p < q < w.len() && w[q] == b by {
            if p == 0 {
                let j = choose|j: int| 0 <= j < upto && order[j] == b;
                assert(depends(inputs, dependent as int, order[j] as int));
                let q = choose|q: int| 1 <= q < w.len() && w[q] == order[j];
                assert(p < q < w.len() && w[q] == b);
            }
        }
    }
}

/// Each part of a walk through a schedule is covered.
proof fn lemma_tail_is_covered(
    inputs: Seq<InputModel>,
    order: Seq<usize>,
    dependent: usize,
    upto: int,
    k: int,
)
    requires
        inputs.len() <= usize::MAX,
        is_schedule(inputs, order),
        0 <= upto <= order.len(),
        dependent < inputs.len(),
        0 <= k,
    ensures
        tail_covered(inputs, order, dependent, upto, k),
    decreases upto, upto - k,
{
    let w = walk_tail(inputs, order, dependent, upto, k);
    if k >= upto {
    } else {
        lemma_tail_is_covered(inputs, order, dependent, upto, k + 1);
        let acc = walk_tail(inputs, order, dependent, upto, k + 1);
        assert(tail_covered(inputs, order, dependent, upto, k + 1));
        if depends(inputs, dependent as int, order[k] as int) {
            let next = order[k];
            assert(within(inputs, order, k, next)) by {
                assert forall|b: int|
                    0 <= b < inputs.len() && #[trigger] depends(
                        inputs,
                        next as int,
                        b,
                    ) implies exists|j: int| 0 <= j < k && order[j] == b by {
                    assert(depends(inputs, order[k] as int, b));
                }
            }
            lemma_walk_is_covered(inputs, order, k, next);
            let seg = walk(inputs, order, k, next);
            assert(w == acc + seg);
            assert forall|i: int| 0 <= i < w.len() implies (#[trigger] w[i]) < inputs.len() by {
                if i < acc.len() {
                    assert(w[i] == acc[i]);
                } else {
                    assert(w[i] == seg[i - acc.len()]);
                }
            }
            assert forall|p: int, b: int|
                1 <= p < w.len() && 0 <= b < inputs.len() && #[trigger] depends(
                    inputs,
                    w[p] as int,
                    b,
                ) implies exists|q: int| p < q < w.len() && w[q] == b by {
                if p < acc.len() {
                    assert(w[p] == acc[p]);
                    assert(depends(inputs, acc[p] as int, b));
                    let q = choose|q: int| p < q < acc.len() && acc[q] == b;
                    assert(w[q] == b);
                } else {
                    let h = p - acc.len();
                    assert(w[p] == seg[h]);
                    assert(depends(inputs, seg[h] as int, b));
                    let q = choose|q: int| h < q < seg.len() && seg[q] == b;
                    assert(w[acc.len() + q] == b);
                }
            }
            assert forall|j: int|
                k <= j < upto && 0 <= j && #[trigger] depends(
                    inputs,
                    dependent as int,
                    order[j] as int,
                ) implies exists|q: int| 1 <= q < w.len() && w[q] == order[j] by {
                if j == k {
                    assert(w[acc.len() as int] == seg[0]);
                } else {
                    let q = choose|q: int| 1 <= q < acc.len() && acc[q] == order[j];
                    assert(w[q] == order[j]);
                }
            }
        } else {
            assert(w == acc);
        }
    }
}

/// What is covered stays covered when it is followed by what is covered.
proof fn lemma_concat_is_covered(inputs: Seq<InputModel>, a: Seq<usize>, b: Seq<usize>)
    requires
        covered(inputs, a),
        covered(inputs, b),
    ensures
        covered(inputs, a + b),
{
    let w = a + b;
    assert forall|p: int, d: int|
        0 <= p < w.len() && 0 <= d < inputs.len() && #[trigger] depends(
            inputs,
            w[p] as int,
            d,
        ) implies exists|q: int| p < q < w.len() && w[q] == d by {
        if p < a.len() {
            assert(w[p] == a[p]);
            assert(depends(inputs, a[p] as int, d));
            let q = choose|q: int| p < q < a.len() && a[q] == d;
            assert(w[q] == d);
        } else {
            let h = p - a.len();
            assert(w[p] == b[h]);
            assert(depends(inputs, b[h] as int, d));
            let q = choose|q: int| h < q < b.len() && b[q] == d;
            assert(w[a.len() + q] == d);
        }
    }
}

/// The walks from declared inputs through a schedule are covered.
proof fn lemma_walks_are_covered(plan: Plan, dependencies: Seq<Seq<char>>, n: int)
    requires
        plan.builder.inputs.len() <= usize::MAX,
        is_schedule(plan.builder.inputs, plan.order),
        plan.declared(dependencies),
        0 <= n <= dependencies.len(),
    ensures
        covered(plan.builder.inputs, plan.walks(dependencies, n)),
    decreases n,
{
    if n > 0 {
        lemma_walks_are_covered(plan, dependencies, n - 1);
        let inputs = plan.builder.inputs;
        assert(input_index(inputs, dependencies[n - 1]) is Some);
        lemma_index_is_first(named_inputs(inputs), dependencies[n - 1]);
        let root = input_index(inputs, dependencies[n - 1]).unwrap() as usize;
        let upto = plan.order.len() as int;
        assert(within(inputs, plan.order, upto, root)) by {
            assert forall|b: int|
                0 <= b < inputs.len() && #[trigger] depends(
                    inputs,
                    root as int,
                    b,
                ) implies exists|j: int| 0 <= j < upto && plan.order[j] == b by {
                assert(plan.order.contains(b as usize));
            }
        }
        lemma_walk_is_covered(inputs, plan.order, upto, root);
        lemma_concat_is_covered(
            inputs,
            plan.walks(dependencies, n - 1),
            walk(inputs, plan.order, upto, root),
        );
    }
}

/// The selected inputs are covered.
proof fn lemma_selection_is_covered(plan: Plan, n: int)
    requires
        plan.builder.inputs.len() <= usize::MAX,
        is_schedule(plan.builder.inputs, plan.order),
        forall|k: int|
            0 <= k < plan.builder.shader.input_sockets.len() ==> #[trigger] plan.socket_ready(k),
        0 <= n <= plan.builder.shader.input_sockets.len(),
    ensures
        covered(plan.builder.inputs, plan.selection(n).inputs),
    decreases n,
{
    if n > 0 {
        lemma_selection_is_covered(plan, n - 1);
        assert(plan.socket_ready(n - 1));
        match output_index(plan.builder.outputs, plan.socket(n - 1)) {
            Some(o) => {
                let dependencies = plan.builder.outputs[o].dependencies();
                lemma_walks_are_covered(plan, dependencies, dependencies.len() as int);
                lemma_concat_is_covered(
                    plan.builder.inputs,
                    plan.selection(n - 1).inputs,
                    plan.walks(dependencies, dependencies.len() as int),
                );
            },
            None => {},
        }
    }
}

/// Once the input in the `k`-th place has had its turn, it is assembled.
pub proof fn lemma_turn_assembles(plan: Plan, k: int)
    requires
        0 <= k,
    ensures
        has_key(plan.inputs_state(k + 1).inputs, plan.input_at(k).id),
{
    let before = plan.inputs_state(k).inputs;
    let id = plan.input_at(k).id;
    if assembles(plan, k) {
        let b = plan.input_build(k);
        lemma_index_is_first(b.inputs, id);
        let after = plan.inputs_state(k + 1).inputs;
        assert(after == before.push((id, b.built())));
        assert(after[before.len() as int].0 == id);
    } else {
        assert(plan.inputs_state(k + 1) == plan.inputs_state(k));
    }
}

/// No input waits for another: when an input has its turn, every declared
/// input that one of its links reads from is assembled. This holds of every
/// material whose inputs can be put in order and whose selected outputs read
/// from declared inputs.
pub proof fn lemma_dependencies_are_assembled(plan: Plan, k: int, l: int)
    requires
        plan.builder.inputs.len() <= usize::MAX,
        plan.builder.plan() == Some(plan),
        forall|s: int|
            0 <= s < plan.builder.shader.input_sockets.len() ==> #[trigger] plan.socket_ready(s),
        0 <= k < plan.selected().inputs.len(),
        0 <= l < plan.input_at(k).links.len(),
    ensures
        match plan.input_at(k).links[l].1 {
            LinkModel::Input(r) => input_index(plan.builder.inputs, r.target) is Some ==> has_key(
                plan.inputs_state(k).inputs,
                r.target,
            ),
            LinkModel::Value(_) => true,
        },
{
    let inputs = plan.builder.inputs;
    let selected = plan.selected().inputs;
    let m = selected.len() as int;
    lemma_sorted_order(inputs);
    lemma_selection_is_covered(plan, plan.builder.shader.input_sockets.len() as int);
    if let LinkModel::Input(r) = plan.input_at(k).links[l].1 {
        if input_index(inputs, r.target) is Some {
            lemma_index_is_first(named_inputs(inputs), r.target);
            let b = input_index(inputs, r.target).unwrap();
            let p = m - 1 - k;
            assert(inputs[b].id == r.target);
            assert(plan.input_at(k).links[l].1.reads(inputs[b].id));
            assert(depends(inputs, selected[p] as int, b));
            let q = choose|q: int| p < q < m && selected[q] == b;
            let turn = m - 1 - q;
            assert(plan.input_at(turn) == inputs[b]);
            lemma_turn_assembles(plan, turn);
            lemma_inputs_grow(plan, turn + 1, k);
            let assembled = plan.inputs_state(turn + 1).inputs;
            let at = choose|at: int| 0 <= at < assembled.len() && assembled[at].0 == r.target;
            assert(plan.inputs_state(k).inputs[at].0 == r.target);
        }
    }
}

/// The walks from declared inputs through a schedule hold positions of inputs.
proof fn lemma_walks_in_bounds(plan: Plan, dependencies: Seq<Seq<char>>, n: int)
    requires
        plan.builder.inputs.len() <= usize::MAX,
        is_schedule(plan.builder.inputs, plan.order),
        plan.declared(dependencies),
        0 <= n <= dependencies.len(),
    ensures
        in_bounds(plan.walks(dependencies, n), plan.builder.inputs.len() as int),
    decreases n,
{
    if n > 0 {
        lemma_walks_in_bounds(plan, dependencies, n - 1);
        let inputs = plan.builder.inputs;
        assert(input_index(inputs, dependencies[n - 1]) is Some);
        lemma_index_is_first(named_inputs(inputs), dependencies[n - 1]);
        let root = input_index(inputs, dependencies[n - 1]).unwrap() as usize;
        let upto = plan.order.len() as int;
        assert(within(inputs, plan.order, upto, root)) by {
            assert forall|b: int|
                0 <= b < inputs.len() && #[trigger] depends(
                    inputs,
                    root as int,
                    b,
                ) implies exists|j: int| 0 <= j < upto && plan.order[j] == b by {
                assert(plan.order.contains(b as usize));
            }
        }
        lemma_walk_is_covered(inputs, plan.order, upto, root);
        let acc = plan.walks(dependencies, n - 1);
        let next = walk(inputs, plan.order, upto, root);
        let all = acc + next;
        assert forall|i: int| 0 <= i < all.len() implies (#[trigger] all[i]) < inputs.len() by {
            if i < acc.len() {
                assert(all[i] == acc[i]);
            } else {
                assert(all[i] == next[i - acc.len()]);
            }
        }
    }
}

/// Everything that is selected is declared: the selected outputs and inputs
/// are positions of declared outputs and inputs.
pub proof fn lemma_selection_in_bounds(plan: Plan, n: int)
    requires
        plan.builder.inputs.len() <= usize::MAX,
        plan.builder.outputs.len() <= usize::MAX,
        is_schedule(plan.builder.inputs, plan.order),
        forall|k: int|
            0 <= k < plan.builder.shader.input_sockets.len() ==> #[trigger] plan.socket_ready(k),
        0 <= n <= plan.builder.shader.input_sockets.len(),
    ensures
        in_bounds(plan.selection(n).inputs, plan.builder.inputs.len() as int),
        in_bounds(plan.selection(n).outputs, plan.builder.outputs.len() as int),
    decreases n,
{
    if n > 0 {
        lemma_selection_in_bounds(plan, n - 1);
        assert(plan.socket_ready(n - 1));
        match output_index(plan.builder.outputs, plan.socket(n - 1)) {
            Some(o) => {
                let dependencies = plan.builder.outputs[o].dependencies();
                lemma_index_is_first(
                    crate::builder::bound_outputs(plan.builder.outputs),
                    plan.socket(n - 1),
                );
                lemma_walks_in_bounds(plan, dependencies, dependencies.len() as int);
                let acc = plan.selection(n - 1).inputs;
                let next = plan.walks(dependencies, dependencies.len() as int);
                let all = acc + next;
                assert forall|i: int| 0 <= i < all.len() implies (#[trigger] all[i])
                    < plan.builder.inputs.len() by {
                    if i < acc.len() {
                        assert(all[i] == acc[i]);
                    } else {
                        assert(all[i] == next[i - acc.len()]);
                    }
                }
                let before = plan.selection(n - 1).outputs;
                let now = before.push(o as usize);
                assert forall|i: int| 0 <= i < now.len() implies (#[trigger] now[i])
                    < plan.builder.outputs.len() by {
                    if i < before.len() {
                        assert(now[i] == before[i]);
                    }
                }
            },
            None => {},
        }
    }
}

} // verus!
