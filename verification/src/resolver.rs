//! Ordering the inputs by their dependencies.
//!
//! An edge leads from an input to each input that reads from it. The sort
//! takes an input that nothing holds back, appends it to the order, removes
//! the edges that leave it, and goes on with the inputs that this sets free.
//! Edges that are left when no input can be taken show that there is no order.
use crate::declare::{Input, InputModel};
use crate::schedule::{is_schedule, lemma_sorted_order, rooted};
use vstd::prelude::*;

verus! {

/// Whether the input at `a` reads from the input at `b`.
pub open spec fn depends(inputs: Seq<InputModel>, a: int, b: int) -> bool {
    inputs[a].depends_on(inputs[b].id)
}

/// The edges from the input at `source` to those of the first `m` inputs that
/// read from it.
pub open spec fn dependents(inputs: Seq<InputModel>, source: int, m: int) -> Seq<(usize, usize)>
    decreases m,
{
    if m <= 0 {
        Seq::empty()
    } else {
        let acc = dependents(inputs, source, m - 1);
        if depends(inputs, m - 1, source) {
            acc.push((source as usize, (m - 1) as usize))
        } else {
            acc
        }
    }
}

/// The edges that leave the first `k` inputs.
pub open spec fn edges_from(inputs: Seq<InputModel>, k: int) -> Seq<(usize, usize)>
    decreases k,
{
    if k <= 0 {
        Seq::empty()
    } else {
        edges_from(inputs, k - 1) + dependents(inputs, k - 1, inputs.len() as int)
    }
}

/// Those of the first `k` inputs that read from no input.
pub open spec fn roots(inputs: Seq<InputModel>, k: int) -> Seq<usize>
    decreases k,
{
    if k <= 0 {
        Seq::empty()
    } else {
        let acc = roots(inputs, k - 1);
        if inputs[k - 1].is_dependency_free() {
            acc.push((k - 1) as usize)
        } else {
            acc
        }
    }
}

/// Those of the first `n` edges that do not leave `node`.
pub open spec fn kept(edges: Seq<(usize, usize)>, node: usize, n: int) -> Seq<(usize, usize)>
    decreases n,
{
    if n <= 0 {
        Seq::empty()
    } else {
        let acc = kept(edges, node, n - 1);
        if edges[n - 1].0 == node {
            acc
        } else {
            acc.push(edges[n - 1])
        }
    }
}

/// Where those of the first `n` edges that leave `node` lead.
pub open spec fn freed(edges: Seq<(usize, usize)>, node: usize, n: int) -> Seq<usize>
    decreases n,
{
    if n <= 0 {
        Seq::empty()
    } else {
        let acc = freed(edges, node, n - 1);
        if edges[n - 1].0 == node {
            acc.push(edges[n - 1].1)
        } else {
            acc
        }
    }
}

/// Whether some edge leads to `target`.
pub open spec fn has_target(edges: Seq<(usize, usize)>, target: usize) -> bool {
    exists|i: int| 0 <= i < edges.len() && (#[trigger] edges[i]).1 == target
}

/// The frontier after those of the first `n` freed inputs that no edge leads
/// to any more have joined it.
pub open spec fn promoted(
    frontier: Seq<usize>,
    freed: Seq<usize>,
    remaining: Seq<(usize, usize)>,
    n: int,
) -> Seq<usize>
    decreases n,
{
    if n <= 0 {
        frontier
    } else {
        let acc = promoted(frontier, freed, remaining, n - 1);
        if has_target(remaining, freed[n - 1]) {
            acc
        } else {
            acc.push(freed[n - 1])
        }
    }
}

/// How far the sort has come.
pub struct SortState {
    /// The edges that leave inputs not yet taken.
    pub edges: Seq<(usize, usize)>,
    /// The inputs that nothing holds back, the next to take last.
    pub frontier: Seq<usize>,
    /// The inputs taken, in order.
    pub sorted: Seq<usize>,
}

impl SortState {
    /// The sort before any input is taken.
    pub open spec fn start(inputs: Seq<InputModel>) -> SortState {
        SortState {
            edges: edges_from(inputs, inputs.len() as int),
            frontier: roots(inputs, inputs.len() as int),
            sorted: Seq::empty(),
        }
    }

    /// The sort after the next input is taken; unchanged where none can be.
    pub open spec fn step(self) -> SortState {
        if self.frontier.len() == 0 {
            self
        } else {
            let node = self.frontier.last();
            let remaining = kept(self.edges, node, self.edges.len() as int);
            let targets = freed(self.edges, node, self.edges.len() as int);
            SortState {
                edges: remaining,
                frontier: promoted(
                    self.frontier.drop_last(),
                    targets,
                    remaining,
                    targets.len() as int,
                ),
                sorted: self.sorted.push(node),
            }
        }
    }

    /// The sort after `k` steps.
    pub open spec fn after(inputs: Seq<InputModel>, k: int) -> SortState
        decreases k,
    {
        if k <= 0 {
            SortState::start(inputs)
        } else {
            SortState::after(inputs, k - 1).step()
        }
    }

    /// What is left to do at most: one step for each input in the frontier and
    /// for each edge.
    pub open spec fn work(self) -> int {
        (self.frontier.len() + self.edges.len()) as int
    }

    /// The sort when no input can be taken any more.
    pub open spec fn end(inputs: Seq<InputModel>) -> SortState {
        SortState::after(inputs, SortState::start(inputs).work())
    }
}

/// The order in which the sort takes the inputs, where it takes every input
/// that another one reads from.
pub open spec fn sorted_order(inputs: Seq<InputModel>) -> Option<Seq<usize>> {
    let end = SortState::end(inputs);
    if end.edges.len() == 0 {
        Some(end.sorted)
    } else {
        None
    }
}

/// Each edge is either kept or freed.
proof fn lemma_release_lengths(edges: Seq<(usize, usize)>, node: usize, n: int)
    requires
        0 <= n <= edges.len(),
    ensures
        kept(edges, node, n).len() + freed(edges, node, n).len() == n,
    decreases n,
{
    if n > 0 {
        lemma_release_lengths(edges, node, n - 1);
    }
}

/// No more inputs join the frontier than are freed.
proof fn lemma_promoted_length(
    frontier: Seq<usize>,
    targets: Seq<usize>,
    remaining: Seq<(usize, usize)>,
    n: int,
)
    requires
        0 <= n <= targets.len(),
    ensures
        frontier.len() <= promoted(frontier, targets, remaining, n).len() <= frontier.len() + n,
    decreases n,
{
    if n > 0 {
        lemma_promoted_length(frontier, targets, remaining, n - 1);
    }
}

/// Each step that takes an input leaves less to do.
pub proof fn lemma_step_work(s: SortState)
    requires
        s.frontier.len() > 0,
    ensures
        s.step().work() < s.work(),
{
    let node = s.frontier.last();
    let n = s.edges.len() as int;
    lemma_release_lengths(s.edges, node, n);
    let targets = freed(s.edges, node, n);
    lemma_promoted_length(
        s.frontier.drop_last(),
        targets,
        kept(s.edges, node, n),
        targets.len() as int,
    );
}

/// Once no input can be taken, further steps change nothing.
pub proof fn lemma_sort_settles(inputs: Seq<InputModel>, k: int, m: int)
    requires
        0 <= k <= m,
        SortState::after(inputs, k).frontier.len() == 0,
    ensures
        SortState::after(inputs, m) == SortState::after(inputs, k),
    decreases m - k,
{
    if k < m {
        lemma_sort_settles(inputs, k, m - 1);
    }
}

/// The edges from the inputs to those that read from them.
pub fn dependency_edges(inputs: &Vec<Input>) -> (r: Vec<(usize, usize)>)
    ensures
        r@ == edges_from(inputs.deep_view(), inputs@.len() as int),
{
    let ghost model = inputs.deep_view();
    let n = inputs.len();
    let mut edges: Vec<(usize, usize)> = Vec::new();
    let mut source: usize = 0;
    while source < n
        invariant
            source <= n,
            n == inputs@.len(),
            model == inputs.deep_view(),
            edges@ == edges_from(model, source as int),
        decreases n - source,
    {
        let ghost before = edges@;
        let mut target: usize = 0;
        while target < n
            invariant
                target <= n,
                source < n,
                n == inputs@.len(),
                model == inputs.deep_view(),
                edges@ == before + dependents(model, source as int, target as int),
            decreases n - target,
        {
            let ghost row = dependents(model, source as int, target as int);
            if inputs[target].depends_on(&inputs[source]) {
                edges.push((source, target));
                assert(edges@ =~= before + row.push((source, target)));
            }
            target += 1;
        }
        source += 1;
    }
    edges
}

/// The inputs that read from no input.
pub fn dependency_free(inputs: &Vec<Input>) -> (r: Vec<usize>)
    ensures
        r@ == roots(inputs.deep_view(), inputs@.len() as int),
{
    let mut found: Vec<usize> = Vec::new();
    let mut i: usize = 0;
    while i < inputs.len()
        invariant
            i <= inputs@.len(),
            found@ == roots(inputs.deep_view(), i as int),
        decreases inputs@.len() - i,
    {
        if inputs[i].is_dependency_free() {
            found.push(i);
        }
        i += 1;
    }
    found
}

/// Parts the edges into those that stay and the ends of those that leave
/// `node`.
fn release(edges: &Vec<(usize, usize)>, node: usize) -> (r: (Vec<(usize, usize)>, Vec<usize>))
    ensures
        r.0@ == kept(edges@, node, edges@.len() as int),
        r.1@ == freed(edges@, node, edges@.len() as int),
{
    let mut remaining: Vec<(usize, usize)> = Vec::new();
    let mut targets: Vec<usize> = Vec::new();
    let mut i: usize = 0;
    while i < edges.len()
        invariant
            i <= edges@.len(),
            remaining@ == kept(edges@, node, i as int),
            targets@ == freed(edges@, node, i as int),
        decreases edges@.len() - i,
    {
        if edges[i].0 == node {
            targets.push(edges[i].1);
        } else {
            remaining.push(edges[i]);
        }
        i += 1;
    }
    (remaining, targets)
}

/// Whether some edge leads to `target`.
fn leads_to(edges: &Vec<(usize, usize)>, target: usize) -> (r: bool)
    ensures
        r == has_target(edges@, target),
{
    let mut i: usize = 0;
    while i < edges.len()
        invariant
            i <= edges@.len(),
            forall|j: int| 0 <= j < i ==> (#[trigger] edges@[j]).1 != target,
        decreases edges@.len() - i,
    {
        if edges[i].1 == target {
            assert(edges@[i as int].1 == target);
            return true;
        }
        i += 1;
    }
    false
}

/// Lets the freed inputs that no edge leads to any more join the frontier.
fn promote(frontier: &mut Vec<usize>, targets: &Vec<usize>, remaining: &Vec<(usize, usize)>)
    ensures
        final(frontier)@ == promoted(
            old(frontier)@,
            targets@,
            remaining@,
            targets@.len() as int,
        ),
{
    let mut i: usize = 0;
    while i < targets.len()
        invariant
            i <= targets@.len(),
            frontier@ == promoted(old(frontier)@, targets@, remaining@, i as int),
        decreases targets@.len() - i,
    {
        if !leads_to(remaining, targets[i]) {
            frontier.push(targets[i]);
        }
        i += 1;
    }
}

/// Runs the sort to its end and returns the inputs taken, in order, and the
/// edges that are left.
pub fn sort_inputs(inputs: &Vec<Input>) -> (r: (Vec<usize>, Vec<(usize, usize)>))
    ensures
        r.0@ == SortState::end(inputs.deep_view()).sorted,
        r.1@ == SortState::end(inputs.deep_view()).edges,
{
    let ghost model = inputs.deep_view();
    let mut edges = dependency_edges(inputs);
    let mut frontier = dependency_free(inputs);
    let mut sorted: Vec<usize> = Vec::new();
    let ghost total = SortState::start(model).work();
    let ghost k: int = 0;
    assert(sorted@ =~= Seq::<usize>::empty());
    loop
        invariant
            0 <= k,
            model == inputs.deep_view(),
            total == SortState::start(model).work(),
            SortState::after(model, k) == (SortState {
                edges: edges@,
                frontier: frontier@,
                sorted: sorted@,
            }),
            k + frontier@.len() + edges@.len() <= total,
        decreases frontier@.len() + edges@.len(),
    {
        let ghost state = SortState { edges: edges@, frontier: frontier@, sorted: sorted@ };
        let next = frontier.pop();
        match next {
            None => {
                proof {
                    lemma_sort_settles(model, k, total);
                }
                return (sorted, edges);
            },
            Some(node) => {
                proof {
                    lemma_step_work(state);
                    assert(frontier@ =~= state.frontier.drop_last());
                }
                sorted.push(node);
                let (remaining, targets) = release(&edges, node);
                promote(&mut frontier, &targets, &remaining);
                edges = remaining;
                proof {
                    k = k + 1;
                }
            },
        }
    }
}

/// Topological sort of the inputs. Returns the positions of the inputs in an
/// order in which each comes after those it reads from, or `None` where there
/// is no such order: where inputs read from each other in a circle, or where
/// an input that another one reads from reads from nothing but inputs that are
/// not declared.
///
/// The order holds every input that reads from no input or from a declared
/// one.
pub fn topological_sort_inputs(inputs: &Vec<Input>) -> (r: Option<Vec<usize>>)
    ensures
        r.deep_view() == sorted_order(inputs.deep_view()),
        match r {
            Some(order) => is_schedule(inputs.deep_view(), order@) && forall|a: int|
                0 <= a < inputs@.len() && #[trigger] rooted(inputs.deep_view(), a)
                    ==> order@.contains(a as usize),
            None => forall|w: Seq<usize>| !is_schedule(inputs.deep_view(), w),
        },
{
    let count = inputs.len();
    proof {
        assert(inputs.deep_view().len() == count);
        lemma_sorted_order(inputs.deep_view());
    }
    let (sorted, edges) = sort_inputs(inputs);
    if edges.len() == 0 {
        assert(sorted.deep_view() =~= sorted@);
        Some(sorted)
    } else {
        None
    }
}


/// The walk from `dependent` through what it reads from among the first `upto`
/// inputs of `order`: `dependent` itself, then, for each of those inputs from
/// the last to the first that `dependent` reads from, the walk from that input
/// through the inputs before it.
pub open spec fn walk(inputs: Seq<InputModel>, order: Seq<usize>, upto: int, dependent: usize)
    -> Seq<usize>
    decreases upto, upto + 1,
{
    if upto <= 0 {
        seq![dependent]
    } else {
        walk_tail(inputs, order, dependent, upto, 0)
    }
}

/// The part of the walk from `dependent` that is made when the inputs of
/// `order` from `upto` down to `k` have been looked at.
pub open spec fn walk_tail(
    inputs: Seq<InputModel>,
    order: Seq<usize>,
    dependent: usize,
    upto: int,
    k: int,
) -> Seq<usize>
    decreases upto, upto - k,
{
    if k >= upto || k < 0 {
        seq![dependent]
    } else {
        let acc = walk_tail(inputs, order, dependent, upto, k + 1);
        if depends(inputs, dependent as int, order[k] as int) {
            acc + walk(inputs, order, k, order[k])
        } else {
            acc
        }
    }
}

/// Whether every entry of `order` is the position of an input.
pub open spec fn in_bounds(order: Seq<usize>, n: int) -> bool {
    forall|i: int| 0 <= i < order.len() ==> (#[trigger] order[i]) < n
}

/// The walk from an input that reads from no input holds this input alone.
proof fn lemma_walk_of_root(
    inputs: Seq<InputModel>,
    order: Seq<usize>,
    dependent: usize,
    upto: int,
    k: int,
)
    requires
        inputs[dependent as int].is_dependency_free(),
        0 <= dependent < inputs.len(),
    ensures
        walk_tail(inputs, order, dependent, upto, k) == seq![dependent],
    decreases upto - k,
{
    if k >= upto || k < 0 {
    } else {
        lemma_walk_of_root(inputs, order, dependent, upto, k + 1);
        let input = inputs[dependent as int];
        let target = inputs[order[k] as int].id;
        if input.depends_on(target) {
            let i = choose|i: int| 0 <= i < input.links.len() && (#[trigger] input.links[i]).1.reads(target);
            assert(input.links[i].1 is Value);
        }
    }
}

/// Appends to `sorted_inputs_reversed` the walk from the input at `dependent`
/// through what it reads from among the first `upto` inputs of `order`.
pub fn sort_dependencies_recursive(
    inputs: &Vec<Input>,
    order: &Vec<usize>,
    upto: usize,
    sorted_inputs_reversed: &mut Vec<usize>,
    dependent: usize,
)
    requires
        upto <= order@.len(),
        in_bounds(order@, inputs@.len() as int),
        dependent < inputs@.len(),
    ensures
        final(sorted_inputs_reversed)@ == old(sorted_inputs_reversed)@ + walk(
            inputs.deep_view(),
            order@,
            upto as int,
            dependent,
        ),
        in_bounds(old(sorted_inputs_reversed)@, inputs@.len() as int) ==> in_bounds(
            final(sorted_inputs_reversed)@,
            inputs@.len() as int,
        ),
    decreases upto,
{
    let ghost model = inputs.deep_view();
    let ghost before = sorted_inputs_reversed@;
    sorted_inputs_reversed.push(dependent);
    assert(sorted_inputs_reversed@ =~= before + seq![dependent]);
    if inputs[dependent].is_dependency_free() {
        proof {
            lemma_walk_of_root(model, order@, dependent, upto as int, 0);
        }
        return ;
    }
    let mut k: usize = upto;
    while k > 0
        invariant
            k <= upto <= order@.len(),
            model == inputs.deep_view(),
            in_bounds(order@, inputs@.len() as int),
            dependent < inputs@.len(),
            sorted_inputs_reversed@ == before + walk_tail(
                model,
                order@,
                dependent,
                upto as int,
                k as int,
            ),
            in_bounds(before, inputs@.len() as int) ==> in_bounds(
                sorted_inputs_reversed@,
                inputs@.len() as int,
            ),
        decreases k,
    {
        k -= 1;
        let other = order[k];
        if inputs[dependent].depends_on(&inputs[other]) {
            sort_dependencies_recursive(inputs, order, k, sorted_inputs_reversed, other);
            assert(sorted_inputs_reversed@ =~= before + (walk_tail(
                model,
                order@,
                dependent,
                upto as int,
                k + 1,
            ) + walk(model, order@, k as int, other)));
        }
    }
}

} // verus!
