//! What the order of the inputs is worth: the sort finds an order in which
//! every input comes after those it reads from, whenever there is one.
use crate::declare::InputModel;
use crate::resolver::{
    dependents, depends, edges_from, freed, has_target, in_bounds, kept, promoted, roots,
    sorted_order, SortState,
};
use vstd::prelude::*;

verus! {

/// Whether the input at `a` can ever be taken: it reads from no input, or
/// from a declared one.
pub open spec fn rooted(inputs: Seq<InputModel>, a: int) -> bool {
    inputs[a].is_dependency_free() || exists|b: int|
        0 <= b < inputs.len() && #[trigger] depends(inputs, a, b)
}

/// Whether `order` is a schedule of the inputs: it holds positions of inputs,
/// none of them twice; each of its inputs can be taken and comes after every
/// input it reads from; and it holds every input that another one reads from.
pub open spec fn is_schedule(inputs: Seq<InputModel>, order: Seq<usize>) -> bool {
    &&& in_bounds(order, inputs.len() as int)
    &&& order.no_duplicates()
    &&& forall|k: int| 0 <= k < order.len() ==> rooted(inputs, #[trigger] order[k] as int)
    &&& forall|k: int, b: int|
        0 <= k < order.len() && 0 <= b < inputs.len() && #[trigger] depends(
            inputs,
            order[k] as int,
            b,
        ) ==> exists|j: int| 0 <= j < k && order[j] == b
    &&& forall|a: int, b: int|
        0 <= a < inputs.len() && 0 <= b < inputs.len() && #[trigger] depends(inputs, a, b)
            ==> order.contains(b as usize)
}

/// Whether `edges` holds exactly the edges from `source` to those of the
/// first `m` inputs that read from it, each once.
proof fn lemma_dependents(inputs: Seq<InputModel>, source: int, m: int)
    requires
        0 <= source < inputs.len() <= usize::MAX,
        0 <= m <= inputs.len(),
    ensures
        forall|i: int|
            0 <= i < dependents(inputs, source, m).len() ==> {
                let e = #[trigger] dependents(inputs, source, m)[i];
                e.0 == source && e.1 < m && depends(inputs, e.1 as int, source)
            },
        forall|i: int, j: int|
            0 <= i < j < dependents(inputs, source, m).len() ==> dependents(inputs, source, m)[i].1
                < dependents(inputs, source, m)[j].1,
        forall|a: int|
            0 <= a < m && depends(inputs, a, source) ==> dependents(inputs, source, m).contains(
                (source as usize, a as usize),
            ),
    decreases m,
{
    if m > 0 {
        lemma_dependents(inputs, source, m - 1);
        let before = dependents(inputs, source, m - 1);
        let now = dependents(inputs, source, m);
        if depends(inputs, m - 1, source) {
            assert(now == before.push((source as usize, (m - 1) as usize)));
            assert(now[before.len() as int] == (source as usize, (m - 1) as usize));
        }
        assert forall|a: int| 0 <= a < m && depends(inputs, a, source) implies now.contains(
            (source as usize, a as usize),
        ) by {
            if a < m - 1 {
                assert(before.contains((source as usize, a as usize)));
                let i = choose|i: int|
                    0 <= i < before.len() && before[i] == (source as usize, a as usize);
                assert(now[i] == (source as usize, a as usize));
            } else {
                assert(now[before.len() as int] == (source as usize, a as usize));
            }
        }
    }
}

/// The edges of the inputs: each leads from an input to one that reads from
/// it, no edge occurs twice, and no such edge is missing.
pub proof fn lemma_edges(inputs: Seq<InputModel>, k: int)
    requires
        inputs.len() <= usize::MAX,
        0 <= k <= inputs.len(),
    ensures
        forall|i: int|
            0 <= i < edges_from(inputs, k).len() ==> {
                let e = #[trigger] edges_from(inputs, k)[i];
                e.0 < k && e.1 < inputs.len() && depends(inputs, e.1 as int, e.0 as int)
            },
        edges_from(inputs, k).no_duplicates(),
        forall|a: int, b: int|
            0 <= a < inputs.len() && 0 <= b < k && #[trigger] depends(inputs, a, b)
                ==> edges_from(inputs, k).contains((b as usize, a as usize)),
    decreases k,
{
    if k > 0 {
        let n = inputs.len() as int;
        lemma_edges(inputs, k - 1);
        lemma_dependents(inputs, k - 1, n);
        let before = edges_from(inputs, k - 1);
        let row = dependents(inputs, k - 1, n);
        let now = edges_from(inputs, k);
        assert(now == before + row);
        assert forall|i: int| 0 <= i < now.len() implies {
            let e = #[trigger] now[i];
            e.0 < k && e.1 < inputs.len() && depends(inputs, e.1 as int, e.0 as int)
        } by {
            if i < before.len() {
                assert(now[i] == before[i]);
            } else {
                assert(now[i] == row[i - before.len()]);
            }
        }
        assert forall|i: int, j: int| 0 <= i < now.len() && 0 <= j < now.len() && i != j implies now[i]
            != now[j] by {
            if i < before.len() && j < before.len() {
                assert(now[i] == before[i] && now[j] == before[j]);
            } else if i >= before.len() && j >= before.len() {
                let x = i - before.len();
                let y = j - before.len();
                assert(now[i] == row[x] && now[j] == row[y]);
                if x < y {
                    assert(row[x].1 < row[y].1);
                } else {
                    assert(row[y].1 < row[x].1);
                }
            } else if i < before.len() {
                assert(now[i] == before[i]);
                assert(now[j] == row[j - before.len()]);
                assert(before[i].0 < k - 1);
            } else {
                assert(now[j] == before[j]);
                assert(now[i] == row[i - before.len()]);
                assert(before[j].0 < k - 1);
            }
        }
        assert forall|a: int, b: int|
            0 <= a < inputs.len() && 0 <= b < k && #[trigger] depends(
                inputs,
                a,
                b,
            ) implies now.contains((b as usize, a as usize)) by {
            if b < k - 1 {
                assert(before.contains((b as usize, a as usize)));
                let i = choose|i: int| 0 <= i < before.len() && before[i] == (b as usize, a as usize);
                assert(now[i] == (b as usize, a as usize));
            } else {
                assert(row.contains((b as usize, a as usize)));
                let i = choose|i: int| 0 <= i < row.len() && row[i] == (b as usize, a as usize);
                assert(now[before.len() + i] == (b as usize, a as usize));
            }
        }
    }
}

/// The inputs that the sort starts from: those that read from no input, each
/// once.
pub proof fn lemma_roots(inputs: Seq<InputModel>, k: int)
    requires
        inputs.len() <= usize::MAX,
        0 <= k <= inputs.len(),
    ensures
        forall|i: int|
            0 <= i < roots(inputs, k).len() ==> (#[trigger] roots(inputs, k)[i]) < k
                && inputs[roots(inputs, k)[i] as int].is_dependency_free(),
        roots(inputs, k).no_duplicates(),
        forall|a: int|
            0 <= a < k && inputs[a].is_dependency_free() ==> #[trigger] roots(inputs, k).contains(
                a as usize,
            ),
    decreases k,
{
    if k > 0 {
        lemma_roots(inputs, k - 1);
        let before = roots(inputs, k - 1);
        let now = roots(inputs, k);
        if inputs[k - 1].is_dependency_free() {
            assert(now == before.push((k - 1) as usize));
            assert(now[before.len() as int] == (k - 1) as usize);
        }
        assert forall|a: int| 0 <= a < k && inputs[a].is_dependency_free() implies #[trigger] now.contains(
            a as usize,
        ) by {
            if a < k - 1 {
                assert(before.contains(a as usize));
                let i = choose|i: int| 0 <= i < before.len() && before[i] == a as usize;
                assert(now[i] == a as usize);
            } else {
                assert(now[before.len() as int] == a as usize);
            }
        }
    }
}

/// What a step keeps and what it frees: kept are the edges that do not leave
/// `node`, freed are the ends of those that do.
pub proof fn lemma_release(edges: Seq<(usize, usize)>, node: usize, n: int)
    requires
        0 <= n <= edges.len(),
    ensures
        forall|e: (usize, usize)|
            #[trigger] kept(edges, node, n).contains(e) <==> (e.0 != node && edges.take(n).contains(
                e,
            )),
        forall|t: usize|
            #[trigger] freed(edges, node, n).contains(t) <==> edges.take(n).contains((node, t)),
        edges.take(n).no_duplicates() ==> kept(edges, node, n).no_duplicates() && freed(
            edges,
            node,
            n,
        ).no_duplicates(),
    decreases n,
{
    if n > 0 {
        lemma_release(edges, node, n - 1);
        let last = edges[n - 1];
        let kb = kept(edges, node, n - 1);
        let fb = freed(edges, node, n - 1);
        let kn = kept(edges, node, n);
        let f = freed(edges, node, n);
        let tb = edges.take(n - 1);
        let tn = edges.take(n);
        assert(tn =~= tb.push(last));
        assert forall|e: (usize, usize)| tn.contains(e) <==> (tb.contains(e) || e == last) by {
            if tb.contains(e) {
                let i = choose|i: int| 0 <= i < tb.len() && tb[i] == e;
                assert(tn[i] == e);
            }
            if e == last {
                assert(tn[n - 1] == e);
            }
            if tn.contains(e) {
                let i = choose|i: int| 0 <= i < tn.len() && tn[i] == e;
                if i < n - 1 {
                    assert(tb[i] == e);
                }
            }
        }
        if last.0 == node {
            assert(f == fb.push(last.1));
            assert forall|t: usize| #[trigger] f.contains(t) <==> tn.contains((node, t)) by {
                if fb.contains(t) {
                    let i = choose|i: int| 0 <= i < fb.len() && fb[i] == t;
                    assert(f[i] == t);
                }
                if t == last.1 {
                    assert(f[fb.len() as int] == t);
                }
                if f.contains(t) {
                    let i = choose|i: int| 0 <= i < f.len() && f[i] == t;
                    if i < fb.len() {
                        assert(fb[i] == t);
                        assert(fb.contains(t));
                    }
                }
            }
            if tn.no_duplicates() {
                assert(tb.no_duplicates()) by {
                    assert forall|i: int, j: int|
                        0 <= i < tb.len() && 0 <= j < tb.len() && i != j implies tb[i] != tb[j] by {
                        assert(tn[i] == tb[i] && tn[j] == tb[j]);
                    }
                }
                assert(!tb.contains(last)) by {
                    if tb.contains(last) {
                        let i = choose|i: int| 0 <= i < tb.len() && tb[i] == last;
                        assert(tn[i] == last && tn[n - 1] == last);
                    }
                }
                assert(!fb.contains(last.1));
                assert forall|i: int, j: int|
                    0 <= i < f.len() && 0 <= j < f.len() && i != j implies f[i] != f[j] by {
                    if i < fb.len() && j < fb.len() {
                        assert(f[i] == fb[i] && f[j] == fb[j]);
                    } else if i < fb.len() {
                        assert(f[i] == fb[i]);
                        assert(fb.contains(fb[i]));
                    } else if j < fb.len() {
                        assert(f[j] == fb[j]);
                        assert(fb.contains(fb[j]));
                    }
                }
            }
        } else {
            assert(kn == kb.push(last));
            assert forall|e: (usize, usize)| #[trigger] kn.contains(e) <==> (e.0 != node
                && tn.contains(e)) by {
                if kb.contains(e) {
                    let i = choose|i: int| 0 <= i < kb.len() && kb[i] == e;
                    assert(kn[i] == e);
                }
                if e == last {
                    assert(kn[kb.len() as int] == e);
                }
                if kn.contains(e) {
                    let i = choose|i: int| 0 <= i < kn.len() && kn[i] == e;
                    if i < kb.len() {
                        assert(kb[i] == e);
                        assert(kb.contains(e));
                    }
                }
            }
            if tn.no_duplicates() {
                assert(tb.no_duplicates()) by {
                    assert forall|i: int, j: int|
                        0 <= i < tb.len() && 0 <= j < tb.len() && i != j implies tb[i] != tb[j] by {
                        assert(tn[i] == tb[i] && tn[j] == tb[j]);
                    }
                }
                assert(!tb.contains(last)) by {
                    if tb.contains(last) {
                        let i = choose|i: int| 0 <= i < tb.len() && tb[i] == last;
                        assert(tn[i] == last && tn[n - 1] == last);
                    }
                }
                assert(!kb.contains(last));
                assert forall|i: int, j: int|
                    0 <= i < kn.len() && 0 <= j < kn.len() && i != j implies kn[i] != kn[j] by {
                    if i < kb.len() && j < kb.len() {
                        assert(kn[i] == kb[i] && kn[j] == kb[j]);
                    } else if i < kb.len() {
                        assert(kn[i] == kb[i]);
                        assert(kb.contains(kb[i]));
                    } else if j < kb.len() {
                        assert(kn[j] == kb[j]);
                        assert(kb.contains(kb[j]));
                    }
                }
            }
        }
    }
}

/// Who joins the frontier: the freed inputs that no edge leads to any more.
pub proof fn lemma_promoted(
    frontier: Seq<usize>,
    targets: Seq<usize>,
    remaining: Seq<(usize, usize)>,
    n: int,
)
    requires
        0 <= n <= targets.len(),
    ensures
        forall|t: usize|
            #[trigger] promoted(frontier, targets, remaining, n).contains(t) <==> (frontier.contains(
                t,
            ) || (targets.take(n).contains(t) && !has_target(remaining, t))),
        frontier.no_duplicates() && targets.no_duplicates() && (forall|i: int|
            0 <= i < targets.len() ==> !frontier.contains(#[trigger] targets[i])) ==> promoted(
            frontier,
            targets,
            remaining,
            n,
        ).no_duplicates(),
    decreases n,
{
    if n > 0 {
        lemma_promoted(frontier, targets, remaining, n - 1);
        let last = targets[n - 1];
        let pb = promoted(frontier, targets, remaining, n - 1);
        let pn = promoted(frontier, targets, remaining, n);
        let tb = targets.take(n - 1);
        let tn = targets.take(n);
        assert(tn =~= tb.push(last));
        assert forall|t: usize| tn.contains(t) <==> (tb.contains(t) || t == last) by {
            if tb.contains(t) {
                let i = choose|i: int| 0 <= i < tb.len() && tb[i] == t;
                assert(tn[i] == t);
            }
            if t == last {
                assert(tn[n - 1] == t);
            }
            if tn.contains(t) {
                let i = choose|i: int| 0 <= i < tn.len() && tn[i] == t;
                if i < n - 1 {
                    assert(tb[i] == t);
                }
            }
        }
        if !has_target(remaining, last) {
            assert(pn == pb.push(last));
            assert forall|t: usize| #[trigger] pn.contains(t) <==> (pb.contains(t) || t
                == last) by {
                if pb.contains(t) {
                    let i = choose|i: int| 0 <= i < pb.len() && pb[i] == t;
                    assert(pn[i] == t);
                }
                if t == last {
                    assert(pn[pb.len() as int] == t);
                }
                if pn.contains(t) {
                    let i = choose|i: int| 0 <= i < pn.len() && pn[i] == t;
                    if i < pb.len() {
                        assert(pb[i] == t);
                        assert(pb.contains(t));
                    }
                }
            }
            if frontier.no_duplicates() && targets.no_duplicates() && (forall|i: int|
                0 <= i < targets.len() ==> !frontier.contains(#[trigger] targets[i])) {
                assert(!frontier.contains(targets[n - 1]));
                assert(!tb.contains(last)) by {
                    if tb.contains(last) {
                        let i = choose|i: int| 0 <= i < tb.len() && tb[i] == last;
                        assert(targets[i] == last);
                    }
                }
                assert(!pb.contains(last));
                assert forall|i: int, j: int|
                    0 <= i < pn.len() && 0 <= j < pn.len() && i != j implies pn[i] != pn[j] by {
                    if i < pb.len() && j < pb.len() {
                        assert(pn[i] == pb[i] && pn[j] == pb[j]);
                    } else if i < pb.len() {
                        assert(pn[i] == pb[i]);
                        assert(pb.contains(pb[i]));
                    } else if j < pb.len() {
                        assert(pn[j] == pb[j]);
                        assert(pb.contains(pb[j]));
                    }
                }
            }
        }
    }
}


/// Whether the input at `a` is taken or waits to be taken just when it can be
/// taken and no edge leads to it.
pub open spec fn settled(inputs: Seq<InputModel>, s: SortState, a: int) -> bool {
    (s.sorted.contains(a as usize) || s.frontier.contains(a as usize)) <==> (rooted(inputs, a)
        && !has_target(s.edges, a as usize))
}

/// What holds of the sort at every step.
pub open spec fn sound(inputs: Seq<InputModel>, s: SortState) -> bool {
    let n = inputs.len() as int;
    let all = edges_from(inputs, n);
    &&& forall|e: (usize, usize)| #[trigger]
        s.edges.contains(e) <==> (all.contains(e) && !s.sorted.contains(e.0))
    &&& s.edges.no_duplicates()
    &&& in_bounds(s.sorted, n)
    &&& in_bounds(s.frontier, n)
    &&& s.sorted.no_duplicates()
    &&& s.frontier.no_duplicates()
    &&& forall|i: int| 0 <= i < s.frontier.len() ==> !s.sorted.contains(#[trigger] s.frontier[i])
    &&& forall|a: int| 0 <= a < n ==> #[trigger] settled(inputs, s, a)
    &&& forall|k: int, b: int|
        0 <= k < s.sorted.len() && 0 <= b < n && #[trigger] depends(inputs, s.sorted[k] as int, b)
            ==> exists|j: int| 0 <= j < k && s.sorted[j] == b
}

/// A sequence with one more item holds what it held before, and the item.
proof fn lemma_push_contains<T>(s: Seq<T>, x: T)
    ensures
        forall|y: T| #[trigger] s.push(x).contains(y) <==> (s.contains(y) || y == x),
{
    let t = s.push(x);
    assert forall|y: T| #[trigger] t.contains(y) <==> (s.contains(y) || y == x) by {
        if s.contains(y) {
            let i = choose|i: int| 0 <= i < s.len() && s[i] == y;
            assert(t[i] == y);
        }
        if y == x {
            assert(t[s.len() as int] == y);
        }
        if t.contains(y) {
            let i = choose|i: int| 0 <= i < t.len() && t[i] == y;
            if i < s.len() {
                assert(s[i] == y);
            }
        }
    }
}

/// An edge that is held leads to its end.
proof fn lemma_target(edges: Seq<(usize, usize)>, e: (usize, usize))
    requires
        edges.contains(e),
    ensures
        has_target(edges, e.1),
{
    let i = choose|i: int| 0 <= i < edges.len() && edges[i] == e;
    assert(edges[i].1 == e.1);
}

/// The sort starts sound.
pub proof fn lemma_start_sound(inputs: Seq<InputModel>)
    requires
        inputs.len() <= usize::MAX,
    ensures
        sound(inputs, SortState::start(inputs)),
{
    let n = inputs.len() as int;
    let s = SortState::start(inputs);
    let all = edges_from(inputs, n);
    lemma_edges(inputs, n);
    lemma_roots(inputs, n);
    assert forall|a: int| 0 <= a < n implies #[trigger] settled(inputs, s, a) by {
        if s.frontier.contains(a as usize) {
            let i = choose|i: int| 0 <= i < s.frontier.len() && s.frontier[i] == a as usize;
            assert(inputs[a].is_dependency_free());
            if has_target(all, a as usize) {
                let j = choose|j: int| 0 <= j < all.len() && (#[trigger] all[j]).1 == a as usize;
                assert(depends(inputs, a, all[j].0 as int));
                lemma_free_reads_nothing(inputs, a, all[j].0 as int);
            }
        }
        if rooted(inputs, a) && !has_target(all, a as usize) {
            if !inputs[a].is_dependency_free() {
                let b = choose|b: int| 0 <= b < inputs.len() && #[trigger] depends(inputs, a, b);
                assert(all.contains((b as usize, a as usize)));
                lemma_target(all, (b as usize, a as usize));
            }
            assert(s.frontier.contains(a as usize));
        }
    }
}

/// An input that reads from no input reads from none of the declared inputs.
proof fn lemma_free_reads_nothing(inputs: Seq<InputModel>, a: int, b: int)
    requires
        inputs[a].is_dependency_free(),
    ensures
        !depends(inputs, a, b),
{
    let input = inputs[a];
    let target = inputs[b].id;
    if input.depends_on(target) {
        let i = choose|i: int| 0 <= i < input.links.len() && (#[trigger] input.links[i]).1.reads(target);
        assert(input.links[i].1 is Value);
    }
}

/// A step keeps the sort sound.
pub proof fn lemma_step_sound(inputs: Seq<InputModel>, s: SortState)
    requires
        inputs.len() <= usize::MAX,
        sound(inputs, s),
    ensures
        sound(inputs, s.step()),
{
    if s.frontier.len() > 0 {
        let n = inputs.len() as int;
        let all = edges_from(inputs, n);
        let v = s.frontier.last();
        let rest = s.frontier.drop_last();
        let count = s.edges.len() as int;
        let remaining = kept(s.edges, v, count);
        let targets = freed(s.edges, v, count);
        let joined = promoted(rest, targets, remaining, targets.len() as int);
        let after = s.step();
        let taken = s.sorted.push(v);
        assert(after.edges == remaining && after.frontier == joined && after.sorted == taken);
        lemma_edges(inputs, n);
        lemma_release(s.edges, v, count);
        assert(s.edges.take(count) =~= s.edges);
        lemma_promoted(rest, targets, remaining, targets.len() as int);
        assert(targets.take(targets.len() as int) =~= targets);
        lemma_push_contains(s.sorted, v);
        lemma_push_contains(rest, v);
        assert(s.frontier =~= rest.push(v));
        assert(!s.sorted.contains(v)) by {
            assert(s.frontier[s.frontier.len() - 1] == v);
        }
        assert(!rest.contains(v)) by {
            if rest.contains(v) {
                let i = choose|i: int| 0 <= i < rest.len() && rest[i] == v;
                assert(s.frontier[i] == v && s.frontier[s.frontier.len() - 1] == v);
            }
        }
        assert(rest.no_duplicates()) by {
            assert forall|i: int, j: int|
                0 <= i < rest.len() && 0 <= j < rest.len() && i != j implies rest[i] != rest[j] by {
                assert(rest[i] == s.frontier[i] && rest[j] == s.frontier[j]);
            }
        }
        // every freed input is declared, is read from by `v`'s dependents only, and is new
        assert forall|i: int| 0 <= i < targets.len() implies (#[trigger] targets[i]) < n
            && s.edges.contains((v, targets[i])) && !rest.contains(targets[i])
            && !s.sorted.contains(targets[i]) && targets[i] != v by {
            let t = targets[i];
            assert(targets.contains(t));
            assert(s.edges.contains((v, t)));
            assert(all.contains((v, t)));
            let j = choose|j: int| 0 <= j < all.len() && all[j] == (v, t);
            assert(all[j].1 < n);
            lemma_target(s.edges, (v, t));
            let a = t as int;
            assert(0 <= a < n && a as usize == t);
            assert(settled(inputs, s, a));
            if rest.contains(t) {
                let j = choose|j: int| 0 <= j < rest.len() && rest[j] == t;
                assert(s.frontier[j] == t);
            }
            assert(s.frontier[s.frontier.len() - 1] == v);
        }
        // the edges
        assert forall|e: (usize, usize)| #[trigger]
            remaining.contains(e) <==> (all.contains(e) && !taken.contains(e.0)) by {
            assert(s.edges.contains(e) <==> (all.contains(e) && !s.sorted.contains(e.0)));
        }
        // bounds
        assert(in_bounds(taken, n)) by {
            assert(s.frontier[s.frontier.len() - 1] < n);
            assert forall|i: int| 0 <= i < taken.len() implies (#[trigger] taken[i]) < n by {
                if i < s.sorted.len() {
                    assert(taken[i] == s.sorted[i]);
                }
            }
        }
        assert(in_bounds(joined, n)) by {
            assert forall|i: int| 0 <= i < joined.len() implies (#[trigger] joined[i]) < n by {
                let t = joined[i];
                assert(joined.contains(t));
                if rest.contains(t) {
                    let j = choose|j: int| 0 <= j < rest.len() && rest[j] == t;
                    assert(s.frontier[j] == t);
                } else {
                    let j = choose|j: int| 0 <= j < targets.len() && targets[j] == t;
                    assert(targets[j] < n);
                }
            }
        }
        // nothing twice
        assert(taken.no_duplicates()) by {
            assert forall|i: int, j: int|
                0 <= i < taken.len() && 0 <= j < taken.len() && i != j implies taken[i]
                != taken[j] by {
                if i < s.sorted.len() && j < s.sorted.len() {
                    assert(taken[i] == s.sorted[i] && taken[j] == s.sorted[j]);
                } else if i < s.sorted.len() {
                    assert(s.sorted.contains(s.sorted[i]));
                } else if j < s.sorted.len() {
                    assert(s.sorted.contains(s.sorted[j]));
                }
            }
        }
        assert(joined.no_duplicates());
        assert forall|i: int| 0 <= i < joined.len() implies !taken.contains(
            #[trigger] joined[i],
        ) by {
            let t = joined[i];
            assert(joined.contains(t));
            if rest.contains(t) {
                let j = choose|j: int| 0 <= j < rest.len() && rest[j] == t;
                assert(s.frontier[j] == t);
            } else {
                let j = choose|j: int| 0 <= j < targets.len() && targets[j] == t;
                assert(!s.sorted.contains(targets[j]) && targets[j] != v);
            }
        }
        // who is taken or waits
        assert forall|a: int| 0 <= a < n implies #[trigger] settled(inputs, after, a) by {
            let t = a as usize;
            assert(settled(inputs, s, a));
            if has_target(remaining, t) {
                let i = choose|i: int| 0 <= i < remaining.len() && (#[trigger] remaining[i]).1 == t;
                assert(remaining.contains(remaining[i]));
                lemma_target(s.edges, remaining[i]);
            }
            if targets.contains(t) {
                assert(s.edges.contains((v, t)));
                assert(all.contains((v, t)));
                let j = choose|j: int| 0 <= j < all.len() && all[j] == (v, t);
                assert(depends(inputs, all[j].1 as int, all[j].0 as int));
                assert(rooted(inputs, a));
            }
            if rooted(inputs, a) && !has_target(remaining, t) && has_target(s.edges, t) {
                let i = choose|i: int| 0 <= i < s.edges.len() && (#[trigger] s.edges[i]).1 == t;
                let e = s.edges[i];
                assert(s.edges.contains(e));
                if e.0 != v {
                    assert(remaining.contains(e));
                    lemma_target(remaining, e);
                }
                assert(e == (v, t));
                assert(targets.contains(t));
            }
        }
        // the order
        assert forall|k: int, b: int|
            0 <= k < taken.len() && 0 <= b < n && #[trigger] depends(
                inputs,
                taken[k] as int,
                b,
            ) implies exists|j: int| 0 <= j < k && taken[j] == b by {
            if k < s.sorted.len() {
                assert(taken[k] == s.sorted[k]);
                let j = choose|j: int| 0 <= j < k && s.sorted[j] == b;
                assert(taken[j] == b);
            } else {
                assert(taken[k] == v);
                assert(s.frontier[s.frontier.len() - 1] < n);
                assert(all.contains((b as usize, v)));
                assert(s.frontier.contains(v));
                assert(settled(inputs, s, v as int));
                if s.edges.contains((b as usize, v)) {
                    lemma_target(s.edges, (b as usize, v));
                }
                assert(s.sorted.contains(b as usize));
                let j = choose|j: int| 0 <= j < s.sorted.len() && s.sorted[j] == b as usize;
                assert(taken[j] == b);
            }
        }
    }
}

/// The sort is sound after any number of steps.
pub proof fn lemma_after_sound(inputs: Seq<InputModel>, k: int)
    requires
        inputs.len() <= usize::MAX,
    ensures
        sound(inputs, SortState::after(inputs, k)),
    decreases k,
{
    if k <= 0 {
        lemma_start_sound(inputs);
    } else {
        lemma_after_sound(inputs, k - 1);
        lemma_step_sound(inputs, SortState::after(inputs, k - 1));
    }
}


/// While inputs can be taken, each step leaves less to do.
proof fn lemma_work_runs_out(inputs: Seq<InputModel>, k: int)
    requires
        0 <= k,
    ensures
        SortState::after(inputs, k).frontier.len() == 0 || SortState::after(inputs, k).work() + k
            <= SortState::start(inputs).work(),
    decreases k,
{
    if k > 0 {
        lemma_work_runs_out(inputs, k - 1);
        let before = SortState::after(inputs, k - 1);
        if before.frontier.len() > 0 {
            crate::resolver::lemma_step_work(before);
        }
    }
}

/// At its end the sort has no input left to take.
pub proof fn lemma_end_is_settled(inputs: Seq<InputModel>)
    ensures
        SortState::end(inputs).frontier.len() == 0,
{
    lemma_work_runs_out(inputs, SortState::start(inputs).work());
}

/// Where the sorted inputs lack an input of `w`, there is a first such input in `w`.
proof fn lemma_first_missing(w: Seq<usize>, sorted: Seq<usize>, p: int) -> (q: int)
    requires
        0 <= p < w.len(),
        !sorted.contains(w[p]),
    ensures
        0 <= q <= p,
        !sorted.contains(w[q]),
        forall|j: int| 0 <= j < q ==> sorted.contains(#[trigger] w[j]),
    decreases p,
{
    if forall|j: int| 0 <= j < p ==> sorted.contains(#[trigger] w[j]) {
        p
    } else {
        let j = choose|j: int| 0 <= j < p && !sorted.contains(#[trigger] w[j]);
        lemma_first_missing(w, sorted, j)
    }
}

/// What the sort finds is a schedule that holds every input that can be taken;
/// and where it finds none, there is none.
pub proof fn lemma_sorted_order(inputs: Seq<InputModel>)
    requires
        inputs.len() <= usize::MAX,
    ensures
        match sorted_order(inputs) {
            Some(order) => is_schedule(inputs, order) && forall|a: int|
                0 <= a < inputs.len() && #[trigger] rooted(inputs, a) ==> order.contains(
                    a as usize,
                ),
            None => forall|w: Seq<usize>| !is_schedule(inputs, w),
        },
{
    let n = inputs.len() as int;
    let all = edges_from(inputs, n);
    let s = SortState::end(inputs);
    lemma_after_sound(inputs, SortState::start(inputs).work());
    lemma_end_is_settled(inputs);
    lemma_edges(inputs, n);
    assert(s.frontier =~= Seq::empty());
    if s.edges.len() == 0 {
        let order = s.sorted;
        assert forall|k: int| 0 <= k < order.len() implies rooted(
            inputs,
            #[trigger] order[k] as int,
        ) by {
            assert(order.contains(order[k]));
            assert(settled(inputs, s, order[k] as int));
        }
        assert forall|a: int, b: int|
            0 <= a < n && 0 <= b < n && #[trigger] depends(inputs, a, b) implies order.contains(
            b as usize,
        ) by {
            let e = (b as usize, a as usize);
            assert(all.contains(e));
            assert(s.edges.contains(e) <==> (all.contains(e) && !s.sorted.contains(e.0)));
        }
        assert forall|a: int| 0 <= a < n && #[trigger] rooted(inputs, a) implies order.contains(
            a as usize,
        ) by {
            assert(settled(inputs, s, a));
        }
    } else {
        assert forall|w: Seq<usize>| !is_schedule(inputs, w) by {
            if is_schedule(inputs, w) {
                let e = s.edges[0];
                assert(s.edges.contains(e));
                assert(all.contains(e) && !s.sorted.contains(e.0));
                let i = choose|i: int| 0 <= i < all.len() && all[i] == e;
                assert(depends(inputs, all[i].1 as int, all[i].0 as int));
                assert(w.contains(e.0));
                let p = choose|p: int| 0 <= p < w.len() && w[p] == e.0;
                let q = lemma_first_missing(w, s.sorted, p);
                let u = w[q];
                assert(rooted(inputs, u as int));
                assert(settled(inputs, s, u as int));
                if has_target(s.edges, u) {
                    let m = choose|m: int| 0 <= m < s.edges.len() && (#[trigger] s.edges[m]).1 == u;
                    let f = s.edges[m];
                    assert(s.edges.contains(f));
                    assert(all.contains(f) && !s.sorted.contains(f.0));
                    let l = choose|l: int| 0 <= l < all.len() && all[l] == f;
                    assert(depends(inputs, all[l].1 as int, all[l].0 as int));
                    assert(depends(inputs, w[q] as int, f.0 as int));
                    let j = choose|j: int| 0 <= j < q && w[j] == f.0 as int;
                    assert(s.sorted.contains(w[j]));
                }
            }
        }
    }
}

/// Whether the inputs at the positions in `cycle` read from each other in a
/// circle: each from the next, the last from the first.
pub open spec fn is_cycle(inputs: Seq<InputModel>, cycle: Seq<int>) -> bool {
    &&& cycle.len() > 0
    &&& forall|i: int| 0 <= i < cycle.len() ==> 0 <= #[trigger] cycle[i] < inputs.len()
    &&& forall|i: int|
        0 <= i < cycle.len() - 1 ==> #[trigger] depends(inputs, cycle[i], cycle[i + 1])
    &&& depends(inputs, cycle.last(), cycle[0])
}

/// A schedule holds every input of a cycle.
proof fn lemma_down_the_cycle(inputs: Seq<InputModel>, w: Seq<usize>, cycle: Seq<int>, i: int) -> (p:
    int)
    requires
        inputs.len() <= usize::MAX,
        is_schedule(inputs, w),
        is_cycle(inputs, cycle),
        0 <= i < cycle.len(),
    ensures
        0 <= p < w.len(),
        w[p] == cycle[i],
    decreases i,
{
    if i == 0 {
        assert(depends(inputs, cycle.last(), cycle[0]));
        assert(w.contains(cycle[0] as usize));
        choose|p: int| 0 <= p < w.len() && w[p] == cycle[0] as usize
    } else {
        let h = i - 1;
        let before = lemma_down_the_cycle(inputs, w, cycle, h);
        assert(depends(inputs, cycle[h], cycle[h + 1]));
        assert(depends(inputs, w[before] as int, cycle[i]));
        choose|j: int| 0 <= j < before && w[j] == cycle[i]
    }
}

/// Inputs that read from each other in a circle cannot be put in order: the
/// sort finds no order for them.
pub proof fn lemma_cycle_is_found(inputs: Seq<InputModel>, cycle: Seq<int>)
    requires
        inputs.len() <= usize::MAX,
        is_cycle(inputs, cycle),
    ensures
        sorted_order(inputs) is None,
{
    lemma_sorted_order(inputs);
    if let Some(w) = sorted_order(inputs) {
        let last = cycle.len() - 1;
        let p = lemma_down_the_cycle(inputs, w, cycle, last);
        let first = lemma_down_the_cycle(inputs, w, cycle, 0);
        assert(depends(inputs, w[p] as int, cycle[0]));
        let j = choose|j: int| 0 <= j < p && w[j] == cycle[0];
        assert(w[j] == w[first]);
        lemma_cycle_positions(inputs, w, cycle, last, first);
    }
}

/// In a schedule no input of a cycle comes after the first input of the cycle.
proof fn lemma_cycle_positions(
    inputs: Seq<InputModel>,
    w: Seq<usize>,
    cycle: Seq<int>,
    i: int,
    first: int,
)
    requires
        inputs.len() <= usize::MAX,
        is_schedule(inputs, w),
        is_cycle(inputs, cycle),
        0 <= i < cycle.len(),
        0 <= first < w.len(),
        w[first] == cycle[0],
    ensures
        forall|p: int| 0 <= p < w.len() && w[p] == cycle[i] ==> p <= first,
    decreases i,
{
    if i == 0 {
    } else {
        lemma_cycle_positions(inputs, w, cycle, i - 1, first);
        assert forall|p: int| 0 <= p < w.len() && w[p] == cycle[i] implies p <= first by {
            let h = i - 1;
            let before = lemma_down_the_cycle(inputs, w, cycle, h);
            assert(depends(inputs, cycle[h], cycle[h + 1]));
            assert(depends(inputs, w[before] as int, cycle[i]));
            let j = choose|j: int| 0 <= j < before && w[j] == cycle[i];
            assert(w[j] == w[p]);
        }
    }
}

/// Whether every input reads from no input or from a declared one.
pub open spec fn all_rooted(inputs: Seq<InputModel>) -> bool {
    forall|a: int| 0 <= a < inputs.len() ==> #[trigger] rooted(inputs, a)
}

/// An input that the input at `u` still waits for.
spec fn waits_for(s: SortState, u: usize) -> usize {
    choose|v: usize| s.edges.contains((v, u))
}

/// The input that is reached from `start` after `i` steps from an input to one
/// that it waits for.
spec fn back(s: SortState, start: usize, i: int) -> usize
    decreases i,
{
    if i <= 0 {
        start
    } else {
        waits_for(s, back(s, start, i - 1))
    }
}

/// At the end of a sort, every input that is not taken waits for an input that
/// is not taken.
proof fn lemma_back(inputs: Seq<InputModel>, s: SortState, start: usize, i: int)
    requires
        inputs.len() <= usize::MAX,
        sound(inputs, s),
        s.frontier.len() == 0,
        all_rooted(inputs),
        start < inputs.len(),
        !s.sorted.contains(start),
        0 <= i,
    ensures
        back(s, start, i) < inputs.len(),
        !s.sorted.contains(back(s, start, i)),
        i > 0 ==> depends(inputs, back(s, start, i - 1) as int, back(s, start, i) as int),
    decreases i,
{
    if i > 0 {
        lemma_back(inputs, s, start, i - 1);
        let n = inputs.len() as int;
        let all = edges_from(inputs, n);
        lemma_edges(inputs, n);
        let u = back(s, start, i - 1);
        assert(rooted(inputs, u as int));
        assert(settled(inputs, s, u as int));
        assert(s.frontier =~= Seq::empty());
        assert(has_target(s.edges, u));
        let m = choose|m: int| 0 <= m < s.edges.len() && (#[trigger] s.edges[m]).1 == u;
        assert(s.edges.contains((s.edges[m].0, u)));
        let v = waits_for(s, u);
        assert(s.edges.contains((v, u)));
        assert(all.contains((v, u)) && !s.sorted.contains(v));
        let l = choose|l: int| 0 <= l < all.len() && all[l] == (v, u);
        assert(depends(inputs, all[l].1 as int, all[l].0 as int));
    }
}

/// Among more numbers than there are values for them, two are the same.
proof fn lemma_repeated(c: Seq<int>, n: int) -> (r: (int, int))
    requires
        0 <= n < c.len(),
        forall|i: int| 0 <= i < c.len() ==> 0 <= #[trigger] c[i] < n,
    ensures
        0 <= r.0 < r.1 < c.len(),
        c[r.0] == c[r.1],
{
    if c.no_duplicates() {
        c.unique_seq_to_set();
        vstd::set_lib::lemma_int_range(0, n);
        assert(c.to_set().subset_of(vstd::set_lib::set_int_range(0, n))) by {
            assert forall|x: int| c.to_set().contains(x) implies vstd::set_lib::set_int_range(
                0,
                n,
            ).contains(x) by {
                let i = choose|i: int| 0 <= i < c.len() && c[i] == x;
            }
        }
        vstd::set_lib::lemma_len_subset(c.to_set(), vstd::set_lib::set_int_range(0, n));
        (0, 0)
    } else {
        let (i, j) = choose|i: int, j: int|
            0 <= i < c.len() && 0 <= j < c.len() && i != j && c[i] == c[j];
        if i < j {
            (i, j)
        } else {
            (j, i)
        }
    }
}

/// Where every input reads from no input or from a declared one, and the sort
/// finds no order, inputs read from each other in a circle.
pub proof fn lemma_no_order_has_cycle(inputs: Seq<InputModel>) -> (cycle: Seq<int>)
    requires
        inputs.len() <= usize::MAX,
        all_rooted(inputs),
        sorted_order(inputs) is None,
    ensures
        is_cycle(inputs, cycle),
{
    let n = inputs.len() as int;
    let all = edges_from(inputs, n);
    let s = SortState::end(inputs);
    lemma_after_sound(inputs, SortState::start(inputs).work());
    lemma_end_is_settled(inputs);
    lemma_edges(inputs, n);
    let e = s.edges[0];
    assert(s.edges.contains(e));
    assert(all.contains(e) && !s.sorted.contains(e.0));
    let l = choose|l: int| 0 <= l < all.len() && all[l] == e;
    assert(all[l].0 < n);
    let start = e.0;
    let c = Seq::new((n + 1) as nat, |i: int| back(s, start, i) as int);
    assert forall|i: int| 0 <= i < c.len() implies 0 <= #[trigger] c[i] < n by {
        lemma_back(inputs, s, start, i);
    }
    let (i, j) = lemma_repeated(c, n);
    let cycle = c.subrange(i, j);
    assert forall|t: int| 0 <= t < cycle.len() - 1 implies #[trigger] depends(
        inputs,
        cycle[t],
        cycle[t + 1],
    ) by {
        lemma_back(inputs, s, start, i + t + 1);
        assert(cycle[t] == c[i + t] && cycle[t + 1] == c[i + t + 1]);
    }
    lemma_back(inputs, s, start, j);
    assert(cycle.last() == c[j - 1]);
    assert(cycle[0] == c[i]);
    cycle
}

} // verus!
