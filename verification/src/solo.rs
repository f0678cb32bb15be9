//! A group lays out its nodes the same way wherever it is expanded: the nodes
//! lie as they lie when the group is expanded alone at the origin, moved to
//! where the group begins.
use crate::assoc::assoc_get;
use crate::group::Expansion;
use crate::growth::lemma_expansion_grows;
use crate::builder::Plan;
use crate::consistency::{
    expansion_fits, expansion_wired, lemma_expansion_ready, placement_fits, placement_wired,
};
use crate::layout::{
    apart, clear, in_input_group, in_output_group, lemma_input_group_node, lemma_no_overlap,
    lemma_output_group_node, plan_sized, same_group,
};
use crate::nodes::{
    BuiltNode, BuiltNodeModel, BuiltNodeSocketLink, BuiltNodeSocketRef, GroupModel, NodeGroup,
    SocketRefModel,
};
use crate::value::Value;
use crate::placement::Placement;
use crate::wiring::{lemma_registered, lemma_sound_group_exports, lemma_sound_group_is_linked};
use vstd::prelude::*;

verus! {

/// The expansion of a group alone: at the origin, with nothing placed before
/// and nothing given from outside.
pub open spec fn solo(group: GroupModel) -> Expansion {
    Expansion {
        group,
        nodes: Seq::empty(),
        outputs: Seq::empty(),
        outside_links: Seq::empty(),
        outside_properties: Seq::empty(),
        position: (0, 0),
    }
}

/// Whether no two nodes of the group lie on top of each other when the group
/// is expanded.
pub open spec fn group_clear(group: GroupModel) -> bool {
    forall|i: int, j: int|
        0 <= i < j < group.nodes.len() ==> apart(
            #[trigger] solo(group).end().nodes[i],
            #[trigger] solo(group).end().nodes[j],
        )
}

/// Whether the nodes that `e` has placed after the first `k` nodes of its
/// group lie where the group alone places them, moved to where `e` begins, and
/// the output sockets of the group's nodes stand for the same nodes.
pub open spec fn moved(e: Expansion, k: int) -> bool {
    let s = solo(e.group);
    &&& forall|t: int|
        0 <= t < k ==> {
            let there = #[trigger] e.state(k).nodes[e.nodes.len() + t];
            let here = s.state(k).nodes[t];
            &&& there.kind == here.kind
            &&& there.position == (here.position.0 + e.position.0, here.position.1 + e.position.1)
        }
    &&& forall|q: SocketRefModel|
        match #[trigger] assoc_get(s.state(k).outputs, q) {
            Some(r) => match assoc_get(e.state(k).outputs, q) {
                Some(other) => other.node_index == r.node_index + e.nodes.len(),
                None => false,
            },
            None => assoc_get(e.state(k).outputs, q) is None,
        }
}

/// The column of a node is that of the node in the group alone, moved.
proof fn lemma_column_moves(e: Expansion, k: int, n: int)
    requires
        e.group.valid(),
        0 <= k < e.group.nodes.len(),
        moved(e, k),
        0 <= n <= e.group.nodes[k].links.len(),
    ensures
        e.placement(k).column(n) == solo(e.group).placement(k).column(n) + e.position.0,
    decreases n,
{
    if n > 0 {
        lemma_column_moves(e, k, n - 1);
        let s = solo(e.group);
        let p = e.placement(k);
        let o = s.placement(k);
        lemma_sound_group_is_linked(s, k, n - 1);
        lemma_sound_group_is_linked(e, k, n - 1);
        lemma_expansion_grows(e, 0, k);
        lemma_expansion_grows(s, 0, k);
        let q = e.group.nodes[k].links[n - 1].1;
        let here = assoc_get(s.state(k).outputs, q);
        assert(o.source(n - 1) == here);
        let t = here.unwrap().node_index;
        assert(p.source(n - 1).unwrap().node_index == t + e.nodes.len());
        let there = e.state(k).nodes[e.nodes.len() + t];
        assert(there.kind == s.state(k).nodes[t].kind);
    }
}

/// A group lays out its nodes the same way wherever it is expanded.
pub proof fn lemma_group_moves(e: Expansion, k: int)
    requires
        e.group.valid(),
        0 <= k <= e.group.nodes.len(),
    ensures
        moved(e, k),
    decreases k,
{
    let s = solo(e.group);
    if k > 0 {
        lemma_group_moves(e, k - 1);
        let p = e.placement(k - 1);
        let o = s.placement(k - 1);
        lemma_expansion_grows(e, 0, k - 1);
        lemma_expansion_grows(s, 0, k - 1);
        lemma_expansion_grows(e, k - 1, k);
        lemma_expansion_grows(s, k - 1, k);
        lemma_column_moves(e, k - 1, p.node.links.len() as int);
        if k - 1 > 0 {
            let t = k - 2;
            let there = e.state(k - 1).nodes[e.nodes.len() + t];
            let here = s.state(k - 1).nodes[t];
            assert(p.nodes.last() == there);
            assert(o.nodes.last() == here);
            assert(there.kind == here.kind);
            assert(there.position == (
                here.position.0 + e.position.0,
                here.position.1 + e.position.1,
            ));
        }
        assert(p.has_previous() == o.has_previous());
        assert(p.goes_below() == o.goes_below());
        assert(p.built().position == (
            o.built().position.0 + e.position.0,
            o.built().position.1 + e.position.1,
        ));
        assert forall|t: int| 0 <= t < k implies {
            let there = #[trigger] e.state(k).nodes[e.nodes.len() + t];
            let here = s.state(k).nodes[t];
            &&& there.kind == here.kind
            &&& there.position == (here.position.0 + e.position.0, here.position.1 + e.position.1)
        } by {
            if t < k - 1 {
                assert(e.state(k).nodes[e.nodes.len() + t] == e.state(k - 1).nodes[e.nodes.len() + t]);
                assert(s.state(k).nodes[t] == s.state(k - 1).nodes[t]);
            } else {
                assert(e.state(k).nodes[e.nodes.len() + t] == p.built());
                assert(s.state(k).nodes[t] == o.built());
            }
        }
        let sockets = p.node.kind.output_sockets;
        assert forall|q: SocketRefModel|
            match #[trigger] assoc_get(s.state(k).outputs, q) {
                Some(r) => match assoc_get(e.state(k).outputs, q) {
                    Some(other) => other.node_index == r.node_index + e.nodes.len(),
                    None => false,
                },
                None => assoc_get(e.state(k).outputs, q) is None,
            } by {
            lemma_registered(p, sockets.len() as int, q);
            lemma_registered(o, sockets.len() as int, q);
            let before = assoc_get(s.state(k - 1).outputs, q);
        }
    } else {
        assert forall|q: SocketRefModel|
            match #[trigger] assoc_get(s.state(k).outputs, q) {
                Some(r) => match assoc_get(e.state(k).outputs, q) {
                    Some(other) => other.node_index == r.node_index + e.nodes.len(),
                    None => false,
                },
                None => assoc_get(e.state(k).outputs, q) is None,
            } by {
            crate::assoc::lemma_no_match(s.state(k).outputs, q);
            crate::assoc::lemma_no_match(e.state(k).outputs, q);
        }
    }
}

/// Two nodes of one expansion of a sound group lie on top of each other just
/// where they do when the group is expanded alone.
pub proof fn lemma_group_layout_is_its_own(e: Expansion, i: int, j: int)
    requires
        e.group.valid(),
        0 <= i < e.group.nodes.len(),
        0 <= j < e.group.nodes.len(),
    ensures
        apart(e.end().nodes[e.nodes.len() + i], e.end().nodes[e.nodes.len() + j]) == apart(
            solo(e.group).end().nodes[i],
            solo(e.group).end().nodes[j],
        ),
{
    let n = e.group.nodes.len() as int;
    lemma_group_moves(e, n);
    let a = e.end().nodes[e.nodes.len() + i];
    let b = e.end().nodes[e.nodes.len() + j];
}

/// Whether every group that the plan expands is sound, and lays none of its
/// nodes on top of another.
pub open spec fn plan_clear(plan: Plan) -> bool {
    &&& forall|k: int, g: int|
        0 <= k < plan.selected().inputs.len() && 0 <= g < plan.input_at(k).pipeline.len() ==> (
        #[trigger] plan.input_at(k).pipeline[g]).valid() && group_clear(
            plan.input_at(k).pipeline[g],
        )
    &&& forall|k: int, g: int|
        0 <= k < plan.selected().outputs.len() && 0 <= g < plan.output_at(k).pipeline.len() ==> (
        #[trigger] plan.output_at(k).pipeline[g]).valid() && group_clear(
            plan.output_at(k).pipeline[g],
        )
}

/// Two nodes of one group of an input lie on top of each other in the finished
/// material just where they do when the group is expanded alone.
pub proof fn lemma_input_group_is_its_own(plan: Plan, k: int, g: int, i: int, j: int)
    requires
        in_input_group(plan, k, g, i),
        in_input_group(plan, k, g, j),
        plan.input_at(k).pipeline[g].valid(),
    ensures
        clear(plan.nodes()[i], plan.nodes()[j]) == apart(
            solo(plan.input_at(k).pipeline[g]).end().nodes[i - plan.input_build(
                k,
            ).assembly().expansion(g).nodes.len()],
            solo(plan.input_at(k).pipeline[g]).end().nodes[j - plan.input_build(
                k,
            ).assembly().expansion(g).nodes.len()],
        ),
{
    let e = plan.input_build(k).assembly().expansion(g);
    lemma_input_group_node(plan, k, g, i);
    lemma_input_group_node(plan, k, g, j);
    lemma_group_layout_is_its_own(e, i - e.nodes.len(), j - e.nodes.len());
}

/// Two nodes of one group of an output lie on top of each other in the
/// finished material just where they do when the group is expanded alone.
pub proof fn lemma_output_group_is_its_own(plan: Plan, k: int, g: int, i: int, j: int)
    requires
        in_output_group(plan, k, g, i),
        in_output_group(plan, k, g, j),
        plan.output_at(k).pipeline[g].valid(),
    ensures
        clear(plan.nodes()[i], plan.nodes()[j]) == apart(
            solo(plan.output_at(k).pipeline[g]).end().nodes[i - plan.output_build(
                k,
            ).assembly().expansion(g).nodes.len()],
            solo(plan.output_at(k).pipeline[g]).end().nodes[j - plan.output_build(
                k,
            ).assembly().expansion(g).nodes.len()],
        ),
{
    let e = plan.output_build(k).assembly().expansion(g);
    lemma_output_group_node(plan, k, g, i);
    lemma_output_group_node(plan, k, g, j);
    lemma_group_layout_is_its_own(e, i - e.nodes.len(), j - e.nodes.len());
}

/// Where every group that is expanded is sound and lays none of its nodes on
/// top of another, no two nodes of the finished material lie on top of each
/// other.
pub proof fn lemma_clear_groups_give_clear_layout(plan: Plan, i: int, j: int)
    requires
        plan_sized(plan),
        plan_clear(plan),
        0 <= i < plan.nodes().len(),
        0 <= j < plan.nodes().len(),
        i != j,
    ensures
        clear(plan.nodes()[i], plan.nodes()[j]),
{
    if !same_group(plan, i, j) {
        lemma_no_overlap(plan, i, j);
    } else if exists|k: int, g: int| #[trigger]
        in_input_group(plan, k, g, i) && in_input_group(plan, k, g, j) {
        let (k, g) = choose|k: int, g: int| #[trigger]
            in_input_group(plan, k, g, i) && in_input_group(plan, k, g, j);
        let group = plan.input_at(k).pipeline[g];
        assert(group.valid() && group_clear(group));
        lemma_input_group_is_its_own(plan, k, g, i, j);
        lemma_input_group_node(plan, k, g, i);
        lemma_input_group_node(plan, k, g, j);
        let start = plan.input_build(k).assembly().expansion(g).nodes.len();
        if i < j {
            assert(apart(solo(group).end().nodes[i - start], solo(group).end().nodes[j - start]));
        } else {
            assert(apart(solo(group).end().nodes[j - start], solo(group).end().nodes[i - start]));
        }
    } else {
        let (k, g) = choose|k: int, g: int| #[trigger]
            in_output_group(plan, k, g, i) && in_output_group(plan, k, g, j);
        let group = plan.output_at(k).pipeline[g];
        assert(group.valid() && group_clear(group));
        lemma_output_group_is_its_own(plan, k, g, i, j);
        lemma_output_group_node(plan, k, g, i);
        lemma_output_group_node(plan, k, g, j);
        let start = plan.output_build(k).assembly().expansion(g).nodes.len();
        if i < j {
            assert(apart(solo(group).end().nodes[i - start], solo(group).end().nodes[j - start]));
        } else {
            assert(apart(solo(group).end().nodes[j - start], solo(group).end().nodes[i - start]));
        }
    }
}

/// Whether the group stays within the range of coordinates when it is
/// expanded alone: every coordinate that is read or computed to place its
/// nodes at the origin is within range.
pub open spec fn fits_alone(group: GroupModel) -> bool {
    expansion_fits(solo(group))
}

/// A group that is expanded at the origin with nothing placed before stays
/// within the range of coordinates just where it does alone, whatever it is
/// given from outside.
pub proof fn lemma_fits_as_alone(e: Expansion, k: int)
    requires
        e.group.valid(),
        e.nodes.len() == 0,
        e.position == (0int, 0int),
        0 <= k < e.group.nodes.len(),
    ensures
        placement_fits(e.placement(k)) == placement_fits(solo(e.group).placement(k)),
{
    let s = solo(e.group);
    let p = e.placement(k);
    let o = s.placement(k);
    lemma_group_moves(e, k);
    lemma_group_moves(e, k + 1);
    lemma_expansion_grows(e, 0, k);
    lemma_expansion_grows(s, 0, k);
    lemma_expansion_grows(e, k, k + 1);
    lemma_expansion_grows(s, k, k + 1);
    lemma_column_moves(e, k, p.node.links.len() as int);
    // the nodes that are read from lie where they lie in the group alone
    assert forall|i: int| 0 <= i < p.node.links.len() implies match (
        #[trigger] p.source(i),
        o.source(i),
    ) {
        (Some(there), Some(here)) => p.nodes[there.node_index].next_column()
            == o.nodes[here.node_index].next_column(),
        _ => false,
    } by {
        lemma_sound_group_is_linked(s, k, i);
        lemma_sound_group_is_linked(e, k, i);
        let q = e.group.nodes[k].links[i].1;
        let here = assoc_get(s.state(k).outputs, q);
        assert(o.source(i) == here);
        let t = here.unwrap().node_index;
        assert(p.source(i).unwrap().node_index == t + e.nodes.len());
        let there = e.state(k).nodes[e.nodes.len() + t];
        assert(there.kind == s.state(k).nodes[t].kind);
        assert(there.position == s.state(k).nodes[t].position);
    }
    assert forall|i: int| 0 <= i < o.node.links.len() implies match (
        #[trigger] o.source(i),
        p.source(i),
    ) {
        (Some(here), Some(there)) => p.nodes[there.node_index].next_column()
            == o.nodes[here.node_index].next_column(),
        _ => false,
    } by {
        let there = p.source(i);
    }
    // so does the node placed just before
    if k > 0 {
        let t = k - 1;
        let there = e.state(k).nodes[e.nodes.len() + t];
        let here = s.state(k).nodes[t];
        assert(p.nodes.last() == there);
        assert(o.nodes.last() == here);
        assert(there.kind == here.kind);
        assert(there.position == here.position);
    }
    assert(p.has_previous() == o.has_previous());
    assert(p.goes_below() == o.goes_below());
    assert(p.previous_fits() == o.previous_fits());
    // and so does the node itself
    let placed = e.state(k + 1).nodes[e.nodes.len() + k];
    assert(placed == p.built());
    assert(s.state(k + 1).nodes[k] == o.built());
    assert(placed.position == o.built().position);
    assert(p.far_corner() == o.far_corner());
}

/// A group that can be expanded stays within the range of coordinates.
pub proof fn lemma_ready_fits(e: Expansion)
    requires
        e.ready(),
    ensures
        expansion_fits(e),
{
    assert forall|k: int| 0 <= k < e.group.nodes.len() implies placement_fits(
        #[trigger] e.placement(k),
    ) by {
        assert(e.node_ready(k));
        let p = e.placement(k);
        assert forall|i: int| 0 <= i < p.node.links.len() implies match #[trigger] p.source(i) {
            Some(r) => p.nodes[r.node_index].next_column() <= i64::MAX,
            None => true,
        } by {
            assert(p.link_resolved(i));
        }
    }
}

/// A sound group that is given a link for each of its inputs and a value for
/// each of its properties, and is expanded at the origin with nothing placed
/// before, can be expanded just where it stays within the range of
/// coordinates alone.
pub proof fn lemma_supplied_group_is_ready(e: Expansion)
    requires
        e.group.valid(),
        e.nodes.len() == 0,
        e.position == (0int, 0int),
        forall|i: int|
            0 <= i < e.group.inputs.len() ==> assoc_get(
                e.outside_links,
                (#[trigger] e.group.inputs[i]).0,
            ) is Some,
        forall|i: int|
            0 <= i < e.group.properties.len() ==> assoc_get(
                e.outside_properties,
                (#[trigger] e.group.properties[i]).0,
            ) is Some,
    ensures
        e.ready() == fits_alone(e.group),
{
    let s = solo(e.group);
    assert forall|k: int| 0 <= k < e.group.nodes.len() implies #[trigger] e.node_supplied(k) by {
        assert forall|i: int|
            0 <= i < e.group.inputs.len() && (#[trigger] e.group.inputs[i]).1.target
                == e.group.nodes[k].id implies e.input_link(e.group.inputs[i].0) is Some by {
            assert(assoc_get(e.outside_links, e.group.inputs[i].0) is Some);
        }
    }
    assert forall|k: int| 0 <= k < e.group.nodes.len() implies placement_wired(
        #[trigger] e.placement(k),
    ) by {
        let p = e.placement(k);
        assert forall|i: int| 0 <= i < p.node.links.len() implies match #[trigger] p.source(i) {
            Some(r) => 0 <= r.node_index < p.nodes.len(),
            None => false,
        } by {
            lemma_sound_group_is_linked(e, k, i);
        }
    }
    lemma_sound_group_exports(e);
    assert(expansion_wired(e));
    if fits_alone(e.group) {
        assert forall|k: int| 0 <= k < e.group.nodes.len() implies placement_fits(
            #[trigger] e.placement(k),
        ) by {
            assert(placement_fits(s.placement(k)));
            lemma_fits_as_alone(e, k);
        }
        lemma_expansion_ready(e);
    }
    if e.ready() {
        lemma_ready_fits(e);
        assert forall|k: int| 0 <= k < s.group.nodes.len() implies placement_fits(
            #[trigger] s.placement(k),
        ) by {
            assert(placement_fits(e.placement(k)));
            lemma_fits_as_alone(e, k);
        }
    }
}

/// Whether two placed nodes cover no common ground.
fn lie_apart(a: &BuiltNode, b: &BuiltNode) -> (r: bool)
    ensures
        r == apart(a@, b@),
{
    let a_right = a.position[0] as i128 + a.kind.size[0] as i128;
    let b_right = b.position[0] as i128 + b.kind.size[0] as i128;
    let a_bottom = a.position[1] as i128 + a.kind.size[1] as i128;
    let b_bottom = b.position[1] as i128 + b.kind.size[1] as i128;
    a_right <= b.position[0] as i128 || b_right <= a.position[0] as i128 || a_bottom
        <= b.position[1] as i128 || b_bottom <= a.position[1] as i128
}

/// Whether no two of the nodes lie on top of each other.
fn all_apart(nodes: &Vec<BuiltNode>) -> (r: bool)
    ensures
        r == (forall|i: int, j: int|
            0 <= i < j < nodes@.len() ==> apart(
                #[trigger] nodes.deep_view()[i],
                #[trigger] nodes.deep_view()[j],
            )),
{
    let ghost placed = nodes.deep_view();
    let mut j: usize = 0;
    while j < nodes.len()
        invariant
            j <= nodes@.len(),
            placed == nodes.deep_view(),
            forall|a: int, b: int| 0 <= a < b < j ==> apart(#[trigger] placed[a], #[trigger] placed[b]),
        decreases nodes@.len() - j,
    {
        let mut i: usize = 0;
        while i < j
            invariant
                i <= j < nodes@.len(),
                placed == nodes.deep_view(),
                forall|a: int| 0 <= a < i ==> apart(#[trigger] placed[a], placed[j as int]),
            decreases j - i,
        {
            if !lie_apart(&nodes[i], &nodes[j]) {
                assert(!apart(placed[i as int], placed[j as int]));
                return false;
            }
            i += 1;
        }
        j += 1;
    }
    true
}

impl NodeGroup {
    /// Whether the group lays none of its nodes on top of another. There is a
    /// result just where the group is sound and stays within the range of
    /// coordinates when it is expanded alone at the origin.
    pub fn check_clear(&self) -> (r: Option<bool>)
        ensures
            r is Some <==> self@.valid() && fits_alone(self@),
            r is Some ==> r.unwrap() == group_clear(self@),
    {
        if !self.check() {
            return None;
        }
        let mut links: Vec<(&'static str, BuiltNodeSocketLink)> = Vec::new();
        let mut i: usize = 0;
        while i < self.inputs.len()
            invariant
                i <= self.inputs@.len(),
                self@.valid(),
                links@.len() == i,
                forall|j: int| 0 <= j < i ==> (#[trigger] links@[j]).0@ == self.inputs@[j].0@,
            decreases self.inputs@.len() - i,
        {
            links.push((self.inputs[i].0, BuiltNodeSocketLink::Value(Value::Bool(false))));
            i += 1;
        }
        let mut properties: Vec<(&'static str, Value)> = Vec::new();
        let mut i: usize = 0;
        while i < self.properties.len()
            invariant
                i <= self.properties@.len(),
                self@.valid(),
                links@.len() == self.inputs@.len(),
                forall|j: int|
                    0 <= j < links@.len() ==> (#[trigger] links@[j]).0@ == self.inputs@[j].0@,
                properties@.len() == i,
                forall|j: int|
                    0 <= j < i ==> (#[trigger] properties@[j]).0@ == self.properties@[j].0@,
            decreases self.properties@.len() - i,
        {
            properties.push((self.properties[i].0, Value::Bool(false)));
            i += 1;
        }
        let mut nodes: Vec<BuiltNode> = Vec::new();
        let mut outputs: Vec<(&'static str, BuiltNodeSocketRef)> = Vec::new();
        let ghost e = self.expansion(
            nodes.deep_view(),
            outputs.deep_view(),
            links.deep_view(),
            properties.deep_view(),
            [0, 0],
        );
        assert(nodes.deep_view() =~= Seq::<BuiltNodeModel>::empty());
        proof {
            assert forall|i: int| 0 <= i < e.group.inputs.len() implies assoc_get(
                e.outside_links,
                (#[trigger] e.group.inputs[i]).0,
            ) is Some by {
                assert(links.deep_view()[i].0 == links@[i].0@);
                assert(e.group.inputs[i].0 == self.inputs@[i].0@);
                assert(crate::assoc::has_key(e.outside_links, e.group.inputs[i].0));
            }
            assert forall|i: int| 0 <= i < e.group.properties.len() implies assoc_get(
                e.outside_properties,
                (#[trigger] e.group.properties[i]).0,
            ) is Some by {
                assert(properties.deep_view()[i].0 == properties@[i].0@);
                assert(e.group.properties[i].0 == self.properties@[i].0@);
                assert(crate::assoc::has_key(e.outside_properties, e.group.properties[i].0));
            }
            lemma_supplied_group_is_ready(e);
        }
        match self.try_build(&mut nodes, &mut outputs, &links, &properties, [0, 0]) {
            Some(_) => {},
            None => {
                return None;
            },
        }
        let clear = all_apart(&nodes);
        proof {
            let count = self@.nodes.len() as int;
            lemma_expansion_grows(e, 0, count);
            lemma_expansion_grows(solo(self@), 0, count);
            assert(e.nodes.len() == 0);
            assert forall|i: int, j: int| 0 <= i < j < count implies (apart(
                #[trigger] solo(self@).end().nodes[i],
                #[trigger] solo(self@).end().nodes[j],
            ) == apart(nodes.deep_view()[i], nodes.deep_view()[j])) by {
                lemma_group_layout_is_its_own(e, i, j);
            }
            assert forall|i: int, j: int| 0 <= i < j < count implies (apart(
                #[trigger] nodes.deep_view()[i],
                #[trigger] nodes.deep_view()[j],
            ) == apart(solo(self@).end().nodes[i], solo(self@).end().nodes[j])) by {
                lemma_group_layout_is_its_own(e, i, j);
            }
        }
        Some(clear)
    }
}

} // verus!
