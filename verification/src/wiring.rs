//! A sound group is wired within itself: whatever its nodes and its outputs
//! read from the nodes of the group is there when it is read.
use crate::assoc::{assoc_get, lemma_put_get};
use crate::group::Expansion;
use crate::growth::lemma_expansion_grows;
use crate::nodes::{BuiltRefModel, SocketModel, SocketRefModel};
use crate::placement::Placement;
use vstd::prelude::*;

verus! {

/// What the group's output sockets hold for `q` after the first `n` output
/// sockets of a node are added: the node's socket where `q` names one of them,
/// else what they held before.
pub proof fn lemma_registered(p: Placement, n: int, q: SocketRefModel)
    requires
        0 <= n <= p.node.kind.output_sockets.len(),
    ensures
        assoc_get(p.registered(n), q) == if q.target == p.node.id
            && p.node.kind.output_sockets.take(n).contains(q.socket) {
            Some(BuiltRefModel { node_index: p.nodes.len() as int, socket: q.socket })
        } else {
            assoc_get(p.outputs, q)
        },
    decreases n,
{
    let sockets = p.node.kind.output_sockets;
    if n > 0 {
        lemma_registered(p, n - 1, q);
        let socket = sockets[n - 1];
        lemma_put_get(
            p.registered(n - 1),
            SocketRefModel { target: p.node.id, socket },
            BuiltRefModel { node_index: p.nodes.len() as int, socket },
            q,
        );
        let before = sockets.take(n - 1);
        let now = sockets.take(n);
        assert(now =~= before.push(socket));
        if before.contains(q.socket) {
            let i = choose|i: int| 0 <= i < before.len() && before[i] == q.socket;
            assert(now[i] == q.socket);
        }
        if socket == q.socket {
            assert(now[n - 1] == q.socket);
        }
        if now.contains(q.socket) {
            let i = choose|i: int| 0 <= i < now.len() && now[i] == q.socket;
            if i < n - 1 {
                assert(before[i] == q.socket);
            }
        }
    } else {
        assert(sockets.take(0) =~= Seq::<SocketModel>::empty());
    }
}

/// After the first `k` nodes of a group are placed, each of their output
/// sockets stands for one of these nodes.
pub proof fn lemma_placed_nodes_offer(e: Expansion, k: int, j: int, socket: SocketModel)
    requires
        0 <= j < k <= e.group.nodes.len(),
        e.group.nodes[j].kind.output_sockets.contains(socket),
    ensures
        match assoc_get(
            e.state(k).outputs,
            SocketRefModel { target: e.group.nodes[j].id, socket },
        ) {
            Some(r) => e.nodes.len() <= r.node_index < e.nodes.len() + k,
            None => false,
        },
    decreases k,
{
    let q = SocketRefModel { target: e.group.nodes[j].id, socket };
    let p = e.placement(k - 1);
    let sockets = p.node.kind.output_sockets;
    lemma_registered(p, sockets.len() as int, q);
    assert(sockets.take(sockets.len() as int) =~= sockets);
    lemma_expansion_grows(e, 0, k - 1);
    if j < k - 1 {
        lemma_placed_nodes_offer(e, k - 1, j, socket);
    }
}

/// In a sound group every fixed link reads from a node of the group that is
/// placed before.
pub proof fn lemma_sound_group_is_linked(e: Expansion, k: int, i: int)
    requires
        e.group.valid(),
        0 <= k < e.group.nodes.len(),
        0 <= i < e.group.nodes[k].links.len(),
    ensures
        match e.placement(k).source(i) {
            Some(r) => e.nodes.len() <= r.node_index < e.placement(k).nodes.len(),
            None => false,
        },
{
    assert(e.group.node_valid(k));
    let source = e.group.nodes[k].links[i].1;
    assert(e.group.offers(k, source));
    let j = choose|j: int|
        0 <= j < k && j < e.group.nodes.len() && (#[trigger] e.group.nodes[j]).id == source.target
            && e.group.nodes[j].kind.output_sockets.contains(source.socket);
    lemma_placed_nodes_offer(e, k, j, source.socket);
    lemma_expansion_grows(e, 0, k);
}

/// In a sound group every output names an output socket of a placed node.
pub proof fn lemma_sound_group_exports(e: Expansion)
    requires
        e.group.valid(),
    ensures
        e.exports_resolved(),
{
    let n = e.group.nodes.len() as int;
    assert forall|i: int| 0 <= i < e.group.outputs.len() implies assoc_get(
        e.end().outputs,
        (#[trigger] e.group.outputs[i]).1,
    ) is Some by {
        let source = e.group.outputs[i].1;
        assert(e.group.has_output(source.target, source.socket));
        let w = choose|w: int|
            e.group.is_node(source.target, w) && e.group.nodes[w].kind.output_sockets.contains(
                source.socket,
            );
        lemma_placed_nodes_offer(e, n, w, source.socket);
    }
}

} // verus!
