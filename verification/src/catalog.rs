//! What a node kind and a node group have to meet to be of use.
use crate::assoc::{distinct, distinct_keys, holds, keys};
use crate::nodes::{
    GroupModel, NodeGroup, NodeSocketRef, NodeType, NodeTypeModel, SocketModel, SocketRefModel,
};
use crate::text::str_eq;
use vstd::prelude::*;

verus! {

impl NodeTypeModel {
    /// Whether no socket and no property of the kind is declared twice.
    pub open spec fn valid(self) -> bool {
        &&& self.input_sockets.no_duplicates()
        &&& self.output_sockets.no_duplicates()
        &&& self.properties.no_duplicates()
    }
}

impl NodeType {
    /// Whether no socket and no property of the kind is declared twice.
    pub fn check(&self) -> (r: bool)
        ensures
            r == self@.valid(),
    {
        distinct(self.input_sockets) && distinct(self.output_sockets) && distinct(self.properties)
    }
}

impl GroupModel {
    /// Whether `k` is the position of the first node with the id `id`.
    pub open spec fn is_node(self, id: Seq<char>, k: int) -> bool {
        &&& 0 <= k < self.nodes.len()
        &&& self.nodes[k].id == id
        &&& forall|j: int| 0 <= j < k ==> (#[trigger] self.nodes[j]).id != id
    }

    /// Whether one of the first `k` nodes has the output socket that `source`
    /// names.
    pub open spec fn offers(self, k: int, source: SocketRefModel) -> bool {
        exists|j: int|
            0 <= j < k && j < self.nodes.len() && (#[trigger] self.nodes[j]).id == source.target
                && self.nodes[j].kind.output_sockets.contains(source.socket)
    }

    /// Whether the `k`-th node is sound: its links lead into input sockets of
    /// its kind and come from output sockets of earlier nodes, its values are
    /// for input sockets of its kind, and its properties are properties of its
    /// kind.
    pub open spec fn node_valid(self, k: int) -> bool {
        let node = self.nodes[k];
        &&& forall|i: int|
            0 <= i < node.links.len() ==> node.kind.input_sockets.contains(
                (#[trigger] node.links[i]).0,
            ) && self.offers(k, node.links[i].1)
        &&& forall|i: int|
            0 <= i < node.values.len() ==> node.kind.input_sockets.contains(
                (#[trigger] node.values[i]).0,
            )
        &&& forall|i: int|
            0 <= i < node.properties.len() ==> node.kind.properties.contains(
                (#[trigger] node.properties[i]).0,
            )
    }

    /// Whether the first node with the id `id` has the property `name`.
    pub open spec fn has_property(self, id: Seq<char>, name: Seq<char>) -> bool {
        exists|k: int| self.is_node(id, k) && self.nodes[k].kind.properties.contains(name)
    }

    /// Whether the first node with the id `id` has the input socket `socket`.
    pub open spec fn has_input(self, id: Seq<char>, socket: SocketModel) -> bool {
        exists|k: int| self.is_node(id, k) && self.nodes[k].kind.input_sockets.contains(socket)
    }

    /// Whether the first node with the id `id` has the output socket `socket`.
    pub open spec fn has_output(self, id: Seq<char>, socket: SocketModel) -> bool {
        exists|k: int| self.is_node(id, k) && self.nodes[k].kind.output_sockets.contains(socket)
    }

    /// Whether the group is sound: no two nodes have the same id; every node is
    /// sound; no two properties and no two outputs of the group have the same
    /// name; and every property, input and output of the group stands for a
    /// property or socket that its node has.
    pub open spec fn valid(self) -> bool {
        &&& forall|i: int, j: int|
            0 <= i < j < self.nodes.len() ==> (#[trigger] self.nodes[i]).id != (
            #[trigger] self.nodes[j]).id
        &&& forall|k: int| 0 <= k < self.nodes.len() ==> #[trigger] self.node_valid(k)
        &&& keys(self.properties).no_duplicates()
        &&& forall|i: int|
            0 <= i < self.properties.len() ==> self.has_property(
                (#[trigger] self.properties[i]).1.target,
                self.properties[i].1.name,
            )
        &&& forall|i: int|
            0 <= i < self.inputs.len() ==> self.has_input(
                (#[trigger] self.inputs[i]).1.target,
                self.inputs[i].1.socket,
            )
        &&& keys(self.outputs).no_duplicates()
        &&& forall|i: int|
            0 <= i < self.outputs.len() ==> self.has_output(
                (#[trigger] self.outputs[i]).1.target,
                self.outputs[i].1.socket,
            )
    }
}

impl NodeGroup {
    /// Position of the first node with the id `id`.
    pub fn find_node(&self, id: &str) -> (r: Option<usize>)
        ensures
            match r {
                Some(k) => self@.is_node(id@, k as int),
                None => forall|j: int| 0 <= j < self@.nodes.len() ==> (#[trigger] self@.nodes[j]).id
                    != id@,
            },
    {
        let mut k: usize = 0;
        while k < self.nodes.len()
            invariant
                k <= self.nodes@.len(),
                forall|j: int| 0 <= j < k ==> (#[trigger] self@.nodes[j]).id != id@,
            decreases self.nodes@.len() - k,
        {
            if str_eq(self.nodes[k].id, id) {
                assert(self@.nodes[k as int].id == id@);
                return Some(k);
            }
            k += 1;
        }
        None
    }

    /// Whether one of the first `k` nodes has the output socket that `source`
    /// names.
    fn offers(&self, k: usize, source: &NodeSocketRef) -> (r: bool)
        requires
            k <= self.nodes@.len(),
        ensures
            r == self@.offers(k as int, source@),
    {
        let mut j: usize = 0;
        while j < k
            invariant
                j <= k <= self.nodes@.len(),
                forall|i: int|
                    0 <= i < j ==> !((#[trigger] self@.nodes[i]).id == source@.target
                        && self@.nodes[i].kind.output_sockets.contains(source@.socket)),
            decreases k - j,
        {
            let node = &self.nodes[j];
            assert(node@ == self@.nodes[j as int]);
            if str_eq(node.id, source.target) && holds(node.kind.output_sockets, &source.socket) {
                return true;
            }
            j += 1;
        }
        false
    }

    /// Whether the `k`-th node is sound.
    fn check_node(&self, k: usize) -> (r: bool)
        requires
            k < self.nodes@.len(),
        ensures
            r == self@.node_valid(k as int),
    {
        let node = &self.nodes[k];
        assert(node@ == self@.nodes[k as int]);
        let mut i: usize = 0;
        while i < node.links.len()
            invariant
                i <= node.links@.len(),
                k < self.nodes@.len(),
                node@ == self@.nodes[k as int],
                forall|j: int|
                    0 <= j < i ==> node@.kind.input_sockets.contains((#[trigger] node@.links[j]).0)
                        && self@.offers(k as int, node@.links[j].1),
            decreases node.links@.len() - i,
        {
            assert(node@.links[i as int] == (node.links@[i as int].0@, node.links@[i as int].1@));
            if !holds(node.kind.input_sockets, &node.links[i].0) || !self.offers(
                k,
                &node.links[i].1,
            ) {
                return false;
            }
            i += 1;
        }
        let mut i: usize = 0;
        while i < node.values.len()
            invariant
                i <= node.values@.len(),
                node@ == self@.nodes[k as int],
                forall|j: int|
                    0 <= j < i ==> node@.kind.input_sockets.contains(
                        (#[trigger] node@.values[j]).0,
                    ),
            decreases node.values@.len() - i,
        {
            assert(node@.values[i as int].0 == node.values@[i as int].0@);
            if !holds(node.kind.input_sockets, &node.values[i].0) {
                return false;
            }
            i += 1;
        }
        let mut i: usize = 0;
        while i < node.properties.len()
            invariant
                i <= node.properties@.len(),
                node@ == self@.nodes[k as int],
                forall|j: int|
                    0 <= j < i ==> node@.kind.properties.contains(
                        (#[trigger] node@.properties[j]).0,
                    ),
            decreases node.properties@.len() - i,
        {
            assert(node@.properties[i as int].0 == node.properties@[i as int].0@);
            if !holds(node.kind.properties, &node.properties[i].0) {
                return false;
            }
            i += 1;
        }
        true
    }

    /// Whether no two nodes have the same id.
    fn distinct_ids(&self) -> (r: bool)
        ensures
            r == (forall|i: int, j: int|
                0 <= i < j < self@.nodes.len() ==> (#[trigger] self@.nodes[i]).id != (
                #[trigger] self@.nodes[j]).id),
    {
        let mut j: usize = 0;
        while j < self.nodes.len()
            invariant
                j <= self.nodes@.len(),
                forall|a: int, b: int|
                    0 <= a < b < j ==> (#[trigger] self@.nodes[a]).id != (
                    #[trigger] self@.nodes[b]).id,
            decreases self.nodes@.len() - j,
        {
            let mut i: usize = 0;
            while i < j
                invariant
                    i <= j < self.nodes@.len(),
                    forall|a: int| 0 <= a < i ==> (#[trigger] self@.nodes[a]).id != self@.nodes[j as int].id,
                decreases j - i,
            {
                if str_eq(self.nodes[i].id, self.nodes[j].id) {
                    assert(self@.nodes[i as int].id == self@.nodes[j as int].id);
                    return false;
                }
                i += 1;
            }
            j += 1;
        }
        true
    }

    /// Whether the group is sound.
    pub fn check(&self) -> (r: bool)
        ensures
            r == self@.valid(),
    {
        if !self.distinct_ids() {
            return false;
        }
        let mut k: usize = 0;
        while k < self.nodes.len()
            invariant
                k <= self.nodes@.len(),
                forall|j: int| 0 <= j < k ==> #[trigger] self@.node_valid(j),
            decreases self.nodes@.len() - k,
        {
            if !self.check_node(k) {
                return false;
            }
            k += 1;
        }
        if !distinct_keys(self.properties) || !distinct_keys(self.outputs) {
            return false;
        }
        let mut i: usize = 0;
        while i < self.properties.len()
            invariant
                i <= self.properties@.len(),
                forall|j: int|
                    0 <= j < i ==> self@.has_property(
                        (#[trigger] self@.properties[j]).1.target,
                        self@.properties[j].1.name,
                    ),
            decreases self.properties@.len() - i,
        {
            let target = self.properties[i].1;
            assert(self@.properties[i as int].1 == target@);
            let ok = match self.find_node(target.target) {
                Some(at) => {
                    assert(self@.nodes[at as int] == self.nodes@[at as int]@);
                    holds(self.nodes[at].kind.properties, &target.name)
                },
                None => false,
            };
            if !ok {
                assert(!self@.has_property(target@.target, target@.name)) by {
                    if self@.has_property(target@.target, target@.name) {
                        let w = choose|w: int|
                            self@.is_node(target@.target, w)
                                && self@.nodes[w].kind.properties.contains(target@.name);
                        assert(self@.nodes[w].id == target@.target);
                    }
                }
                return false;
            }
            i += 1;
        }
        let mut i: usize = 0;
        while i < self.inputs.len()
            invariant
                i <= self.inputs@.len(),
                forall|j: int|
                    0 <= j < i ==> self@.has_input(
                        (#[trigger] self@.inputs[j]).1.target,
                        self@.inputs[j].1.socket,
                    ),
            decreases self.inputs@.len() - i,
        {
            let target = self.inputs[i].1;
            assert(self@.inputs[i as int].1 == target@);
            let ok = match self.find_node(target.target) {
                Some(at) => {
                    assert(self@.nodes[at as int] == self.nodes@[at as int]@);
                    holds(self.nodes[at].kind.input_sockets, &target.socket)
                },
                None => false,
            };
            if !ok {
                assert(!self@.has_input(target@.target, target@.socket)) by {
                    if self@.has_input(target@.target, target@.socket) {
                        let w = choose|w: int|
                            self@.is_node(target@.target, w)
                                && self@.nodes[w].kind.input_sockets.contains(target@.socket);
                        assert(self@.nodes[w].id == target@.target);
                    }
                }
                return false;
            }
            i += 1;
        }
        let mut i: usize = 0;
        while i < self.outputs.len()
            invariant
                i <= self.outputs@.len(),
                forall|j: int|
                    0 <= j < i ==> self@.has_output(
                        (#[trigger] self@.outputs[j]).1.target,
                        self@.outputs[j].1.socket,
                    ),
            decreases self.outputs@.len() - i,
        {
            let target = self.outputs[i].1;
            assert(self@.outputs[i as int].1 == target@);
            let ok = match self.find_node(target.target) {
                Some(at) => {
                    assert(self@.nodes[at as int] == self.nodes@[at as int]@);
                    holds(self.nodes[at].kind.output_sockets, &target.socket)
                },
                None => false,
            };
            if !ok {
                assert(!self@.has_output(target@.target, target@.socket)) by {
                    if self@.has_output(target@.target, target@.socket) {
                        let w = choose|w: int|
                            self@.is_node(target@.target, w)
                                && self@.nodes[w].kind.output_sockets.contains(target@.socket);
                        assert(self@.nodes[w].id == target@.target);
                    }
                }
                return false;
            }
            i += 1;
        }
        true
    }
}

} // verus!
