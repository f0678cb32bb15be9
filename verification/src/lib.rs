//! A compiler for procedural shader graphs.
//!
//! A material is declared as named inputs (reusable pipelines of node groups),
//! outputs (bindings of a pipeline's result onto a socket of the shader node)
//! and static values. [`MaterialBuilder::build`] orders the inputs by their
//! dependencies, drops those that no output needs, expands every node group
//! into positioned nodes and returns the finished node list.
//!
//! Coordinates are whole numbers. A single-precision value that is only carried
//! through (a socket value, a colour) is held as its IEEE 754 bit pattern.
//!
//! # What is proved
//!
//! Every function is verified against a contract that says what it returns
//! and how it changes what it is given; none can panic or overflow. The
//! contracts of the stages are stated over mathematical descriptions of the
//! stages ([`placement::Placement`], [`group::Expansion`],
//! [`pipeline::Assembly`], [`builder::Plan`]). Of every material the
//! following is proved besides:
//!
//! - The inputs are put in an order in which each comes after those it reads
//!   from, whenever there is such an order
//!   ([`schedule::lemma_sorted_order`]); inputs that read from each other in
//!   a circle are refused ([`schedule::lemma_cycle_is_found`]), and where
//!   every input reads from declared inputs only, nothing else is
//!   ([`schedule::lemma_no_order_has_cycle`]).
//! - No input waits for another: what an input reads from is assembled
//!   before it, and its nodes come first in the node list
//!   ([`coverage::lemma_dependencies_are_assembled`],
//!   [`laws::lemma_dependencies_first`]).
//! - Only what a selected output reads, directly or through other inputs, is
//!   assembled, and every node comes from such an input, from a selected
//!   output, or is the shader node ([`laws::lemma_only_reachable_inputs`],
//!   [`laws::lemma_node_origin`]).
//! - Nodes never lie on top of each other unless they come from one
//!   expansion of one group, and there a node never covers the node placed
//!   just before it ([`layout::lemma_built_nodes_are_clear`],
//!   [`layout::lemma_neighbours_apart`]). Two nodes of one group lie on top
//!   of each other just where they do when the group is expanded alone
//!   ([`solo::lemma_group_layout_is_its_own`]), which
//!   [`NodeGroup::check_clear`] tests; so a material whose groups pass that
//!   test has no two nodes on top of each other
//!   ([`solo::lemma_clear_groups_give_clear_layout`]).
//! - Builders that hold the same declarations give the same material
//!   ([`laws::lemma_build_is_deterministic`]).
//! - Declarations that are in order can be built, unless they are so heavy
//!   that the layout leaves the range of coordinates
//!   ([`range::lemma_in_order_is_buildable`]).
use vstd::prelude::*;

pub mod assemble;
pub mod assoc;
pub mod builder;
pub mod catalog;
pub mod consistency;
pub mod coverage;
pub mod declare;
pub mod group;
pub mod growth;
pub mod laws;
pub mod layout;
pub mod nodes;
pub mod pipeline;
pub mod placement;
pub mod range;
pub mod resolver;
pub mod schedule;
pub mod solo;
pub mod text;
pub mod value;
pub mod wiring;

pub use builder::{BuiltMaterialData, CyclicDependency, MaterialBuilder};
pub use declare::{Input, InputLink, Output};
pub use nodes::{
    BuiltNode, BuiltNodeSocketLink, BuiltNodeSocketRef, Node, NodeGroup, NodeGroupRef,
    NodeSocketId, NodeSocketRef, NodeType, Ref,
};
pub use value::{ColorSpace, Settings, TextureInterpolation, Value};

verus! {

/// Gap left between neighbouring nodes, in both directions.
pub const NODE_MARGIN: i64 = 50;

} // verus!
