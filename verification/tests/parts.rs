use plumber::assoc::{distinct, find, holds, put};
use plumber::builder::MaterialBuilder;
use plumber::declare::{find_input, Input, InputLink, Output};
use plumber::nodes::{
    BuiltNode, BuiltNodeSocketLink, BuiltNodeSocketRef, Node, NodeGroup, NodeGroupRef,
    NodeSocketId, NodeSocketRef, NodeType, Ref,
};
use plumber::pipeline::{build_pipeline, try_build_pipeline, BuiltInput};
use plumber::resolver::{
    dependency_edges, dependency_free, sort_dependencies_recursive, sort_inputs,
    topological_sort_inputs,
};
use plumber::text::str_eq;
use plumber::value::{
    ColorSpace, InvalidInterpolation, Settings, TextureInterpolation, Value,
};
use plumber::NODE_MARGIN;

use NodeSocketId::{Name, Position};

fn leak<T>(items: Vec<T>) -> &'static [T] {
    Vec::leak(items)
}

fn kind(size: [u32; 2], inputs: Vec<NodeSocketId>, outputs: Vec<NodeSocketId>) -> &'static NodeType {
    Box::leak(Box::new(NodeType {
        blender_id: "Test",
        size,
        input_sockets: leak(inputs),
        output_sockets: leak(outputs),
        properties: leak(vec!["mode"]),
    }))
}

fn group(
    id: u32,
    nodes: Vec<Node>,
    properties: Vec<(&'static str, Ref)>,
    inputs: Vec<(&'static str, NodeSocketRef)>,
    outputs: Vec<(&'static str, NodeSocketRef)>,
) -> &'static NodeGroup {
    Box::leak(Box::new(NodeGroup {
        id,
        nodes: leak(nodes),
        properties: leak(properties),
        inputs: leak(inputs),
        outputs: leak(outputs),
    }))
}

fn node(kind: &'static NodeType, id: &'static str, links: Vec<(NodeSocketId, NodeSocketRef)>) -> Node {
    Node { kind, id, properties: leak(vec![]), values: leak(vec![]), links: leak(links) }
}

fn unit() -> &'static NodeType {
    kind([100, 100], vec![Position(0), Position(1)], vec![Position(0)])
}

/// One node with an input `in` and an output `out`.
fn single(id: u32) -> &'static NodeGroup {
    group(
        id,
        vec![node(unit(), "n", vec![])],
        vec![],
        vec![("in", NodeSocketRef::new("n", Position(0)))],
        vec![("out", NodeSocketRef::new("n", Position(0)))],
    )
}

/// One node that needs nothing and puts out `out`.
fn source(id: u32) -> &'static NodeGroup {
    group(
        id,
        vec![node(unit(), "n", vec![])],
        vec![],
        vec![],
        vec![("out", NodeSocketRef::new("n", Position(0)))],
    )
}

fn shader() -> &'static NodeType {
    kind([200, 300], vec![Name("A"), Name("B")], vec![])
}

#[test]
fn strings_are_compared_by_content() {
    assert!(str_eq("", ""));
    assert!(str_eq("color", "color"));
    assert!(str_eq("$basetexture", &String::from("$basetexture")));
    assert!(!str_eq("color", "colour"));
    assert!(!str_eq("color", "colon"));
    assert!(!str_eq("a", "ab"));
    assert!(str_eq("zwölf", "zwölf"));
    assert!(!str_eq("zwölf", "zwolf"));
}

#[test]
fn interpolation_names() {
    assert_eq!(TextureInterpolation::Linear.to_str(), "Linear");
    assert_eq!(TextureInterpolation::Closest.to_str(), "Closest");
    assert_eq!(TextureInterpolation::Cubic.to_str(), "Cubic");
    assert_eq!(TextureInterpolation::Smart.to_str(), "Smart");
    for interpolation in [
        TextureInterpolation::Linear,
        TextureInterpolation::Closest,
        TextureInterpolation::Cubic,
        TextureInterpolation::Smart,
    ] {
        assert_eq!(TextureInterpolation::from_str(interpolation.to_str()), Ok(interpolation));
    }
    assert_eq!(TextureInterpolation::from_str("linear"), Err(InvalidInterpolation));
    assert_eq!(TextureInterpolation::from_str(""), Err(InvalidInterpolation));
    assert_eq!(TextureInterpolation::default(), TextureInterpolation::Linear);
}

#[test]
fn default_settings() {
    let settings = Settings::default();
    assert!(!settings.simple_materials);
    assert!(!settings.allow_culling);
    assert!(!settings.editor_materials);
    assert_eq!(settings.texture_interpolation, TextureInterpolation::Linear);
}

#[test]
fn color_space_names() {
    assert_eq!(ColorSpace::Srgb.to_str(), "sRGB");
    assert_eq!(ColorSpace::NonColor.to_str(), "Non-Color");
}

#[test]
fn association_lists_keep_one_entry_for_each_key() {
    let mut entries: Vec<(&'static str, Value)> = Vec::new();
    assert_eq!(find(&entries, &"a"), None);

    put(&mut entries, "a", Value::Bool(true));
    put(&mut entries, "b", Value::Float(1));
    put(&mut entries, "a", Value::Bool(false));

    assert_eq!(entries.len(), 2);
    assert_eq!(find(&entries, &"a"), Some(0));
    assert_eq!(find(&entries, &"b"), Some(1));
    assert_eq!(find(&entries, &"c"), None);
    assert!(matches!(entries[0], ("a", Value::Bool(false))));
}

#[test]
fn sockets_are_told_apart_by_kind_and_content() {
    let sockets = [Position(0), Name("0"), Name("Color"), Position(1)];
    assert!(distinct(&sockets));
    assert!(holds(&sockets, &Name("Color")));
    assert!(holds(&sockets, &Position(1)));
    assert!(!holds(&sockets, &Name("1")));
    assert!(!holds(&sockets, &Position(2)));
    assert!(!distinct(&[Position(0), Name("a"), Position(0)]));
    assert!(!distinct(&[Name("a"), Name("a")]));
}

#[test]
fn references_name_their_target() {
    let reference = Ref::new("input", "socket");
    assert!(reference.depends_on("input"));
    assert!(!reference.depends_on("socket"));
    let socket = NodeSocketRef::new("node", Position(2));
    assert!(socket.depends_on("node"));
    assert!(!socket.depends_on("other"));
    let one = single(1);
    let two = single(2);
    let to_group = NodeGroupRef::new(one, "in");
    assert!(to_group.depends_on(one));
    assert!(!to_group.depends_on(two));
}

#[test]
fn links_are_made_from_references_and_values() {
    assert!(matches!(InputLink::from(Ref::new("a", "b")), InputLink::Input(Ref { target: "a", name: "b" })));
    assert!(matches!(InputLink::from(Value::Bool(true)), InputLink::Value(Value::Bool(true))));
    assert!(matches!(NodeSocketId::from(3), Position(3)));
    assert!(matches!(NodeSocketId::from("Color"), Name("Color")));
    let link = InputLink::Input(Ref::new("a", "b"));
    assert!(!link.is_dependency_free());
    assert!(link.depends_on("a"));
    assert!(!link.depends_on("b"));
    let value = InputLink::Value(Value::Float(0));
    assert!(value.is_dependency_free());
    assert!(!value.depends_on("a"));
}

fn reading(id: &'static str, from: &[&'static str]) -> Input {
    let one = single(1);
    let mut input = Input::new(id);
    input.push(one);
    for (i, target) in from.iter().enumerate() {
        let socket: &'static str = ["in", "x", "y", "z"][i];
        input.link(one, socket, Ref::new(target, "out"));
    }
    if from.is_empty() {
        input.link(one, "in", Value::Float(0));
    }
    input
}

#[test]
fn inputs_know_what_they_read_from() {
    let a = reading("a", &[]);
    let b = reading("b", &["a"]);
    assert!(a.is_dependency_free());
    assert!(!b.is_dependency_free());
    assert!(b.depends_on(&a));
    assert!(!a.depends_on(&b));
    assert!(!b.depends_on(&b));
    let socket = b.socket("out");
    assert_eq!((socket.target, socket.name), ("b", "out"));
    let inputs = vec![a, b];
    assert_eq!(find_input(&inputs, "b"), Some(1));
    assert_eq!(find_input(&inputs, "c"), None);
}

#[test]
fn a_link_to_the_same_socket_replaces_the_one_before() {
    let one = single(1);
    let mut input = Input::new("a");
    input
        .link(one, "in", Ref::new("b", "out"))
        .link(one, "in", Value::Float(7))
        .property(one, "mode", Value::Bool(true))
        .property(one, "mode", Value::Bool(false));
    assert_eq!(input.links.len(), 1);
    assert!(input.is_dependency_free());
    assert_eq!(input.properties.len(), 1);
    assert!(matches!(input.properties[0].1, Value::Bool(false)));
}

#[test]
fn edges_lead_from_an_input_to_its_readers() {
    let inputs = vec![
        reading("a", &["c", "b"]),
        reading("b", &["c"]),
        reading("c", &[]),
        reading("d", &["missing"]),
    ];
    assert_eq!(dependency_edges(&inputs), vec![(1, 0), (2, 0), (2, 1)]);
    assert_eq!(dependency_free(&inputs), vec![2]);
    let (sorted, left) = sort_inputs(&inputs);
    assert_eq!(sorted, vec![2, 1, 0]);
    assert!(left.is_empty());
    // the input that reads only from what is not declared is never taken
    assert_eq!(topological_sort_inputs(&inputs), Some(vec![2, 1, 0]));
}

#[test]
fn an_input_that_reads_from_itself_is_a_cycle() {
    let inputs = vec![reading("a", &["a"])];
    assert_eq!(topological_sort_inputs(&inputs), None);
    let (sorted, left) = sort_inputs(&inputs);
    assert!(sorted.is_empty());
    assert_eq!(left, vec![(0, 0)]);
}

#[test]
fn no_inputs_are_in_order() {
    assert_eq!(topological_sort_inputs(&Vec::new()), Some(Vec::new()));
}

#[test]
fn the_walk_goes_through_what_an_input_reads_from() {
    // d reads from b and c, which both read from a
    let inputs = vec![
        reading("a", &[]),
        reading("b", &["a"]),
        reading("c", &["a"]),
        reading("d", &["b", "c"]),
        reading("e", &["a"]),
    ];
    let order = topological_sort_inputs(&inputs).unwrap();
    let mut walk = vec![9];
    sort_dependencies_recursive(&inputs, &order, order.len(), &mut walk, 3);
    // d first; each input is followed by what it reads from; a comes once for
    // each way that leads to it; e is not read from
    assert_eq!(walk[..2], [9, 3]);
    assert_eq!(walk.len(), 6);
    assert_eq!(walk.iter().filter(|&&i| i == 0).count(), 2);
    assert!(!walk.contains(&4));
    for (at, &input) in walk.iter().enumerate().skip(1) {
        for (other, read) in inputs.iter().enumerate() {
            if inputs[input].depends_on(read) {
                assert!(walk[at + 1..].contains(&other));
            }
        }
    }
    let mut alone = Vec::new();
    sort_dependencies_recursive(&inputs, &order, order.len(), &mut alone, 0);
    assert_eq!(alone, vec![0]);
}

#[test]
fn outputs_read_from_their_input_or_from_what_their_links_name() {
    let one = single(1);
    let mut builder = MaterialBuilder::new(shader());
    let output: &mut Output = builder.output("A", "a", "out");
    assert_eq!(output.dependencies(), vec!["a"]);
    output
        .push(one)
        .link(one, "in", Ref::new("b", "out"))
        .link(one, "x", Value::Float(0))
        .link(one, "y", Ref::new("c", "out"));
    assert_eq!(output.dependencies(), vec!["b", "c"]);
    output.link_input(one, "in");
    assert_eq!(output.dependencies(), vec!["a", "c"]);
    output.pipeline(Vec::new()).property(one, "mode", Value::Bool(true));
    assert_eq!(output.dependencies(), vec!["a"]);
}

fn placed(kind: &'static NodeType, position: [i64; 2]) -> BuiltNode {
    kind.build(Vec::new(), Vec::new(), Vec::new(), position)
}

#[test]
fn a_node_makes_way_for_the_node_before_it() {
    let wide = kind([300, 100], vec![], vec![Position(0)]);
    let small = unit();
    // the node before begins right of the base: the node goes below it, in
    // its column
    let mut nodes = vec![placed(wide, [500, 20])];
    let mut outputs = Vec::new();
    let corner = node(small, "n", vec![]).build(&mut nodes, &mut outputs, &Vec::new(), &Vec::new(), [0, 0], true);
    assert_eq!(nodes[1].position(), [500, 170]);
    assert_eq!(corner, [600, 270]);
    // the node before covers the base: the node goes below it, in its own
    // column
    let mut nodes = vec![placed(wide, [-100, 20])];
    node(small, "n", vec![]).build(&mut nodes, &mut outputs, &Vec::new(), &Vec::new(), [0, 0], true);
    assert_eq!(nodes[1].position(), [0, 170]);
    // the node before ends at the base: the node stays in its row
    let mut nodes = vec![placed(wide, [-300, 20])];
    node(small, "n", vec![]).build(&mut nodes, &mut outputs, &Vec::new(), &Vec::new(), [0, 0], true);
    assert_eq!(nodes[1].position(), [0, 0]);
    // nothing to make way for
    let mut nodes = vec![placed(wide, [0, 0])];
    node(small, "n", vec![]).build(&mut nodes, &mut outputs, &Vec::new(), &Vec::new(), [0, 0], false);
    assert_eq!(nodes[1].position(), [0, 0]);
    assert_eq!(outputs.len(), 1);
    assert_eq!(outputs[0].1.node_index(), 1);
}

#[test]
fn a_node_stands_right_of_what_it_reads_from() {
    let small = unit();
    let mut nodes = vec![placed(small, [40, 0]), placed(small, [400, 700])];
    let mut outputs = vec![
        (NodeSocketRef::new("a", Position(0)), BuiltNodeSocketRef { node_index: 0, socket: Position(0) }),
        (NodeSocketRef::new("b", Position(0)), BuiltNodeSocketRef { node_index: 1, socket: Position(0) }),
    ];
    let reader = node(
        small,
        "n",
        vec![
            (Position(0), NodeSocketRef::new("b", Position(0))),
            (Position(1), NodeSocketRef::new("a", Position(0))),
        ],
    );
    let links = vec![(Position(1), BuiltNodeSocketLink::Value(Value::Bool(true)))];
    let corner = reader.build(&mut nodes, &mut outputs, &links, &Vec::new(), [10, 10], false);
    // the column after the rightmost node that is read from
    assert_eq!(nodes[2].position(), [400 + 100 + NODE_MARGIN, 10]);
    assert_eq!(corner, [650, 110]);
    assert_eq!(nodes[2].socket_links.len(), 2);
    assert_eq!(nodes[2].socket_links[0].1.node_index, 1);
    assert!(matches!(nodes[2].socket_values[..], [(Position(1), Value::Bool(true))]));
    assert_eq!(outputs.len(), 3);
}

#[test]
fn a_node_that_cannot_be_placed_changes_nothing() {
    let small = unit();
    let reader = node(small, "n", vec![(Position(0), NodeSocketRef::new("a", Position(0)))]);
    // the link reads from nothing
    let mut nodes = vec![placed(small, [0, 0])];
    let mut outputs = Vec::new();
    assert_eq!(reader.try_build(&mut nodes, &mut outputs, &Vec::new(), &Vec::new(), [0, 0], true), None);
    assert_eq!((nodes.len(), outputs.len()), (1, 0));
    // the link reads from a node that is not there
    let mut outputs = vec![(
        NodeSocketRef::new("a", Position(0)),
        BuiltNodeSocketRef { node_index: 3, socket: Position(0) },
    )];
    assert_eq!(reader.try_build(&mut nodes, &mut outputs, &Vec::new(), &Vec::new(), [0, 0], true), None);
    assert_eq!((nodes.len(), outputs.len()), (1, 1));
    // the column after the node that is read from is out of range
    let mut nodes = vec![placed(small, [i64::MAX - 120, 0])];
    let mut outputs = vec![(
        NodeSocketRef::new("a", Position(0)),
        BuiltNodeSocketRef { node_index: 0, socket: Position(0) },
    )];
    assert_eq!(reader.try_build(&mut nodes, &mut outputs, &Vec::new(), &Vec::new(), [0, 0], false), None);
    // the far corner of the node is out of range
    let free = node(small, "n", vec![]);
    let mut nodes = Vec::new();
    let mut outputs = Vec::new();
    assert_eq!(free.try_build(&mut nodes, &mut outputs, &Vec::new(), &Vec::new(), [i64::MAX - 99, 0], false), None);
    assert_eq!(free.try_build(&mut nodes, &mut outputs, &Vec::new(), &Vec::new(), [0, i64::MAX - 99], false), None);
    assert!(nodes.is_empty());
    assert_eq!(
        free.try_build(&mut nodes, &mut outputs, &Vec::new(), &Vec::new(), [i64::MAX - 100, i64::MIN], false),
        Some([i64::MAX, i64::MIN + 100])
    );
    // the row below the node before is out of range
    let mut nodes = vec![placed(small, [0, i64::MAX - 120])];
    assert_eq!(free.try_build(&mut nodes, &mut outputs, &Vec::new(), &Vec::new(), [0, 0], true), None);
    assert_eq!(free.try_build(&mut nodes, &mut outputs, &Vec::new(), &Vec::new(), [100, 0], true), Some([200, 100]));
}

#[test]
fn groups_need_their_inputs_and_properties() {
    let with_property = group(
        1,
        vec![node(unit(), "n", vec![])],
        vec![("mode", Ref::new("n", "mode"))],
        vec![("in", NodeSocketRef::new("n", Position(0)))],
        vec![("out", NodeSocketRef::new("n", Position(0)))],
    );
    let links = vec![("in", BuiltNodeSocketLink::Value(Value::Float(1)))];
    let properties = vec![("mode", Value::Enum("ADD"))];
    let from_before = vec![("in", BuiltNodeSocketRef { node_index: 0, socket: Position(0) })];

    let mut nodes = Vec::new();
    let mut outputs = Vec::new();
    assert_eq!(with_property.try_build(&mut nodes, &mut outputs, &Vec::new(), &properties, [0, 0]), None);
    let mut nodes = Vec::new();
    assert_eq!(with_property.try_build(&mut nodes, &mut outputs, &links, &Vec::new(), [0, 0]), None);

    // what is linked goes before what the group before puts out
    let mut nodes = Vec::new();
    let mut outputs = from_before.clone();
    assert_eq!(with_property.build(&mut nodes, &mut outputs, &links, &properties, [5, 6]), [105, 106]);
    assert!(nodes[0].socket_links.is_empty());
    assert!(matches!(nodes[0].socket_values[..], [(Position(0), Value::Float(1))]));
    assert!(matches!(nodes[0].properties[..], [("mode", Value::Enum("ADD"))]));
    assert_eq!(outputs.len(), 2);
    assert_eq!(outputs[1].0, "out");

    let mut nodes = vec![placed(unit(), [0, 0])];
    let mut outputs = from_before;
    assert_eq!(with_property.build(&mut nodes, &mut outputs, &Vec::new(), &properties, [5, 6]), [105, 106]);
    assert_eq!(nodes[1].socket_links[0].1.node_index, 0);
}

#[test]
fn a_group_without_nodes_takes_up_nothing() {
    let empty = NodeGroup::default();
    let mut nodes = Vec::new();
    let mut outputs = Vec::new();
    assert_eq!(empty.try_build(&mut nodes, &mut outputs, &Vec::new(), &Vec::new(), [7, 9]), Some([7, 9]));
    assert!(nodes.is_empty());
    assert!(empty.check());
    assert!(NodeType::default().check());
    let plain = Node::default();
    assert_eq!(plain.id, "");
    assert_eq!(plain.kind.size, [0, 0]);
}

#[test]
fn a_pipeline_without_groups_ends_one_margin_before_it_begins() {
    let mut nodes = Vec::new();
    let mut outputs = Vec::new();
    let corner = build_pipeline(&[], [10, 20], &Vec::new(), &Vec::new(), &Vec::new(), &mut outputs, &mut nodes);
    assert_eq!(corner, [10 - NODE_MARGIN, 20]);
    assert_eq!(
        try_build_pipeline(&[], [i64::MIN + 49, 0], &Vec::new(), &Vec::new(), &Vec::new(), &mut outputs, &mut nodes),
        None
    );
}

#[test]
fn links_are_followed_to_the_sockets_of_assembled_inputs() {
    let inputs = vec![(
        "a",
        BuiltInput {
            outputs: vec![("out", BuiltNodeSocketRef { node_index: 4, socket: Name("Color") })],
            x_max: 100,
            y_max: 200,
        },
    )];
    assert_eq!(inputs[0].1.next_column(), 150);
    assert_eq!(inputs[0].1.next_row(), 250);
    assert!(inputs[0].1.x_overlaps(99));
    assert!(!inputs[0].1.x_overlaps(100));
    let found = Ref::new("a", "out").evaluate_input(&inputs);
    assert_eq!(found.node_index, 4);
    assert!(Ref::new("a", "other").find_socket(&inputs).is_none());
    assert!(Ref::new("b", "out").find_socket(&inputs).is_none());
    assert!(Ref::new("b", "out").find_input(&inputs).is_none());
    assert_eq!(Ref::new("a", "x").evaluate_input_only(&inputs).x_max, 100);
    assert!(matches!(
        InputLink::Input(Ref::new("a", "out")).evaluate(&inputs),
        BuiltNodeSocketLink::Link(BuiltNodeSocketRef { node_index: 4, .. })
    ));
    assert!(matches!(
        InputLink::Value(Value::Bool(true)).evaluate(&inputs),
        BuiltNodeSocketLink::Value(Value::Bool(true))
    ));
    assert!(InputLink::Input(Ref::new("a", "nothing")).try_evaluate(&inputs).is_none());
    assert!(InputLink::Value(Value::Bool(true)).evaluate_input_only(&inputs).is_none());
    assert!(InputLink::Input(Ref::new("a", "nothing")).evaluate_input_only(&inputs).is_some());
}

#[test]
fn an_input_goes_below_the_inputs_that_reach_into_its_column() {
    let one = source(1);
    let mut input = Input::new("new");
    input.push(one);
    let wide = BuiltInput { outputs: Vec::new(), x_max: 300, y_max: 400 };
    let narrow = BuiltInput { outputs: Vec::new(), x_max: 0, y_max: 900 };
    let mut inputs = vec![("wide", wide), ("narrow", narrow)];
    let mut nodes = Vec::new();
    input.build(&mut inputs, &mut nodes);
    // `wide` reaches into the column at 0, `narrow` ends there
    assert_eq!(nodes[0].position(), [0, 400 + NODE_MARGIN]);
    assert_eq!(inputs.len(), 3);
    assert_eq!(inputs[2].0, "new");
    assert_eq!((inputs[2].1.x_max, inputs[2].1.y_max), (100, 550));
    assert_eq!(inputs[2].1.outputs[0].0, "out");
}

#[test]
fn what_cannot_be_built_is_refused() {
    let one = single(1);
    let two = source(2);

    // an output reads from an input that is not declared
    let mut builder = MaterialBuilder::new(shader());
    builder.output("A", "nowhere", "out");
    assert!(builder.try_build().is_none());

    // an output reads from a socket that the input does not have
    let mut builder = MaterialBuilder::new(shader());
    builder.input("a").push(two);
    builder.output("A", "a", "other");
    assert!(builder.try_build().is_none());

    // an input of a group is not fed
    let mut builder = MaterialBuilder::new(shader());
    builder.input("a").push(one);
    builder.output("A", "a", "out");
    assert!(builder.try_build().is_none());

    // a selected input reads from an input that is not declared
    let mut builder = MaterialBuilder::new(shader());
    builder.input("a").push(one).link(one, "in", Ref::new("nowhere", "out"));
    builder.output("A", "a", "out");
    assert!(builder.try_build().is_none());

    // the pipeline of an output ends in a group with two outputs
    let double = group(
        3,
        vec![node(unit(), "n", vec![])],
        vec![],
        vec![],
        vec![
            ("out", NodeSocketRef::new("n", Position(0))),
            ("same", NodeSocketRef::new("n", Position(0))),
        ],
    );
    let mut builder = MaterialBuilder::new(shader());
    builder.input("a").push(two);
    builder.output("A", "a", "out").push(double);
    assert!(builder.try_build().is_none());

    // a group reads from a node that it does not hold
    let broken = group(
        4,
        vec![node(unit(), "n", vec![(Position(0), NodeSocketRef::new("m", Position(0)))])],
        vec![],
        vec![],
        vec![("out", NodeSocketRef::new("n", Position(0)))],
    );
    assert!(!broken.check());
    let mut builder = MaterialBuilder::new(shader());
    builder.input("a").push(broken);
    builder.output("A", "a", "out");
    assert!(builder.try_build().is_none());

    // none of this matters where no output of the shader's reads it
    let mut builder = MaterialBuilder::new(shader());
    builder.input("a").push(broken);
    builder.output("C", "a", "out");
    builder.output("D", "nowhere", "out");
    assert!(matches!(builder.try_build(), Some(Ok(data)) if data.nodes.len() == 1));
}

#[test]
fn groups_are_checked() {
    let small = unit();
    let sound = group(
        1,
        vec![
            node(small, "a", vec![]),
            node(small, "b", vec![(Position(1), NodeSocketRef::new("a", Position(0)))]),
        ],
        vec![("mode", Ref::new("b", "mode"))],
        vec![("in", NodeSocketRef::new("a", Position(0)))],
        vec![("out", NodeSocketRef::new("b", Position(0)))],
    );
    assert!(sound.check());
    assert_eq!(sound.find_node("b"), Some(1));
    assert_eq!(sound.find_node("c"), None);
    let variants: Vec<(&str, &'static NodeGroup)> = vec![
        ("two nodes with one id", group(2, vec![node(small, "a", vec![]), node(small, "a", vec![])], vec![], vec![], vec![])),
        ("a link from a later node", group(2, vec![node(small, "a", vec![(Position(0), NodeSocketRef::new("b", Position(0)))]), node(small, "b", vec![])], vec![], vec![], vec![])),
        ("a link from the node itself", group(2, vec![node(small, "a", vec![(Position(0), NodeSocketRef::new("a", Position(0)))])], vec![], vec![], vec![])),
        ("a link into no socket", group(2, vec![node(small, "a", vec![]), node(small, "b", vec![(Position(5), NodeSocketRef::new("a", Position(0)))])], vec![], vec![], vec![])),
        ("a link from no socket", group(2, vec![node(small, "a", vec![]), node(small, "b", vec![(Position(0), NodeSocketRef::new("a", Position(1)))])], vec![], vec![], vec![])),
        ("a value for no socket", group(2, vec![Node { kind: small, id: "a", properties: leak(vec![]), values: leak(vec![(Name("x"), Value::Bool(true))]), links: leak(vec![]) }], vec![], vec![], vec![])),
        ("a property that the kind has not", group(2, vec![Node { kind: small, id: "a", properties: leak(vec![("x", Value::Bool(true))]), values: leak(vec![]), links: leak(vec![]) }], vec![], vec![], vec![])),
        ("two properties with one name", group(2, vec![node(small, "a", vec![])], vec![("mode", Ref::new("a", "mode")), ("mode", Ref::new("a", "mode"))], vec![], vec![])),
        ("a property of no node", group(2, vec![node(small, "a", vec![])], vec![("mode", Ref::new("b", "mode"))], vec![], vec![])),
        ("a property that the node has not", group(2, vec![node(small, "a", vec![])], vec![("mode", Ref::new("a", "x"))], vec![], vec![])),
        ("an input of no node", group(2, vec![node(small, "a", vec![])], vec![], vec![("in", NodeSocketRef::new("b", Position(0)))], vec![])),
        ("an input into no socket", group(2, vec![node(small, "a", vec![])], vec![], vec![("in", NodeSocketRef::new("a", Position(2)))], vec![])),
        ("two outputs with one name", group(2, vec![node(small, "a", vec![])], vec![], vec![], vec![("out", NodeSocketRef::new("a", Position(0))), ("out", NodeSocketRef::new("a", Position(0)))])),
        ("an output of no node", group(2, vec![node(small, "a", vec![])], vec![], vec![], vec![("out", NodeSocketRef::new("b", Position(0)))])),
        ("an output from no socket", group(2, vec![node(small, "a", vec![])], vec![], vec![], vec![("out", NodeSocketRef::new("a", Position(1)))])),
    ];
    for (what, group) in variants {
        assert!(!group.check(), "{what} is accepted");
        assert_eq!(group.check_clear(), None, "{what} is laid out");
    }
    assert_eq!(sound.check_clear(), Some(true));
    // two inputs of one name are no fault
    assert!(group(2, vec![node(small, "a", vec![])], vec![], vec![("in", NodeSocketRef::new("a", Position(0))), ("in", NodeSocketRef::new("a", Position(1)))], vec![]).check());
    assert!(!kind([1, 1], vec![Position(0), Position(0)], vec![]).check());
    assert!(!kind([1, 1], vec![], vec![Name("a"), Name("a")]).check());
    assert!(!Box::leak(Box::new(NodeType { blender_id: "", size: [0, 0], input_sockets: &[], output_sockets: &[], properties: &["a", "a"] })).check());
}

#[test]
fn finished_nodes_hand_out_what_they_hold_once() {
    let mut builder = MaterialBuilder::new(shader());
    builder.property("blend_method", Value::Enum("CLIP")).socket_value("A", Value::Float(1));
    builder.texture_color_space("a.vtf".to_string(), ColorSpace::NonColor);
    builder.texture_color_space("a.vtf".to_string(), ColorSpace::Srgb);
    let mut data = builder.build().unwrap();
    assert_eq!(data.properties().len(), 1);
    assert!(data.properties().is_empty());
    assert_eq!(data.texture_color_spaces(), vec![("a.vtf".to_string(), ColorSpace::Srgb)]);
    assert!(data.texture_color_spaces().is_empty());
    let mut nodes = data.nodes();
    assert!(data.nodes().is_empty());
    assert_eq!(nodes.len(), 1);
    assert_eq!(nodes[0].socket_values().len(), 1);
    assert!(nodes[0].socket_values().is_empty());
    assert!(nodes[0].socket_links().is_empty());
    assert!(nodes[0].properties().is_empty());
    nodes[0].offset_x(-30);
    nodes[0].invert_y();
    assert_eq!(nodes[0].position(), [-30, 0]);
    assert_eq!(nodes[0].x_bounds(), [-30, 170]);
    assert_eq!(nodes[0].next_column(), 170 + NODE_MARGIN);
    assert_eq!(nodes[0].next_row(), 300 + NODE_MARGIN);
    assert_eq!(nodes[0].checked_next_column(), Some(220));
    assert_eq!(nodes[0].checked_next_row(), Some(350));
}

#[test]
fn a_group_can_lay_its_own_nodes_on_top_of_each_other() {
    // a node makes way for the node placed just before it only: `d` reads from
    // `c`, stands right of it in the row of the base, and so comes to lie on
    // `b`, which is wide and was placed two nodes before
    let a = kind([100, 100], vec![], vec![Position(0)]);
    let b = kind([400, 100], vec![], vec![Position(0)]);
    let c = kind([100, 100], vec![Position(0)], vec![Position(0)]);
    let d = kind([100, 200], vec![Position(0)], vec![Position(0)]);
    let crowded = group(
        1,
        vec![
            node(a, "a", vec![]),
            node(b, "b", vec![]),
            node(c, "c", vec![(Position(0), NodeSocketRef::new("a", Position(0)))]),
            node(d, "d", vec![(Position(0), NodeSocketRef::new("c", Position(0)))]),
        ],
        vec![],
        vec![],
        vec![("out", NodeSocketRef::new("d", Position(0)))],
    );
    assert!(crowded.check());
    assert_eq!(crowded.check_clear(), Some(false));
    assert_eq!(single(2).check_clear(), Some(true));
    let mut nodes = Vec::new();
    let mut outputs = Vec::new();
    let corner = crowded.build(&mut nodes, &mut outputs, &Vec::new(), &Vec::new(), [0, 0]);
    let positions: Vec<[i64; 2]> = nodes.iter().map(BuiltNode::position).collect();
    assert_eq!(positions, vec![[0, 0], [0, 150], [150, 300], [300, 0]]);
    assert_eq!(corner, [400, 400]);
    // `b` reaches from 0 to 400 and from 150 to 250, `d` from 300 to 400 and
    // from 0 to 200
    let (b, d) = (&nodes[1], &nodes[3]);
    assert!(d.position()[0] < b.position()[0] + 400 && b.position()[0] < d.position()[0] + 100);
    assert!(d.position()[1] < b.position()[1] + 100 && b.position()[1] < d.position()[1] + 200);
}
