use plumber::builder::{BuiltMaterialData, MaterialBuilder};
use plumber::declare::InputLink;
use plumber::nodes::{
    BuiltNode, Node, NodeGroup, NodeSocketId, NodeSocketRef, NodeType, Ref,
};
use plumber::value::Value;

use NodeSocketId::{Name, Position};

fn leak<T>(items: Vec<T>) -> &'static [T] {
    Vec::leak(items)
}

fn kind(
    blender_id: &'static str,
    size: [u32; 2],
    input_sockets: Vec<NodeSocketId>,
    output_sockets: Vec<NodeSocketId>,
    properties: Vec<&'static str>,
) -> &'static NodeType {
    Box::leak(Box::new(NodeType {
        blender_id,
        size,
        input_sockets: leak(input_sockets),
        output_sockets: leak(output_sockets),
        properties: leak(properties),
    }))
}

fn shader() -> &'static NodeType {
    kind(
        "ShaderNodeBsdfPrincipled",
        [240, 658],
        vec![Name("Base Color"), Name("Specular"), Name("Normal")],
        vec![Position(0)],
        vec![],
    )
}

fn tex_image() -> &'static NodeType {
    kind(
        "ShaderNodeTexImage",
        [240, 252],
        vec![Name("Vector")],
        vec![Name("Color"), Name("Alpha")],
        vec!["image", "interpolation"],
    )
}

fn math() -> &'static NodeType {
    kind(
        "ShaderNodeMath",
        [140, 174],
        vec![Position(0), Position(1), Position(2)],
        vec![Position(0)],
        vec!["operation", "use_clamp"],
    )
}

fn normal_map() -> &'static NodeType {
    kind(
        "ShaderNodeNormalMap",
        [150, 152],
        vec![Name("Color"), Name("Strength")],
        vec![Name("Normal")],
        vec![],
    )
}

fn vertex_color() -> &'static NodeType {
    kind(
        "ShaderNodeVertexColor",
        [140, 102],
        vec![],
        vec![Name("Color"), Name("Alpha")],
        vec!["layer_name"],
    )
}

fn group(
    id: u32,
    nodes: Vec<Node>,
    properties: Vec<(&'static str, Ref)>,
    inputs: Vec<(&'static str, NodeSocketRef)>,
    outputs: Vec<(&'static str, NodeSocketRef)>,
) -> &'static NodeGroup {
    Box::leak(Box::new(NodeGroup {
        id,
        nodes: leak(nodes),
        properties: leak(properties),
        inputs: leak(inputs),
        outputs: leak(outputs),
    }))
}

fn plain(kind: &'static NodeType, id: &'static str) -> Node {
    Node { kind, id, properties: leak(vec![]), values: leak(vec![]), links: leak(vec![]) }
}

/// One texture node with the properties `image` and `interpolation`.
fn texture_group() -> &'static NodeGroup {
    group(
        1,
        vec![plain(tex_image(), "texture")],
        vec![
            ("image", Ref::new("texture", "image")),
            ("interpolation", Ref::new("texture", "interpolation")),
        ],
        vec![],
        vec![
            ("color", NodeSocketRef::new("texture", Name("Color"))),
            ("alpha", NodeSocketRef::new("texture", Name("Alpha"))),
        ],
    )
}

/// One vertex colour node.
fn vertex_color_group() -> &'static NodeGroup {
    group(
        2,
        vec![Node {
            kind: vertex_color(),
            id: "color",
            properties: leak(vec![("layer_name", Value::Enum("Col"))]),
            values: leak(vec![]),
            links: leak(vec![]),
        }],
        vec![],
        vec![],
        vec![
            ("color", NodeSocketRef::new("color", Name("Color"))),
            ("alpha", NodeSocketRef::new("color", Name("Alpha"))),
        ],
    )
}

/// One multiplication with the inputs `value` and `fac`.
fn multiply_group() -> &'static NodeGroup {
    group(
        3,
        vec![Node {
            kind: math(),
            id: "mul",
            properties: leak(vec![("operation", Value::Enum("MULTIPLY"))]),
            values: leak(vec![]),
            links: leak(vec![]),
        }],
        vec![],
        vec![
            ("value", NodeSocketRef::new("mul", Position(0))),
            ("fac", NodeSocketRef::new("mul", Position(1))),
        ],
        vec![("value", NodeSocketRef::new("mul", Position(0)))],
    )
}

/// A normal map node with the inputs `image` and `strength`.
fn normal_map_group() -> &'static NodeGroup {
    group(
        4,
        vec![plain(normal_map(), "normal_map")],
        vec![],
        vec![
            ("image", NodeSocketRef::new("normal_map", Name("Color"))),
            ("strength", NodeSocketRef::new("normal_map", Name("Strength"))),
        ],
        vec![("normal", NodeSocketRef::new("normal_map", Name("Normal")))],
    )
}

/// Three nodes: `a`; `b`, which reads nothing and so goes below `a`; and `c`,
/// which reads from `a`.
fn waterfall_group() -> &'static NodeGroup {
    group(
        5,
        vec![
            plain(math(), "a"),
            Node {
                kind: math(),
                id: "b",
                properties: leak(vec![]),
                values: leak(vec![(Position(0), Value::Float(1.0f32.to_bits()))]),
                links: leak(vec![]),
            },
            Node {
                kind: math(),
                id: "c",
                properties: leak(vec![]),
                values: leak(vec![]),
                links: leak(vec![
                    (Position(0), NodeSocketRef::new("a", Position(0))),
                    (Position(1), NodeSocketRef::new("b", Position(0))),
                ]),
            },
        ],
        vec![],
        vec![("value", NodeSocketRef::new("a", Position(0)))],
        vec![("value", NodeSocketRef::new("c", Position(0)))],
    )
}

fn texture(path: &str) -> Value {
    Value::Texture(path.to_string())
}

fn positions(data: &BuiltMaterialData) -> Vec<[i64; 2]> {
    data.nodes.iter().map(BuiltNode::position).collect()
}

fn kinds(data: &BuiltMaterialData) -> Vec<&'static str> {
    data.nodes.iter().map(BuiltNode::blender_id).collect()
}

fn socket_link(node: &BuiltNode, socket: &str) -> Option<usize> {
    node.socket_links.iter().find_map(|(id, source)| match id {
        Name(name) if *name == socket => Some(source.node_index),
        _ => None,
    })
}

fn extents(node: &BuiltNode) -> ([i64; 2], [i64; 2]) {
    let [x, y] = node.position();
    let [w, h] = node.kind.size;
    ([x, x + w as i64], [y - h as i64, y])
}

fn overlap(a: &BuiltNode, b: &BuiltNode) -> bool {
    let (ax, ay) = extents(a);
    let (bx, by) = extents(b);
    ax[0] < bx[1] && bx[0] < ax[1] && ay[0] < by[1] && by[0] < ay[1]
}

fn assert_no_overlap(data: &BuiltMaterialData) {
    for (i, a) in data.nodes.iter().enumerate() {
        for b in &data.nodes[i + 1..] {
            assert!(!overlap(a, b), "{a:?} overlaps {b:?}");
        }
    }
}

#[test]
fn minimal_graph_is_the_shader_in_the_origin() {
    let builder = MaterialBuilder::new(shader());

    let data = builder.build().unwrap();

    assert_eq!(kinds(&data), vec!["ShaderNodeBsdfPrincipled"]);
    assert_eq!(positions(&data), vec![[0, 0]]);
    assert!(data.properties.is_empty());
    assert!(data.nodes[0].socket_links.is_empty());
    assert!(data.nodes[0].socket_values.is_empty());
}

#[test]
fn material_properties_and_shader_values_are_handed_on() {
    let mut builder = MaterialBuilder::new(shader());
    builder
        .property("blend_method", Value::Enum("CLIP"))
        .property("shadow_method", Value::Enum("CLIP"))
        .property("blend_method", Value::Enum("HASHED"))
        .socket_value("Specular", Value::Float(0.5f32.to_bits()));
    builder.texture_color_space("materials/wall.vtf".to_string(), plumber::value::ColorSpace::Srgb);

    let data = builder.build().unwrap();

    assert_eq!(data.properties.len(), 2);
    assert_eq!(data.properties[0].0, "blend_method");
    assert!(matches!(data.properties[0].1, Value::Enum("HASHED")));
    assert_eq!(data.properties[1].0, "shadow_method");
    assert_eq!(data.nodes[0].socket_values.len(), 1);
    assert!(matches!(data.nodes[0].socket_values[0], (Name("Specular"), Value::Float(0x3f00_0000))));
    assert_eq!(data.texture_color_spaces.len(), 1);
    assert_eq!(data.texture_color_spaces[0].0, "materials/wall.vtf");
}

#[test]
fn single_pipeline_is_left_of_the_shader() {
    let texture_group = texture_group();
    let mut builder = MaterialBuilder::new(shader());
    builder
        .input("$basetexture")
        .pipeline(vec![texture_group])
        .property(texture_group, "image", texture("materials/wall.vtf"))
        .property(texture_group, "interpolation", Value::Enum("Linear"));
    builder.output("Base Color", "$basetexture", "color");

    let data = builder.build().unwrap();

    assert_eq!(kinds(&data), vec!["ShaderNodeTexImage", "ShaderNodeBsdfPrincipled"]);
    // the texture is placed at (0, 0) and is 240 wide; the output places no node,
    // so the shader stands one margin after the texture, at 290
    assert_eq!(positions(&data), vec![[-290, 0], [0, 0]]);
    assert!(data.nodes[0].position()[0] + 240 < data.nodes[1].position()[0]);
    assert_eq!(socket_link(&data.nodes[1], "Base Color"), Some(0));
    assert_eq!(data.nodes[0].properties.len(), 2);
    assert!(matches!(&data.nodes[0].properties[0], ("image", Value::Texture(path)) if path == "materials/wall.vtf"));
    assert!(matches!(data.nodes[0].properties[1], ("interpolation", Value::Enum("Linear"))));
}

#[test]
fn unreferenced_input_is_pruned() {
    let texture_group = texture_group();
    let vertex_color_group = vertex_color_group();
    let mut builder = MaterialBuilder::new(shader());
    builder
        .input("a")
        .pipeline(vec![texture_group])
        .property(texture_group, "image", texture("a.vtf"))
        .property(texture_group, "interpolation", Value::Enum("Linear"));
    builder.input("b").pipeline(vec![vertex_color_group]);
    builder.output("Base Color", "a", "color");

    let data = builder.build().unwrap();

    assert_eq!(kinds(&data), vec!["ShaderNodeTexImage", "ShaderNodeBsdfPrincipled"]);
}

#[test]
fn unreferenced_input_may_name_what_is_not_declared() {
    let vertex_color_group = vertex_color_group();
    let multiply_group = multiply_group();
    let mut builder = MaterialBuilder::new(shader());
    builder.input("a").pipeline(vec![vertex_color_group]);
    builder
        .input("b")
        .pipeline(vec![multiply_group])
        .link(multiply_group, "value", Ref::new("nowhere", "color"))
        .link(multiply_group, "fac", Value::Float(0));
    builder.output("Base Color", "a", "color");

    let data = builder.build().unwrap();

    assert_eq!(kinds(&data), vec!["ShaderNodeVertexColor", "ShaderNodeBsdfPrincipled"]);
}

#[test]
fn cycle_is_reported_with_the_inputs_on_it() {
    let multiply_group = multiply_group();
    let mut builder = MaterialBuilder::new(shader());
    for (name, reads) in [("x", "y"), ("y", "z"), ("z", "x")] {
        builder
            .input(name)
            .pipeline(vec![multiply_group])
            .link(multiply_group, "value", Ref::new(reads, "value"))
            .link(multiply_group, "fac", Value::Float(0));
    }
    builder.input("free").pipeline(vec![vertex_color_group()]);
    builder.output("Base Color", "x", "value");

    let error = builder.build().unwrap_err();

    assert_eq!(error.inputs, vec!["x", "y", "z"]);
}

#[test]
fn cycle_is_reported_though_no_output_reads_it() {
    let multiply_group = multiply_group();
    let mut builder = MaterialBuilder::new(shader());
    for (name, reads) in [("x", "y"), ("y", "x")] {
        builder
            .input(name)
            .pipeline(vec![multiply_group])
            .link(multiply_group, "value", Ref::new(reads, "value"))
            .link(multiply_group, "fac", Value::Float(0));
    }

    assert!(builder.build().is_err());
}

fn chained() -> MaterialBuilder {
    let texture_group = texture_group();
    let multiply_group = multiply_group();
    let normal_map_group = normal_map_group();
    let mut builder = MaterialBuilder::new(shader());
    // declared before what it reads from
    builder
        .input("masked")
        .pipeline(vec![multiply_group])
        .link(multiply_group, "value", Ref::new("$basetexture", "alpha"))
        .link(multiply_group, "fac", Ref::new("vertex_color", "alpha"));
    builder
        .input("$basetexture")
        .pipeline(vec![texture_group])
        .property(texture_group, "image", texture("base.vtf"))
        .property(texture_group, "interpolation", Value::Enum("Linear"));
    builder.input("vertex_color").pipeline(vec![vertex_color_group()]);
    builder
        .input("$bumpmap")
        .pipeline(vec![texture_group])
        .property(texture_group, "image", texture("bump.vtf"))
        .property(texture_group, "interpolation", Value::Enum("Closest"));
    builder.input("unused").pipeline(vec![vertex_color_group()]);
    // declared in another order than the shader's sockets
    builder
        .output("Normal", "$bumpmap", "color")
        .push(normal_map_group)
        .link_input(normal_map_group, "image")
        .link(normal_map_group, "strength", Value::Float(1.0f32.to_bits()));
    builder.output("Specular", "masked", "value");
    builder.output("Base Color", "$basetexture", "color");
    builder
}

#[test]
fn dependencies_are_built_before_their_dependents() {
    let data = chained().build().unwrap();

    let names = kinds(&data);
    let multiply = names.iter().position(|&k| k == "ShaderNodeMath").unwrap();
    let shader = names.len() - 1;
    let value = data.nodes[multiply]
        .socket_links
        .iter()
        .find(|(socket, _)| matches!(socket, Position(0)))
        .unwrap()
        .1
        .node_index;
    let fac = data.nodes[multiply]
        .socket_links
        .iter()
        .find(|(socket, _)| matches!(socket, Position(1)))
        .unwrap()
        .1
        .node_index;
    assert!(value < multiply);
    assert!(fac < multiply);
    assert_eq!(names[value], "ShaderNodeTexImage");
    assert_eq!(names[fac], "ShaderNodeVertexColor");
    // a node stands right of what it reads from
    assert!(data.nodes[value].position()[0] + 240 < data.nodes[multiply].position()[0]);
    assert!(data.nodes[fac].position()[0] + 140 < data.nodes[multiply].position()[0]);
    assert_eq!(names[shader], "ShaderNodeBsdfPrincipled");
}

#[test]
fn only_what_outputs_read_is_built_and_each_input_once() {
    let data = chained().build().unwrap();

    let mut names = kinds(&data);
    names.sort();
    assert_eq!(
        names,
        vec![
            "ShaderNodeBsdfPrincipled",
            "ShaderNodeMath",
            "ShaderNodeNormalMap",
            "ShaderNodeTexImage",
            "ShaderNodeTexImage",
            "ShaderNodeVertexColor",
        ]
    );
}

#[test]
fn shader_sockets_are_linked_in_the_order_of_the_shader() {
    let data = chained().build().unwrap();

    let shader = data.nodes.last().unwrap();
    let sockets: Vec<&str> = shader
        .socket_links
        .iter()
        .map(|(socket, _)| match socket {
            Name(name) => *name,
            Position(_) => "",
        })
        .collect();
    assert_eq!(sockets, vec!["Base Color", "Specular", "Normal"]);
    let normal = socket_link(shader, "Normal").unwrap();
    assert_eq!(data.nodes[normal].blender_id(), "ShaderNodeNormalMap");
    let base = socket_link(shader, "Base Color").unwrap();
    assert_eq!(data.nodes[base].blender_id(), "ShaderNodeTexImage");
}

#[test]
fn layout_of_a_chained_material() {
    let data = chained().build().unwrap();

    assert_eq!(
        kinds(&data),
        vec![
            "ShaderNodeTexImage",
            "ShaderNodeVertexColor",
            "ShaderNodeMath",
            "ShaderNodeTexImage",
            "ShaderNodeNormalMap",
            "ShaderNodeBsdfPrincipled",
        ]
    );
    // top down, before the nodes are moved: the base texture at (0, 0); the
    // vertex colour below it at (0, 302); the multiplication right of both, at
    // (290, 0); the bump map in the first column below the vertex colour, at
    // (0, 454); the outputs begin at 480, where the two that place no node take
    // one margin each, so the normal map stands at (480, 100); the shader
    // stands at 480 + 150 + 50 = 680
    assert_eq!(
        positions(&data),
        vec![[-680, 0], [-680, -302], [-390, 0], [-680, -454], [-200, -100], [0, 0]]
    );
    assert_no_overlap(&data);
}

#[test]
fn building_twice_gives_the_same_material() {
    let first = chained().build().unwrap();
    let second = chained().build().unwrap();

    assert_eq!(format!("{first:?}"), format!("{second:?}"));
}

#[test]
fn first_output_bound_to_a_socket_wins() {
    let mut builder = MaterialBuilder::new(shader());
    builder.input("a").pipeline(vec![vertex_color_group()]);
    builder.input("b").pipeline(vec![vertex_color_group()]);
    builder.output("Base Color", "a", "color");
    builder.output("Base Color", "b", "alpha");
    builder.output("Emission", "b", "color");

    let data = builder.build().unwrap();

    assert_eq!(kinds(&data), vec!["ShaderNodeVertexColor", "ShaderNodeBsdfPrincipled"]);
    assert_eq!(data.nodes[1].socket_links.len(), 1);
    assert!(matches!(data.nodes[1].socket_links[0].1.socket, Name("Color")));
}

#[test]
fn nodes_of_a_group_fall_like_water() {
    let waterfall = waterfall_group();
    let mut builder = MaterialBuilder::new(shader());
    builder
        .input("in")
        .pipeline(vec![waterfall])
        .link(waterfall, "value", Value::Float(2.0f32.to_bits()));
    builder.output("Specular", "in", "value");

    let data = builder.build().unwrap();

    // `a` at (0, 0); `b` shares its column and goes below, at (0, 224); `c`
    // reads from both and goes to the column after them, at (190, 0); the
    // shader stands at 190 + 140 + 50 = 380
    assert_eq!(positions(&data), vec![[-380, 0], [-380, -224], [-190, 0], [0, 0]]);
    assert_no_overlap(&data);
    let a = &data.nodes[0];
    assert!(matches!(a.socket_values[..], [(Position(0), Value::Float(0x4000_0000))]));
    let c = &data.nodes[2];
    assert_eq!(c.socket_links.len(), 2);
    assert_eq!(c.socket_links[0].1.node_index, 0);
    assert_eq!(c.socket_links[1].1.node_index, 1);
}

#[test]
fn outside_values_override_those_of_the_group() {
    let overridden = group(
        6,
        vec![Node {
            kind: math(),
            id: "mul",
            properties: leak(vec![("operation", Value::Enum("MULTIPLY"))]),
            values: leak(vec![
                (Position(0), Value::Float(1.0f32.to_bits())),
                (Position(1), Value::Float(1.0f32.to_bits())),
            ]),
            links: leak(vec![]),
        }],
        vec![("operation", Ref::new("mul", "operation"))],
        vec![("fac", NodeSocketRef::new("mul", Position(1)))],
        vec![("value", NodeSocketRef::new("mul", Position(0)))],
    );
    let mut builder = MaterialBuilder::new(shader());
    builder
        .input("in")
        .pipeline(vec![overridden])
        .property(overridden, "operation", Value::Enum("ADD"))
        .link(overridden, "fac", InputLink::Value(Value::Float(3.0f32.to_bits())));
    builder.output("Specular", "in", "value");

    let data = builder.build().unwrap();

    let node = &data.nodes[0];
    assert!(matches!(node.properties[..], [("operation", Value::Enum("ADD"))]));
    assert!(matches!(
        node.socket_values[..],
        [(Position(0), Value::Float(0x3f80_0000)), (Position(1), Value::Float(0x4040_0000))]
    ));
}

#[test]
fn groups_of_a_pipeline_read_from_the_group_before() {
    let texture_group = texture_group();
    let multiply_group = multiply_group();
    let mut builder = MaterialBuilder::new(shader());
    builder
        .input("$basetexture")
        .pipeline(vec![texture_group])
        .property(texture_group, "image", texture("base.vtf"))
        .property(texture_group, "interpolation", Value::Enum("Linear"));
    builder
        .output("Specular", "$basetexture", "alpha")
        .push(multiply_group)
        .link_input(multiply_group, "value")
        .link(multiply_group, "fac", Value::Float(0.5f32.to_bits()))
        .push(multiply_group);

    let data = builder.build().unwrap();

    assert_eq!(
        kinds(&data),
        vec!["ShaderNodeTexImage", "ShaderNodeMath", "ShaderNodeMath", "ShaderNodeBsdfPrincipled"]
    );
    // texture at 0, first multiplication at 290, second at 290 + 140 + 50 = 480,
    // shader at 480 + 140 + 50 = 670
    assert_eq!(positions(&data), vec![[-670, 0], [-380, 0], [-190, 0], [0, 0]]);
    // both multiplications are given the links addressed to their group
    assert_eq!(data.nodes[1].socket_links[0].1.node_index, 0);
    assert_eq!(data.nodes[2].socket_links[0].1.node_index, 0);
    assert_eq!(socket_link(data.nodes.last().unwrap(), "Specular"), Some(2));
    assert_no_overlap(&data);
}

#[test]
fn input_is_declared_once() {
    let mut builder = MaterialBuilder::new(shader());
    assert!(!builder.has_input("a"));

    builder.input("a").push(vertex_color_group());
    builder.input("b");
    builder.input("a").push(vertex_color_group());

    assert!(builder.has_input("a"));
    assert!(builder.has_input("b"));
    assert!(!builder.has_input("c"));
    assert_eq!(builder.inputs.len(), 2);
    assert_eq!(builder.inputs[0].pipeline.len(), 2);
}

#[test]
fn outputs_are_stacked_one_below_the_other() {
    let normal_map_group = normal_map_group();
    let multiply_group = multiply_group();
    let mut builder = MaterialBuilder::new(shader());
    builder.input("color").pipeline(vec![vertex_color_group()]);
    builder
        .output("Specular", "color", "alpha")
        .push(multiply_group)
        .link_input(multiply_group, "value")
        .link(multiply_group, "fac", Value::Float(0));
    builder
        .output("Normal", "color", "color")
        .push(normal_map_group)
        .link_input(normal_map_group, "image")
        .link(normal_map_group, "strength", Value::Float(0));
    builder.output("Base Color", "color", "color");

    let data = builder.build().unwrap();

    // the vertex colour at (0, 0), 140 wide; outputs begin at 190; the output
    // for `Base Color` has no nodes and takes one margin; the multiplication
    // follows at y = 50 and is 174 high; the normal map follows at
    // 50 + 174 + 50 = 274; the shader stands at 190 + 150 + 50 = 390
    assert_eq!(positions(&data), vec![[-390, 0], [-200, -50], [-200, -274], [0, 0]]);
    assert_no_overlap(&data);
}
