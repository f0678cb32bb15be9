use plumber::builder::{BuiltMaterialData, MaterialBuilder};
use plumber::nodes::{
    BuiltNode, BuiltNodeSocketLink, Node, NodeGroup,
    NodeSocketId::{self, Name, Position},
    NodeSocketRef, NodeType, Ref,
};
use plumber::value::{ColorSpace, Value};

const fn bits(value: f32) -> u32 {
    value.to_bits()
}

const fn color(value: [f32; 4]) -> [u32; 4] {
    [bits(value[0]), bits(value[1]), bits(value[2]), bits(value[3])]
}

const fn vector(value: [f32; 3]) -> [u32; 3] {
    [bits(value[0]), bits(value[1]), bits(value[2])]
}

static SHADER_PRINCIPLED: NodeType = NodeType {
    blender_id: "ShaderNodeBsdfPrincipled",
    size: [240, 658],
    input_sockets: &[
        Name("Base Color"),
        Name("Metallic"),
        Name("Specular"),
        Name("Specular Tint"),
        Name("Roughness"),
        Name("Emission"),
        Name("Alpha"),
        Name("Normal"),
    ],
    output_sockets: &[Position(0)],
    properties: &[],
};

static SHADER_TRANSPARENT: NodeType = NodeType {
    blender_id: "ShaderNodeBsdfTransparent",
    size: [140, 75],
    output_sockets: &[Position(0)],
    input_sockets: &[],
    properties: &[],
};

static SHADER_GLASS: NodeType = NodeType {
    blender_id: "ShaderNodeBsdfGlass",
    size: [150, 171],
    input_sockets: &[
        Name("Color"),
        Name("Roughness"),
        Name("IOR"),
        Name("Normal"),
    ],
    output_sockets: &[Position(0)],
    properties: &[],
};

static KIND_TEX_IMAGE: NodeType = NodeType {
    blender_id: "ShaderNodeTexImage",
    size: [240, 252],
    input_sockets: &[Name("Vector")],
    output_sockets: &[Name("Color"), Name("Alpha")],
    properties: &["image", "interpolation"],
};

static KIND_TEX_COORD: NodeType = NodeType {
    blender_id: "ShaderNodeTexCoord",
    size: [140, 237],
    output_sockets: &[Name("UV")],
    input_sockets: &[],
    properties: &[],
};

static KIND_MAPPING: NodeType = NodeType {
    blender_id: "ShaderNodeMapping",
    size: [140, 411],
    input_sockets: &[
        Name("Vector"),
        Name("Scale"),
        Name("Rotation"),
        Name("Location"),
    ],
    output_sockets: &[Name("Vector")],
    properties: &[],
};

static KIND_NORMAL_MAP: NodeType = NodeType {
    blender_id: "ShaderNodeNormalMap",
    size: [150, 152],
    input_sockets: &[Name("Color"), Name("Strength")],
    output_sockets: &[Name("Normal")],
    properties: &[],
};

static KIND_SEPARATE_RGB: NodeType = NodeType {
    blender_id: "ShaderNodeSeparateRGB",
    size: [140, 119],
    input_sockets: &[Name("Image")],
    output_sockets: &[Name("R"), Name("G"), Name("B")],
    properties: &[],
};

static KIND_COMBINE_RGB: NodeType = NodeType {
    blender_id: "ShaderNodeCombineRGB",
    size: [140, 119],
    input_sockets: &[Name("R"), Name("G"), Name("B")],
    output_sockets: &[Name("Image")],
    properties: &[],
};

static KIND_MATH: NodeType = NodeType {
    blender_id: "ShaderNodeMath",
    size: [140, 174],
    input_sockets: &[Position(0), Position(1), Position(2)],
    output_sockets: &[Position(0)],
    properties: &["operation", "use_clamp"],
};

static KIND_MIX_RGB: NodeType = NodeType {
    blender_id: "ShaderNodeMixRGB",
    size: [140, 171],
    input_sockets: &[Name("Fac"), Name("Color1"), Name("Color2")],
    output_sockets: &[Name("Color")],
    properties: &["blend_type"],
};

static KIND_VERTEX_COLOR: NodeType = NodeType {
    blender_id: "ShaderNodeVertexColor",
    size: [140, 102],
    output_sockets: &[Name("Color"), Name("Alpha")],
    properties: &["layer_name"],
    input_sockets: &[],
};

static KIND_OBJECT_INFO: NodeType = NodeType {
    blender_id: "ShaderNodeObjectInfo",
    size: [140, 138],
    output_sockets: &[Name("Color")],
    input_sockets: &[],
    properties: &[],
};

static KIND_MAP_RANGE: NodeType = NodeType {
    blender_id: "ShaderNodeMapRange",
    size: [140, 247],
    input_sockets: &[
        Name("Value"),
        Name("From Min"),
        Name("From Max"),
        Name("To Min"),
        Name("To Max"),
    ],
    output_sockets: &[Position(0)],
    properties: &["interpolation_type", "clamp"],
};

static KIND_VECTOR_MATH: NodeType = NodeType {
    blender_id: "ShaderNodeVectorMath",
    size: [140, 191],
    input_sockets: &[Position(0), Position(1), Position(2)],
    output_sockets: &[Position(0)],
    properties: &["operation"],
};

static KIND_SEPARATE_XYZ: NodeType = NodeType {
    blender_id: "ShaderNodeSeparateXYZ",
    size: [140, 179],
    input_sockets: &[Name("Vector")],
    output_sockets: &[Name("X"), Name("Y"), Name("Z")],
    properties: &[],
};

static GROUP_TEXTURE: NodeGroup = NodeGroup {
    id: 1,
    nodes: &[Node {
        kind: &KIND_TEX_IMAGE,
        id: "texture",
        properties: &[],
        values: &[],
        links: &[],
    }],
    properties: &[
        ("image", Ref { target: "texture", name: "image" }),
        ("interpolation", Ref { target: "texture", name: "interpolation" }),
    ],
    outputs: &[
        ("color", NodeSocketRef { target: "texture", socket: Name("Color") }),
        ("alpha", NodeSocketRef { target: "texture", socket: Name("Alpha") }),
    ],
    inputs: &[],
};

static GROUP_TRANSFORMED_TEXTURE: NodeGroup = NodeGroup {
    id: 2,
    nodes: &[
        Node {
            kind: &KIND_TEX_COORD,
            id: "coord",
            properties: &[],
            values: &[],
            links: &[],
        },
        Node {
            kind: &KIND_MAPPING,
            id: "mapping",
            links: &[(Name("Vector"), NodeSocketRef { target: "coord", socket: Name("UV") })],
            properties: &[],
            values: &[],
        },
        Node {
            kind: &KIND_TEX_IMAGE,
            id: "texture",
            links: &[(
                Name("Vector"),
                NodeSocketRef { target: "mapping", socket: Name("Vector") },
            )],
            properties: &[],
            values: &[],
        },
    ],
    properties: &[
        ("image", Ref { target: "texture", name: "image" }),
        ("interpolation", Ref { target: "texture", name: "interpolation" }),
    ],
    inputs: &[
        ("scale", NodeSocketRef { target: "mapping", socket: Name("Scale") }),
        ("rotation", NodeSocketRef { target: "mapping", socket: Name("Rotation") }),
        ("location", NodeSocketRef { target: "mapping", socket: Name("Location") }),
    ],
    outputs: &[
        ("color", NodeSocketRef { target: "texture", socket: Name("Color") }),
        ("alpha", NodeSocketRef { target: "texture", socket: Name("Alpha") }),
    ],
};

static GROUP_SPLIT_TEXTURE: NodeGroup = NodeGroup {
    id: 3,
    nodes: &[
        Node {
            kind: &KIND_TEX_IMAGE,
            id: "texture",
            properties: &[],
            values: &[],
            links: &[],
        },
        Node {
            kind: &KIND_SEPARATE_RGB,
            id: "separate",
            links: &[(Name("Image"), NodeSocketRef { target: "texture", socket: Name("Color") })],
            properties: &[],
            values: &[],
        },
    ],
    properties: &[
        ("image", Ref { target: "texture", name: "image" }),
        ("interpolation", Ref { target: "texture", name: "interpolation" }),
    ],
    outputs: &[
        ("r", NodeSocketRef { target: "separate", socket: Name("R") }),
        ("g", NodeSocketRef { target: "separate", socket: Name("G") }),
        ("b", NodeSocketRef { target: "separate", socket: Name("B") }),
        ("alpha", NodeSocketRef { target: "texture", socket: Name("Alpha") }),
    ],
    inputs: &[],
};

static GROUP_DX_NORMAL_MAP_CONVERTER: NodeGroup = NodeGroup {
    id: 4,
    nodes: &[
        Node {
            kind: &KIND_SEPARATE_RGB,
            id: "separate",
            properties: &[],
            values: &[],
            links: &[],
        },
        Node {
            kind: &KIND_MATH,
            id: "invert",
            properties: &[("operation", Value::Enum("SUBTRACT"))],
            values: &[(Position(0), Value::Float(bits(1.0)))],
            links: &[(Position(1), NodeSocketRef { target: "separate", socket: Name("G") })],
        },
        Node {
            kind: &KIND_COMBINE_RGB,
            id: "combine",
            links: &[
                (Name("R"), NodeSocketRef { target: "separate", socket: Name("R") }),
                (Name("G"), NodeSocketRef { target: "invert", socket: Position(0) }),
                (Name("B"), NodeSocketRef { target: "separate", socket: Name("B") }),
            ],
            properties: &[],
            values: &[],
        },
    ],
    inputs: &[("image", NodeSocketRef { target: "separate", socket: Name("Image") })],
    outputs: &[("image", NodeSocketRef { target: "combine", socket: Name("Image") })],
    properties: &[],
};

static GROUP_SSBUMP_CONVERTER: NodeGroup = NodeGroup {
    id: 5,
    nodes: &[
        Node {
            kind: &KIND_SEPARATE_XYZ,
            id: "sep",
            properties: &[],
            values: &[],
            links: &[],
        },
        Node {
            kind: &KIND_VECTOR_MATH,
            id: "x_mul",
            properties: &[("operation", Value::Enum("MULTIPLY"))],
            values: &[(Position(1), Value::Vec(vector([0.816_496_6, 0.0, 0.577_350_26])))],
            links: &[(Position(0), NodeSocketRef { target: "sep", socket: Name("X") })],
        },
        Node {
            kind: &KIND_VECTOR_MATH,
            id: "y_mul",
            properties: &[("operation", Value::Enum("MULTIPLY"))],
            values: &[(
                Position(1),
                Value::Vec(vector([-0.408_248_34, 0.707_106_77, 0.577_350_26])),
            )],
            links: &[(Position(0), NodeSocketRef { target: "sep", socket: Name("Y") })],
        },
        Node {
            kind: &KIND_VECTOR_MATH,
            id: "z_mul",
            properties: &[("operation", Value::Enum("MULTIPLY"))],
            values: &[(
                Position(1),
                Value::Vec(vector([-0.408_248_22, -0.707_106_77, 0.577_350_26])),
            )],
            links: &[(Position(0), NodeSocketRef { target: "sep", socket: Name("Z") })],
        },
        Node {
            kind: &KIND_VECTOR_MATH,
            id: "add_1",
            properties: &[("operation", Value::Enum("ADD"))],
            links: &[
                (Position(0), NodeSocketRef { target: "x_mul", socket: Position(0) }),
                (Position(1), NodeSocketRef { target: "y_mul", socket: Position(0) }),
            ],
            values: &[],
        },
        Node {
            kind: &KIND_VECTOR_MATH,
            id: "add_2",
            properties: &[("operation", Value::Enum("ADD"))],
            links: &[
                (Position(0), NodeSocketRef { target: "add_1", socket: Position(0) }),
                (Position(1), NodeSocketRef { target: "z_mul", socket: Position(0) }),
            ],
            values: &[],
        },
        Node {
            kind: &KIND_VECTOR_MATH,
            id: "normalize",
            properties: &[("operation", Value::Enum("NORMALIZE"))],
            links: &[(Position(0), NodeSocketRef { target: "add_2", socket: Position(0) })],
            values: &[],
        },
        Node {
            kind: &KIND_VECTOR_MATH,
            id: "mul",
            properties: &[("operation", Value::Enum("MULTIPLY"))],
            values: &[(Position(1), Value::Vec(vector([0.5, 0.5, 0.5])))],
            links: &[(Position(0), NodeSocketRef { target: "normalize", socket: Position(0) })],
        },
        Node {
            kind: &KIND_VECTOR_MATH,
            id: "add",
            properties: &[("operation", Value::Enum("ADD"))],
            values: &[(Position(1), Value::Vec(vector([0.5, 0.5, 0.5])))],
            links: &[(Position(0), NodeSocketRef { target: "mul", socket: Position(0) })],
        },
    ],
    inputs: &[("image", NodeSocketRef { target: "sep", socket: Name("Vector") })],
    outputs: &[("image", NodeSocketRef { target: "add", socket: Position(0) })],
    properties: &[],
};

static GROUP_NORMAL_MAP: NodeGroup = NodeGroup {
    id: 6,
    nodes: &[Node {
        kind: &KIND_NORMAL_MAP,
        id: "normal_map",
        properties: &[],
        values: &[],
        links: &[],
    }],
    inputs: &[
        ("image", NodeSocketRef { target: "normal_map", socket: Name("Color") }),
        (
            "strength",
            NodeSocketRef { target: "normal_map", socket: Name("Strength") },
        ),
    ],
    outputs: &[("normal", NodeSocketRef { target: "normal_map", socket: Name("Normal") })],
    properties: &[],
};

static GROUP_DETAIL_TEXTURE: NodeGroup = NodeGroup {
    id: 7,
    nodes: &[
        Node {
            kind: &KIND_MIX_RGB,
            id: "mul",
            properties: &[("blend_type", Value::Enum("MULTIPLY"))],
            values: &[
                (Name("Color2"), Value::Color(color([2.0, 2.0, 2.0, 1.0]))),
                (Name("Fac"), Value::Float(bits(1.0))),
            ],
            links: &[],
        },
        Node {
            kind: &KIND_MIX_RGB,
            id: "mix",
            properties: &[("blend_type", Value::Enum("MULTIPLY"))],
            links: &[(Name("Color2"), NodeSocketRef { target: "mul", socket: Name("Color") })],
            values: &[],
        },
    ],
    inputs: &[
        ("color", NodeSocketRef { target: "mix", socket: Name("Color1") }),
        ("detail", NodeSocketRef { target: "mul", socket: Name("Color1") }),
        ("fac", NodeSocketRef { target: "mix", socket: Name("Fac") }),
    ],
    outputs: &[("color", NodeSocketRef { target: "mix", socket: Name("Color") })],
    properties: &[],
};

static GROUP_COLOR_TEXTURE: NodeGroup = NodeGroup {
    id: 8,
    nodes: &[Node {
        kind: &KIND_MIX_RGB,
        id: "mul",
        properties: &[("blend_type", Value::Enum("MULTIPLY"))],
        values: &[(Name("Fac"), Value::Float(bits(1.0)))],
        links: &[],
    }],
    inputs: &[
        ("color", NodeSocketRef { target: "mul", socket: Name("Color1") }),
        ("mixin", NodeSocketRef { target: "mul", socket: Name("Color2") }),
        ("fac", NodeSocketRef { target: "mul", socket: Name("Fac") }),
    ],
    outputs: &[("color", NodeSocketRef { target: "mul", socket: Name("Color") })],
    properties: &[],
};

static GROUP_BLEND_TEXTURE: NodeGroup = NodeGroup {
    id: 9,
    nodes: &[
        Node {
            kind: &KIND_MIX_RGB,
            id: "mix_color",
            properties: &[("blend_type", Value::Enum("MIX"))],
            values: &[],
            links: &[],
        },
        Node {
            kind: &KIND_MAP_RANGE,
            id: "mix_alpha",
            properties: &[("clamp", Value::Bool(false))],
            values: &[
                (Name("From Min"), Value::Float(bits(0.0))),
                (Name("From Max"), Value::Float(bits(1.0))),
            ],
            links: &[],
        },
    ],
    inputs: &[
        ("color", NodeSocketRef { target: "mix_color", socket: Name("Color1") }),
        ("color2", NodeSocketRef { target: "mix_color", socket: Name("Color2") }),
        ("alpha", NodeSocketRef { target: "mix_alpha", socket: Name("To Min") }),
        ("alpha2", NodeSocketRef { target: "mix_alpha", socket: Name("To Max") }),
        ("fac", NodeSocketRef { target: "mix_color", socket: Name("Fac") }),
        ("fac", NodeSocketRef { target: "mix_alpha", socket: Name("Value") }),
    ],
    outputs: &[
        ("color", NodeSocketRef { target: "mix_color", socket: Name("Color") }),
        ("alpha", NodeSocketRef { target: "mix_alpha", socket: Position(0) }),
    ],
    properties: &[],
};

static GROUP_VERTEX_COLOR: NodeGroup = NodeGroup {
    id: 10,
    nodes: &[Node {
        kind: &KIND_VERTEX_COLOR,
        id: "col",
        properties: &[("layer_name", Value::Enum("Col"))],
        values: &[],
        links: &[],
    }],
    outputs: &[
        ("color", NodeSocketRef { target: "col", socket: Name("Color") }),
        ("alpha", NodeSocketRef { target: "col", socket: Name("Alpha") }),
    ],
    properties: &[],
    inputs: &[],
};

static GROUP_SEPARATED_VERTEX_COLOR: NodeGroup = NodeGroup {
    id: 11,
    nodes: &[
        Node {
            kind: &KIND_VERTEX_COLOR,
            id: "col",
            properties: &[("layer_name", Value::Enum("Col"))],
            values: &[],
            links: &[],
        },
        Node {
            kind: &KIND_SEPARATE_RGB,
            id: "separate",
            links: &[(Name("Image"), NodeSocketRef { target: "col", socket: Name("Color") })],
            properties: &[],
            values: &[],
        },
    ],
    outputs: &[
        ("r", NodeSocketRef { target: "separate", socket: Name("R") }),
        ("g", NodeSocketRef { target: "separate", socket: Name("G") }),
        ("b", NodeSocketRef { target: "separate", socket: Name("B") }),
        ("alpha", NodeSocketRef { target: "col", socket: Name("Alpha") }),
    ],
    properties: &[],
    inputs: &[],
};

static GROUP_OBJECT_COLOR: NodeGroup = NodeGroup {
    id: 12,
    nodes: &[Node {
        kind: &KIND_OBJECT_INFO,
        id: "col",
        properties: &[],
        values: &[],
        links: &[],
    }],
    outputs: &[("color", NodeSocketRef { target: "col", socket: Name("Color") })],
    properties: &[],
    inputs: &[],
};

static GROUP_MODULATED_FACTOR: NodeGroup = NodeGroup {
    id: 13,
    nodes: &[
        Node {
            kind: &KIND_SEPARATE_RGB,
            id: "sep",
            properties: &[],
            values: &[],
            links: &[],
        },
        Node {
            kind: &KIND_MATH,
            id: "sub",
            properties: &[
                ("use_clamp", Value::Bool(true)),
                ("operation", Value::Enum("SUBTRACT")),
            ],
            links: &[
                (Position(0), NodeSocketRef { target: "sep", socket: Name("G") }),
                (Position(1), NodeSocketRef { target: "sep", socket: Name("R") }),
            ],
            values: &[],
        },
        Node {
            kind: &KIND_MATH,
            id: "add",
            properties: &[
                ("use_clamp", Value::Bool(true)),
                ("operation", Value::Enum("ADD")),
            ],
            links: &[
                (Position(0), NodeSocketRef { target: "sep", socket: Name("G") }),
                (Position(1), NodeSocketRef { target: "sep", socket: Name("R") }),
            ],
            values: &[],
        },
        Node {
            kind: &KIND_MAP_RANGE,
            id: "map",
            properties: &[
                ("interpolation_type", Value::Enum("SMOOTHSTEP")),
                ("clamp", Value::Bool(false)),
            ],
            values: &[
                (Name("To Min"), Value::Float(bits(0.0))),
                (Name("To Max"), Value::Float(bits(1.0))),
            ],
            links: &[
                (Name("From Min"), NodeSocketRef { target: "sub", socket: Position(0) }),
                (Name("From Max"), NodeSocketRef { target: "add", socket: Position(0) }),
            ],
        },
    ],
    inputs: &[
        ("modulate", NodeSocketRef { target: "sep", socket: Name("Image") }),
        ("fac", NodeSocketRef { target: "map", socket: Name("Value") }),
    ],
    outputs: &[("fac", NodeSocketRef { target: "map", socket: Position(0) })],
    properties: &[],
};

static GROUP_MULTIPLY_VALUE: NodeGroup = NodeGroup {
    id: 14,
    nodes: &[Node {
        kind: &KIND_MATH,
        id: "mul",
        properties: &[("operation", Value::Enum("MULTIPLY"))],
        values: &[],
        links: &[],
    }],
    inputs: &[
        ("value", NodeSocketRef { target: "mul", socket: Position(0) }),
        ("fac", NodeSocketRef { target: "mul", socket: Position(1) }),
    ],
    outputs: &[("value", NodeSocketRef { target: "mul", socket: Position(0) })],
    properties: &[],
};

static GROUP_BLEND_VALUES: NodeGroup = NodeGroup {
    id: 15,
    nodes: &[Node {
        kind: &KIND_MAP_RANGE,
        id: "map",
        values: &[
            (Name("From Min"), Value::Float(bits(0.0))),
            (Name("From Max"), Value::Float(bits(1.0))),
        ],
        properties: &[],
        links: &[],
    }],
    inputs: &[
        ("fac", NodeSocketRef { target: "map", socket: Name("Value") }),
        ("min", NodeSocketRef { target: "map", socket: Name("To Min") }),
        ("max", NodeSocketRef { target: "map", socket: Name("To Max") }),
    ],
    outputs: &[("fac", NodeSocketRef { target: "map", socket: Position(0) })],
    properties: &[],
};

static GROUP_INVERT_VALUE: NodeGroup = NodeGroup {
    id: 16,
    nodes: &[Node {
        kind: &KIND_MATH,
        id: "sub",
        properties: &[("operation", Value::Enum("SUBTRACT"))],
        values: &[(Position(0), Value::Float(bits(1.0)))],
        links: &[],
    }],
    inputs: &[("value", NodeSocketRef { target: "sub", socket: Position(1) })],
    outputs: &[("value", NodeSocketRef { target: "sub", socket: Position(0) })],
    properties: &[],
};

static GROUP_FWB_FACTORS: NodeGroup = NodeGroup {
    id: 17,
    nodes: &[
        Node {
            kind: &KIND_MAP_RANGE,
            id: "lum1ss",
            properties: &[
                ("interpolation_type", Value::Enum("SMOOTHSTEP")),
                ("clamp", Value::Bool(false)),
            ],
            values: &[
                (Name("To Min"), Value::Float(bits(0.0))),
                (Name("To Max"), Value::Float(bits(1.0))),
            ],
            links: &[],
        },
        Node {
            kind: &KIND_MAP_RANGE,
            id: "lum2ss",
            properties: &[
                ("interpolation_type", Value::Enum("SMOOTHSTEP")),
                ("clamp", Value::Bool(false)),
            ],
            values: &[
                (Name("To Min"), Value::Float(bits(0.0))),
                (Name("To Max"), Value::Float(bits(1.0))),
            ],
            links: &[],
        },
        Node {
            kind: &KIND_MAP_RANGE,
            id: "lum3ss",
            properties: &[
                ("interpolation_type", Value::Enum("SMOOTHSTEP")),
                ("clamp", Value::Bool(false)),
            ],
            values: &[
                (Name("To Min"), Value::Float(bits(0.0))),
                (Name("To Max"), Value::Float(bits(1.0))),
            ],
            links: &[],
        },
        Node {
            kind: &KIND_MAP_RANGE,
            id: "lum4ss",
            properties: &[
                ("interpolation_type", Value::Enum("SMOOTHSTEP")),
                ("clamp", Value::Bool(false)),
            ],
            values: &[
                (Name("To Min"), Value::Float(bits(0.0))),
                (Name("To Max"), Value::Float(bits(1.0))),
            ],
            links: &[],
        },
        Node {
            kind: &KIND_MATH,
            id: "lum1inv",
            properties: &[("operation", Value::Enum("SUBTRACT"))],
            values: &[(Position(0), Value::Float(bits(1.0)))],
            links: &[(Position(1), NodeSocketRef { target: "lum1ss", socket: Position(0) })],
        },
        Node {
            kind: &KIND_MAP_RANGE,
            id: "lum2blend",
            values: &[
                (Name("From Min"), Value::Float(bits(0.0))),
                (Name("From Max"), Value::Float(bits(1.0))),
            ],
            links: &[
                (Name("To Min"), NodeSocketRef { target: "lum1inv", socket: Position(0) }),
                (Name("To Max"), NodeSocketRef { target: "lum2ss", socket: Position(0) }),
            ],
            properties: &[],
        },
        Node {
            kind: &KIND_MATH,
            id: "fac1m",
            properties: &[("operation", Value::Enum("MULTIPLY_ADD"))],
            links: &[(Position(1), NodeSocketRef { target: "lum2blend", socket: Position(0) })],
            values: &[],
        },
        Node {
            kind: &KIND_MAP_RANGE,
            id: "fac1ss",
            properties: &[
                ("interpolation_type", Value::Enum("SMOOTHSTEP")),
                ("clamp", Value::Bool(false)),
            ],
            values: &[
                (Name("To Min"), Value::Float(bits(0.0))),
                (Name("To Max"), Value::Float(bits(1.0))),
            ],
            links: &[(Name("Value"), NodeSocketRef { target: "fac1m", socket: Position(0) })],
        },
        Node {
            kind: &KIND_MAP_RANGE,
            id: "lums2",
            values: &[
                (Name("From Min"), Value::Float(bits(0.0))),
                (Name("From Max"), Value::Float(bits(1.0))),
            ],
            links: &[
                (Name("To Min"), NodeSocketRef { target: "lum1ss", socket: Position(0) }),
                (Name("To Max"), NodeSocketRef { target: "lum2ss", socket: Position(0) }),
            ],
            properties: &[],
        },
        Node {
            kind: &KIND_MATH,
            id: "lums2inv",
            properties: &[("operation", Value::Enum("SUBTRACT"))],
            values: &[(Position(0), Value::Float(bits(1.0)))],
            links: &[(Position(1), NodeSocketRef { target: "lums2", socket: Position(0) })],
        },
        Node {
            kind: &KIND_MAP_RANGE,
            id: "lum3blend",
            values: &[
                (Name("From Min"), Value::Float(bits(0.0))),
                (Name("From Max"), Value::Float(bits(1.0))),
            ],
            links: &[
                (Name("To Min"), NodeSocketRef { target: "lums2inv", socket: Position(0) }),
                (Name("To Max"), NodeSocketRef { target: "lum3ss", socket: Position(0) }),
            ],
            properties: &[],
        },
        Node {
            kind: &KIND_MATH,
            id: "fac2m",
            properties: &[("operation", Value::Enum("MULTIPLY_ADD"))],
            links: &[(Position(1), NodeSocketRef { target: "lum3blend", socket: Position(0) })],
            values: &[],
        },
        Node {
            kind: &KIND_MAP_RANGE,
            id: "fac2ss",
            properties: &[
                ("interpolation_type", Value::Enum("SMOOTHSTEP")),
                ("clamp", Value::Bool(false)),
            ],
            values: &[
                (Name("To Min"), Value::Float(bits(0.0))),
                (Name("To Max"), Value::Float(bits(1.0))),
            ],
            links: &[(Name("Value"), NodeSocketRef { target: "fac2m", socket: Position(0) })],
        },
        Node {
            kind: &KIND_MAP_RANGE,
            id: "lums3",
            values: &[
                (Name("From Min"), Value::Float(bits(0.0))),
                (Name("From Max"), Value::Float(bits(1.0))),
            ],
            links: &[
                (Name("To Min"), NodeSocketRef { target: "lums2", socket: Position(0) }),
                (Name("To Max"), NodeSocketRef { target: "lum3ss", socket: Position(0) }),
            ],
            properties: &[],
        },
        Node {
            kind: &KIND_MATH,
            id: "lums3inv",
            properties: &[("operation", Value::Enum("SUBTRACT"))],
            values: &[(Position(0), Value::Float(bits(1.0)))],
            links: &[(Position(1), NodeSocketRef { target: "lums3", socket: Position(0) })],
        },
        Node {
            kind: &KIND_MAP_RANGE,
            id: "lum4blend",
            values: &[
                (Name("From Min"), Value::Float(bits(0.0))),
                (Name("From Max"), Value::Float(bits(1.0))),
            ],
            links: &[
                (Name("To Min"), NodeSocketRef { target: "lums3inv", socket: Position(0) }),
                (Name("To Max"), NodeSocketRef { target: "lum4ss", socket: Position(0) }),
            ],
            properties: &[],
        },
        Node {
            kind: &KIND_MATH,
            id: "fac3m",
            properties: &[("operation", Value::Enum("MULTIPLY_ADD"))],
            links: &[(Position(1), NodeSocketRef { target: "lum4blend", socket: Position(0) })],
            values: &[],
        },
        Node {
            kind: &KIND_MAP_RANGE,
            id: "fac3ss",
            properties: &[
                ("interpolation_type", Value::Enum("SMOOTHSTEP")),
                ("clamp", Value::Bool(false)),
            ],
            values: &[
                (Name("To Min"), Value::Float(bits(0.0))),
                (Name("To Max"), Value::Float(bits(1.0))),
            ],
            links: &[(Name("Value"), NodeSocketRef { target: "fac3m", socket: Position(0) })],
        },
    ],
    inputs: &[
        ("fac2", NodeSocketRef { target: "fac1m", socket: Position(0) }),
        ("fac2", NodeSocketRef { target: "fac1m", socket: Position(2) }),
        ("fac3", NodeSocketRef { target: "fac2m", socket: Position(0) }),
        ("fac3", NodeSocketRef { target: "fac2m", socket: Position(2) }),
        ("fac4", NodeSocketRef { target: "fac3m", socket: Position(0) }),
        ("fac4", NodeSocketRef { target: "fac3m", socket: Position(2) }),
        ("lum1", NodeSocketRef { target: "lum1ss", socket: Name("Value") }),
        ("lum2", NodeSocketRef { target: "lum2ss", socket: Name("Value") }),
        ("lum3", NodeSocketRef { target: "lum3ss", socket: Name("Value") }),
        ("lum4", NodeSocketRef { target: "lum4ss", socket: Name("Value") }),
        ("lumstart1", NodeSocketRef { target: "lum1ss", socket: Name("From Min") }),
        ("lumstart2", NodeSocketRef { target: "lum2ss", socket: Name("From Min") }),
        ("lumstart3", NodeSocketRef { target: "lum3ss", socket: Name("From Min") }),
        ("lumstart4", NodeSocketRef { target: "lum4ss", socket: Name("From Min") }),
        ("lumend1", NodeSocketRef { target: "lum1ss", socket: Name("From Max") }),
        ("lumend2", NodeSocketRef { target: "lum2ss", socket: Name("From Max") }),
        ("lumend3", NodeSocketRef { target: "lum3ss", socket: Name("From Max") }),
        ("lumend4", NodeSocketRef { target: "lum4ss", socket: Name("From Max") }),
        ("lumfac2", NodeSocketRef { target: "lum2blend", socket: Name("Value") }),
        ("lumfac3", NodeSocketRef { target: "lum3blend", socket: Name("Value") }),
        ("lumfac4", NodeSocketRef { target: "lum4blend", socket: Name("Value") }),
        (
            "blendstart2",
            NodeSocketRef { target: "fac1ss", socket: Name("From Min") },
        ),
        (
            "blendstart3",
            NodeSocketRef { target: "fac2ss", socket: Name("From Min") },
        ),
        (
            "blendstart4",
            NodeSocketRef { target: "fac3ss", socket: Name("From Min") },
        ),
        ("blendend2", NodeSocketRef { target: "fac1ss", socket: Name("From Max") }),
        ("blendend3", NodeSocketRef { target: "fac2ss", socket: Name("From Max") }),
        ("blendend4", NodeSocketRef { target: "fac3ss", socket: Name("From Max") }),
    ],
    outputs: &[
        ("fac1", NodeSocketRef { target: "fac1ss", socket: Position(0) }),
        ("fac2", NodeSocketRef { target: "fac2ss", socket: Position(0) }),
        ("fac3", NodeSocketRef { target: "fac3ss", socket: Position(0) }),
    ],
    properties: &[],
};

static GROUP_MULTIBLEND_TEXTURE: NodeGroup = NodeGroup {
    id: 18,
    nodes: &[
        Node {
            kind: &KIND_MIX_RGB,
            id: "mix_color1",
            properties: &[("blend_type", Value::Enum("MIX"))],
            values: &[],
            links: &[],
        },
        Node {
            kind: &KIND_MAP_RANGE,
            id: "mix_alpha1",
            properties: &[("clamp", Value::Bool(false))],
            values: &[
                (Name("From Min"), Value::Float(bits(0.0))),
                (Name("From Max"), Value::Float(bits(1.0))),
            ],
            links: &[],
        },
        Node {
            kind: &KIND_MIX_RGB,
            id: "mix_color2",
            properties: &[("blend_type", Value::Enum("MIX"))],
            links: &[(
                Name("Color1"),
                NodeSocketRef { target: "mix_color1", socket: Name("Color") },
            )],
            values: &[],
        },
        Node {
            kind: &KIND_MAP_RANGE,
            id: "mix_alpha2",
            properties: &[("clamp", Value::Bool(false))],
            values: &[
                (Name("From Min"), Value::Float(bits(0.0))),
                (Name("From Max"), Value::Float(bits(1.0))),
            ],
            links: &[(
                Name("To Min"),
                NodeSocketRef { target: "mix_alpha1", socket: Position(0) },
            )],
        },
        Node {
            kind: &KIND_MIX_RGB,
            id: "mix_color3",
            properties: &[("blend_type", Value::Enum("MIX"))],
            links: &[(
                Name("Color1"),
                NodeSocketRef { target: "mix_color2", socket: Name("Color") },
            )],
            values: &[],
        },
        Node {
            kind: &KIND_MAP_RANGE,
            id: "mix_alpha3",
            properties: &[("clamp", Value::Bool(false))],
            values: &[
                (Name("From Min"), Value::Float(bits(0.0))),
                (Name("From Max"), Value::Float(bits(1.0))),
            ],
            links: &[(
                Name("To Min"),
                NodeSocketRef { target: "mix_alpha2", socket: Position(0) },
            )],
        },
    ],
    inputs: &[
        ("color", NodeSocketRef { target: "mix_color1", socket: Name("Color1") }),
        ("color2", NodeSocketRef { target: "mix_color1", socket: Name("Color2") }),
        ("color3", NodeSocketRef { target: "mix_color2", socket: Name("Color2") }),
        ("color4", NodeSocketRef { target: "mix_color3", socket: Name("Color2") }),
        ("alpha", NodeSocketRef { target: "mix_alpha1", socket: Name("To Min") }),
        ("alpha2", NodeSocketRef { target: "mix_alpha1", socket: Name("To Max") }),
        ("alpha3", NodeSocketRef { target: "mix_alpha2", socket: Name("To Max") }),
        ("alpha4", NodeSocketRef { target: "mix_alpha3", socket: Name("To Max") }),
        ("fac1", NodeSocketRef { target: "mix_color1", socket: Name("Fac") }),
        ("fac1", NodeSocketRef { target: "mix_alpha1", socket: Name("Value") }),
        ("fac2", NodeSocketRef { target: "mix_color2", socket: Name("Fac") }),
        ("fac2", NodeSocketRef { target: "mix_alpha2", socket: Name("Value") }),
        ("fac3", NodeSocketRef { target: "mix_color3", socket: Name("Fac") }),
        ("fac3", NodeSocketRef { target: "mix_alpha3", socket: Name("Value") }),
    ],
    outputs: &[
        ("color", NodeSocketRef { target: "mix_color3", socket: Name("Color") }),
        ("alpha", NodeSocketRef { target: "mix_alpha3", socket: Position(0) }),
    ],
    properties: &[],
};

static GROUP_MULTIBLEND_VALUE: NodeGroup = NodeGroup {
    id: 19,
    nodes: &[
        Node {
            kind: &KIND_MAP_RANGE,
            id: "mix1",
            properties: &[("clamp", Value::Bool(false))],
            values: &[
                (Name("From Min"), Value::Float(bits(0.0))),
                (Name("From Max"), Value::Float(bits(1.0))),
            ],
            links: &[],
        },
        Node {
            kind: &KIND_MAP_RANGE,
            id: "mix2",
            properties: &[("clamp", Value::Bool(false))],
            values: &[
                (Name("From Min"), Value::Float(bits(0.0))),
                (Name("From Max"), Value::Float(bits(1.0))),
            ],
            links: &[(Name("To Min"), NodeSocketRef { target: "mix1", socket: Position(0) })],
        },
        Node {
            kind: &KIND_MAP_RANGE,
            id: "mix3",
            properties: &[("clamp", Value::Bool(false))],
            values: &[
                (Name("From Min"), Value::Float(bits(0.0))),
                (Name("From Max"), Value::Float(bits(1.0))),
            ],
            links: &[(Name("To Min"), NodeSocketRef { target: "mix2", socket: Position(0) })],
        },
    ],
    inputs: &[
        ("val1", NodeSocketRef { target: "mix1", socket: Name("To Min") }),
        ("val2", NodeSocketRef { target: "mix1", socket: Name("To Max") }),
        ("val3", NodeSocketRef { target: "mix2", socket: Name("To Max") }),
        ("val4", NodeSocketRef { target: "mix3", socket: Name("To Max") }),
        ("fac1", NodeSocketRef { target: "mix1", socket: Name("Value") }),
        ("fac2", NodeSocketRef { target: "mix2", socket: Name("Value") }),
        ("fac3", NodeSocketRef { target: "mix3", socket: Name("Value") }),
    ],
    outputs: &[("val", NodeSocketRef { target: "mix3", socket: Position(0) })],
    properties: &[],
};

static GROUP_BLEND_3_VALUES: NodeGroup = NodeGroup {
    id: 20,
    nodes: &[
        Node {
            kind: &KIND_MAP_RANGE,
            id: "mix1",
            properties: &[("clamp", Value::Bool(false))],
            values: &[
                (Name("From Min"), Value::Float(bits(0.0))),
                (Name("From Max"), Value::Float(bits(1.0))),
            ],
            links: &[],
        },
        Node {
            kind: &KIND_MAP_RANGE,
            id: "mix2",
            properties: &[("clamp", Value::Bool(false))],
            values: &[
                (Name("From Min"), Value::Float(bits(0.0))),
                (Name("From Max"), Value::Float(bits(1.0))),
            ],
            links: &[(Name("To Min"), NodeSocketRef { target: "mix1", socket: Position(0) })],
        },
    ],
    inputs: &[
        ("val1", NodeSocketRef { target: "mix1", socket: Name("To Min") }),
        ("val2", NodeSocketRef { target: "mix1", socket: Name("To Max") }),
        ("val3", NodeSocketRef { target: "mix2", socket: Name("To Max") }),
        ("fac1", NodeSocketRef { target: "mix1", socket: Name("Value") }),
        ("fac2", NodeSocketRef { target: "mix2", socket: Name("Value") }),
    ],
    outputs: &[("val", NodeSocketRef { target: "mix2", socket: Position(0) })],
    properties: &[],
};

static GROUP_CLIP_ALPHA: NodeGroup = NodeGroup {
    id: 21,
    nodes: &[Node {
        kind: &KIND_MATH,
        id: "clip",
        properties: &[("operation", Value::Enum("GREATER_THAN"))],
        values: &[],
        links: &[],
    }],
    inputs: &[
        ("value", NodeSocketRef { target: "clip", socket: Position(0) }),
        ("ref", NodeSocketRef { target: "clip", socket: Position(1) }),
    ],
    outputs: &[("value", NodeSocketRef { target: "clip", socket: Position(0) })],
    properties: &[],
};

static GROUP_MOD2X: NodeGroup = NodeGroup {
    id: 22,
    nodes: &[Node {
        kind: &KIND_MIX_RGB,
        id: "multiply",
        properties: &[("blend_type", Value::Enum("MULTIPLY"))],
        values: &[
            (Name("Color2"), Value::Color(color([2.0, 2.0, 2.0, 1.0]))),
            (Name("Fac"), Value::Float(bits(1.0))),
        ],
        links: &[],
    }],
    inputs: &[("color", NodeSocketRef { target: "multiply", socket: Name("Color1") })],
    outputs: &[("color", NodeSocketRef { target: "multiply", socket: Name("Color") })],
    properties: &[],
};

static NODES: &[&NodeType] = &[
    &SHADER_PRINCIPLED,
    &SHADER_TRANSPARENT,
    &SHADER_GLASS,
    &KIND_TEX_IMAGE,
    &KIND_TEX_COORD,
    &KIND_MAPPING,
    &KIND_NORMAL_MAP,
    &KIND_SEPARATE_RGB,
    &KIND_COMBINE_RGB,
    &KIND_MATH,
    &KIND_MIX_RGB,
    &KIND_VERTEX_COLOR,
    &KIND_OBJECT_INFO,
    &KIND_MAP_RANGE,
    &KIND_VECTOR_MATH,
    &KIND_SEPARATE_XYZ,
];

static NODE_GROUPS: &[&NodeGroup] = &[
    &GROUP_TEXTURE,
    &GROUP_TRANSFORMED_TEXTURE,
    &GROUP_SPLIT_TEXTURE,
    &GROUP_DX_NORMAL_MAP_CONVERTER,
    &GROUP_SSBUMP_CONVERTER,
    &GROUP_NORMAL_MAP,
    &GROUP_DETAIL_TEXTURE,
    &GROUP_COLOR_TEXTURE,
    &GROUP_BLEND_TEXTURE,
    &GROUP_VERTEX_COLOR,
    &GROUP_SEPARATED_VERTEX_COLOR,
    &GROUP_OBJECT_COLOR,
    &GROUP_MODULATED_FACTOR,
    &GROUP_MULTIPLY_VALUE,
    &GROUP_BLEND_VALUES,
    &GROUP_INVERT_VALUE,
    &GROUP_FWB_FACTORS,
    &GROUP_MULTIBLEND_TEXTURE,
    &GROUP_MULTIBLEND_VALUE,
    &GROUP_BLEND_3_VALUES,
    &GROUP_CLIP_ALPHA,
    &GROUP_MOD2X,
];

#[test]
fn check_nodes() {
    for node in NODES {
        println!("checking `{}`", node.blender_id);
        assert!(node.check());
    }
}

#[test]
fn check_node_groups() {
    for group in NODE_GROUPS {
        assert!(group.check(), "group {} is not sound", group.id);
    }
}

#[test]
fn node_groups_lay_none_of_their_nodes_on_top_of_another() {
    for group in NODE_GROUPS {
        assert_eq!(group.check_clear(), Some(true), "group {}", group.id);
    }
}

#[test]
fn node_group_handles_are_distinct() {
    for (i, group) in NODE_GROUPS.iter().enumerate() {
        for other in &NODE_GROUPS[i + 1..] {
            assert_ne!(group.id, other.id);
        }
    }
}

#[test]
fn build_nodraw_material_no_panic() {
    let mut builder = MaterialBuilder::new(&SHADER_TRANSPARENT);

    builder
        .property("blend_method", Value::Enum("CLIP"))
        .property("shadow_method", Value::Enum("CLIP"));

    let data = builder.try_build().unwrap().unwrap();

    assert_eq!(data.nodes.len(), 1);
    assert_eq!(data.nodes[0].blender_id(), "ShaderNodeBsdfTransparent");
    assert_eq!(data.nodes[0].position(), [0, 0]);
}

fn extents(node: &BuiltNode) -> ([i64; 2], [i64; 2]) {
    let [x, y] = node.position();
    let [w, h] = node.kind.size;
    ([x, x + w as i64], [y - h as i64, y])
}

fn overlap(a: &BuiltNode, b: &BuiltNode) -> bool {
    let (ax, ay) = extents(a);
    let (bx, by) = extents(b);
    ax[0] < bx[1] && bx[0] < ax[1] && ay[0] < by[1] && by[0] < ay[1]
}

fn overlapping(nodes: &[BuiltNode]) -> Vec<(usize, usize)> {
    let mut found = Vec::new();
    for i in 0..nodes.len() {
        for j in i + 1..nodes.len() {
            if overlap(&nodes[i], &nodes[j]) {
                found.push((i, j));
            }
        }
    }
    found
}

fn texture(builder: &mut MaterialBuilder, name: &'static str, path: &str) {
    builder.texture_color_space(path.to_string(), ColorSpace::Srgb);
    builder
        .input(name)
        .pipeline(vec![&GROUP_TEXTURE])
        .property(&GROUP_TEXTURE, "image", Value::Texture(path.to_string()))
        .property(&GROUP_TEXTURE, "interpolation", Value::Enum("Linear"));
}

fn water() -> BuiltMaterialData {
    let mut builder = MaterialBuilder::new(&SHADER_GLASS);
    builder
        .property("blend_method", Value::Enum("BLEND"))
        .property("shadow_method", Value::Enum("HASHED"))
        .socket_value("IOR", Value::Float(bits(1.333)))
        .socket_value("Roughness", Value::Float(bits(0.3)));
    texture(&mut builder, "$normalmap", "materials/water_normal");
    builder
        .output("Normal", "$normalmap", "color")
        .push(&GROUP_DX_NORMAL_MAP_CONVERTER)
        .link_input(&GROUP_DX_NORMAL_MAP_CONVERTER, "image")
        .push(&GROUP_NORMAL_MAP)
        .link(&GROUP_NORMAL_MAP, "strength", Value::Float(bits(1.0)));
    builder.try_build().unwrap().unwrap()
}

#[test]
fn water_material() {
    let data = water();

    let kinds: Vec<&str> = data.nodes.iter().map(BuiltNode::blender_id).collect();
    assert_eq!(
        kinds,
        vec![
            "ShaderNodeTexImage",
            "ShaderNodeSeparateRGB",
            "ShaderNodeMath",
            "ShaderNodeCombineRGB",
            "ShaderNodeNormalMap",
            "ShaderNodeBsdfGlass",
        ]
    );
    let positions: Vec<[i64; 2]> = data.nodes.iter().map(BuiltNode::position).collect();
    // the texture at 0, 240 wide; the converter begins at 290: the separation
    // at 290, the inversion at 480, the combination at 670, 140 wide; the
    // normal map at 860, 150 wide; the shader at 1060
    assert_eq!(
        positions,
        vec![[-1060, 0], [-770, 0], [-580, 0], [-390, 0], [-200, 0], [0, 0]]
    );
    assert!(overlapping(&data.nodes).is_empty());
    // the normal map reads the converted image and is given its strength
    let normal_map = &data.nodes[4];
    assert!(matches!(
        normal_map.socket_links[..],
        [(Name("Color"), link)] if link.node_index == 3
    ));
    assert!(matches!(
        normal_map.socket_values[..],
        [(Name("Strength"), Value::Float(0x3f80_0000))]
    ));
    // the shader reads the normal map
    let shader = &data.nodes[5];
    assert!(matches!(
        shader.socket_links[..],
        [(Name("Normal"), link)] if link.node_index == 4
    ));
    assert_eq!(shader.socket_values.len(), 2);
    assert_eq!(data.texture_color_spaces.len(), 1);
}

fn blended() -> MaterialBuilder {
    let mut builder = MaterialBuilder::new(&SHADER_PRINCIPLED);
    builder
        .property("blend_method", Value::Enum("OPAQUE"))
        .socket_value("Specular", Value::Float(bits(0.1)));
    builder.input("vertex_color").pipeline(vec![&GROUP_VERTEX_COLOR]);
    texture(&mut builder, "$blendmodulatetexture", "materials/modulate");
    builder
        .input("blend")
        .pipeline(vec![&GROUP_MODULATED_FACTOR])
        .link(
            &GROUP_MODULATED_FACTOR,
            "modulate",
            Ref::new("$blendmodulatetexture", "color"),
        )
        .link(&GROUP_MODULATED_FACTOR, "fac", Ref::new("vertex_color", "color"));
    texture(&mut builder, "$basetexture", "materials/base");
    texture(&mut builder, "$basetexture2", "materials/base2");
    builder
        .input("$basetexture")
        .push(&GROUP_BLEND_TEXTURE)
        .link(&GROUP_BLEND_TEXTURE, "color2", Ref::new("$basetexture2", "color"))
        .link(&GROUP_BLEND_TEXTURE, "alpha2", Ref::new("$basetexture2", "alpha"))
        .link(&GROUP_BLEND_TEXTURE, "fac", Ref::new("blend", "fac"));
    builder.output("Base Color", "$basetexture", "color");
    texture(&mut builder, "$bumpmap", "materials/bump");
    builder
        .output("Normal", "$bumpmap", "color")
        .push(&GROUP_SSBUMP_CONVERTER)
        .link_input(&GROUP_SSBUMP_CONVERTER, "image")
        .push(&GROUP_NORMAL_MAP)
        .link(&GROUP_NORMAL_MAP, "strength", Value::Float(bits(1.0)));
    builder
        .output("Alpha", "$basetexture", "alpha")
        .push(&GROUP_MULTIPLY_VALUE)
        .link_input(&GROUP_MULTIPLY_VALUE, "value")
        .link(&GROUP_MULTIPLY_VALUE, "fac", Value::Float(bits(0.5)));
    builder
}

#[test]
fn blended_material_links_read_backwards() {
    let data = blended().try_build().unwrap().unwrap();

    for (index, node) in data.nodes.iter().enumerate() {
        for (_, link) in &node.socket_links {
            assert!(link.node_index < index);
            let source = &data.nodes[link.node_index];
            assert!(source.kind.output_sockets.iter().any(|socket| same(socket, &link.socket)));
        }
        for (socket, _) in &node.socket_links {
            assert!(node.kind.input_sockets.iter().any(|declared| same(declared, socket)));
        }
        for (socket, _) in &node.socket_values {
            assert!(node.kind.input_sockets.iter().any(|declared| same(declared, socket)));
        }
        for (property, _) in &node.properties {
            assert!(node.kind.properties.contains(property));
        }
    }
    let shader = data.nodes.last().unwrap();
    assert_eq!(shader.blender_id(), "ShaderNodeBsdfPrincipled");
    assert_eq!(shader.position(), [0, 0]);
    let sockets: Vec<String> = shader.socket_links.iter().map(|(s, _)| format!("{s:?}")).collect();
    assert_eq!(sockets, vec!["Name(\"Base Color\")", "Name(\"Alpha\")", "Name(\"Normal\")"]);
}

fn same(a: &NodeSocketId, b: &NodeSocketId) -> bool {
    match (a, b) {
        (Name(a), Name(b)) => a == b,
        (Position(a), Position(b)) => a == b,
        _ => false,
    }
}

#[test]
fn blended_material_is_built_the_same_each_time() {
    let first = blended().try_build().unwrap().unwrap();
    let second = blended().try_build().unwrap().unwrap();

    assert_eq!(format!("{first:?}"), format!("{second:?}"));
}

#[test]
fn nodes_of_different_groups_never_overlap() {
    let data = blended().try_build().unwrap().unwrap();

    // the nodes of each group lie next to each other in the node list; two
    // nodes that overlap have to come from one expansion of one group, and
    // then they are of kinds that one group holds
    for (i, j) in overlapping(&data.nodes) {
        let a = data.nodes[i].blender_id();
        let b = data.nodes[j].blender_id();
        let together = NODE_GROUPS.iter().any(|group| {
            group.nodes.iter().any(|node| node.kind.blender_id == a)
                && group.nodes.iter().any(|node| node.kind.blender_id == b)
        });
        assert!(together, "{a} at {i} overlaps {b} at {j}");
    }
}

fn expand(group: &'static NodeGroup) -> Vec<BuiltNode> {
    let mut nodes = Vec::new();
    let mut outputs = Vec::new();
    let links: Vec<(&'static str, BuiltNodeSocketLink)> = group
        .inputs
        .iter()
        .map(|(name, _)| (*name, BuiltNodeSocketLink::Value(Value::Float(0))))
        .collect();
    let properties: Vec<(&'static str, Value)> =
        group.properties.iter().map(|(name, _)| (*name, Value::Bool(true))).collect();
    let corner = group.try_build(&mut nodes, &mut outputs, &links, &properties, [0, 0]);
    assert!(corner.is_some(), "group {} cannot be expanded", group.id);
    assert_eq!(nodes.len(), group.nodes.len());
    assert_eq!(outputs.len(), group.outputs.len());
    let [x_max, y_max] = corner.unwrap();
    for node in &nodes {
        let [x, y] = node.position();
        assert!(0 <= x && x + node.kind.size[0] as i64 <= x_max);
        assert!(0 <= y && y + node.kind.size[1] as i64 <= y_max);
    }
    nodes
}

#[test]
fn every_group_can_be_expanded_alone() {
    for group in NODE_GROUPS {
        expand(group);
    }
}

#[test]
fn neighbours_in_a_group_never_overlap() {
    for group in NODE_GROUPS {
        let nodes = expand(group);
        for pair in nodes.windows(2) {
            let ([ax0, ax1], [ay0, ay1]) = top_down(&pair[0]);
            let ([bx0, bx1], [by0, by1]) = top_down(&pair[1]);
            assert!(ax1 <= bx0 || bx1 <= ax0 || ay1 <= by0 || by1 <= ay0);
        }
    }
}

fn top_down(node: &BuiltNode) -> ([i64; 2], [i64; 2]) {
    let [x, y] = node.position();
    let [w, h] = node.kind.size;
    ([x, x + w as i64], [y, y + h as i64])
}
