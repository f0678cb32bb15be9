//! Literal values and the small enumerations that accompany a material.
use vstd::prelude::*;

verus! {

/// A literal that a socket or a static node property can hold.
///
/// `Float`, `Color` and `Vec` carry single-precision numbers as IEEE 754 bit
/// patterns; the compiler never computes with them.
#[derive(Debug)]
pub enum Value {
    Bool(bool),
    Float(u32),
    Color([u32; 4]),
    Vec([u32; 3]),
    Enum(&'static str),
    Texture(String),
}

/// Mathematical content of a [`Value`].
pub enum ValueModel {
    Bool(bool),
    Float(u32),
    Color([u32; 4]),
    Vec([u32; 3]),
    Enum(Seq<char>),
    Texture(Seq<char>),
}

impl View for Value {
    type V = ValueModel;

    open spec fn view(&self) -> ValueModel {
        match self {
            Value::Bool(b) => ValueModel::Bool(*b),
            Value::Float(f) => ValueModel::Float(*f),
            Value::Color(c) => ValueModel::Color(*c),
            Value::Vec(v) => ValueModel::Vec(*v),
            Value::Enum(e) => ValueModel::Enum(e@),
            Value::Texture(t) => ValueModel::Texture(t@),
        }
    }
}

impl DeepView for Value {
    type V = ValueModel;

    open spec fn deep_view(&self) -> ValueModel {
        self@
    }
}

impl Clone for Value {
    fn clone(&self) -> (r: Self)
        ensures
            r@ == self@,
    {
        match self {
            Value::Bool(b) => Value::Bool(*b),
            Value::Float(f) => Value::Float(*f),
            Value::Color(c) => Value::Color(*c),
            Value::Vec(v) => Value::Vec(*v),
            Value::Enum(e) => Value::Enum(*e),
            Value::Texture(t) => Value::Texture(t.clone()),
        }
    }
}

/// How the consumer is to read the colours of a texture.
#[derive(Debug, Clone, Copy, PartialEq, Eq, Structural)]
pub enum ColorSpace {
    Srgb,
    NonColor,
}

impl ColorSpace {
    /// Name of the colour space as the shading engine spells it.
    pub open spec fn name(self) -> Seq<char> {
        match self {
            ColorSpace::Srgb => "sRGB"@,
            ColorSpace::NonColor => "Non-Color"@,
        }
    }

    /// The name of the colour space as the shading engine spells it.
    pub fn to_str(self) -> (r: &'static str)
        ensures
            r@ == self.name(),
    {
        match self {
            ColorSpace::Srgb => "sRGB",
            ColorSpace::NonColor => "Non-Color",
        }
    }
}

/// How a texture is sampled between its pixels.
#[derive(Debug, Clone, Copy, PartialEq, Eq, Structural)]
pub enum TextureInterpolation {
    Linear,
    Closest,
    Cubic,
    Smart,
}

/// A name that is no texture interpolation.
#[derive(Debug, Clone, Copy, PartialEq, Eq, Structural)]
pub struct InvalidInterpolation;

impl TextureInterpolation {
    /// Name of the interpolation as the shading engine spells it.
    pub open spec fn name(self) -> Seq<char> {
        match self {
            TextureInterpolation::Linear => "Linear"@,
            TextureInterpolation::Closest => "Closest"@,
            TextureInterpolation::Cubic => "Cubic"@,
            TextureInterpolation::Smart => "Smart"@,
        }
    }

    /// The interpolation that a name stands for.
    pub open spec fn parse(s: Seq<char>) -> Result<TextureInterpolation, InvalidInterpolation> {
        if s == TextureInterpolation::Linear.name() {
            Ok(TextureInterpolation::Linear)
        } else if s == TextureInterpolation::Closest.name() {
            Ok(TextureInterpolation::Closest)
        } else if s == TextureInterpolation::Cubic.name() {
            Ok(TextureInterpolation::Cubic)
        } else if s == TextureInterpolation::Smart.name() {
            Ok(TextureInterpolation::Smart)
        } else {
            Err(InvalidInterpolation)
        }
    }

    /// The name of the interpolation as the shading engine spells it.
    pub fn to_str(self) -> (r: &'static str)
        ensures
            r@ == self.name(),
    {
        match self {
            TextureInterpolation::Linear => "Linear",
            TextureInterpolation::Closest => "Closest",
            TextureInterpolation::Cubic => "Cubic",
            TextureInterpolation::Smart => "Smart",
        }
    }

    /// The interpolation that the name `s` stands for.
    pub fn from_str(s: &str) -> (r: Result<TextureInterpolation, InvalidInterpolation>)
        ensures
            r == TextureInterpolation::parse(s@),
    {
        if crate::text::str_eq(s, "Linear") {
            Ok(TextureInterpolation::Linear)
        } else if crate::text::str_eq(s, "Closest") {
            Ok(TextureInterpolation::Closest)
        } else if crate::text::str_eq(s, "Cubic") {
            Ok(TextureInterpolation::Cubic)
        } else if crate::text::str_eq(s, "Smart") {
            Ok(TextureInterpolation::Smart)
        } else {
            Err(InvalidInterpolation)
        }
    }

    /// Every interpolation is read back from its own name.
    pub proof fn lemma_parse_name(t: TextureInterpolation)
        ensures
            TextureInterpolation::parse(t.name()) == Ok::<
                TextureInterpolation,
                InvalidInterpolation,
            >(t),
    {
        reveal_strlit("Linear");
        reveal_strlit("Closest");
        reveal_strlit("Cubic");
        reveal_strlit("Smart");
        assert("Linear"@.len() == 6);
        assert("Closest"@.len() == 7);
        assert("Cubic"@.len() == 5);
        assert("Smart"@.len() == 5);
        assert("Cubic"@[0] == 'C');
        assert("Smart"@[0] == 'S');
    }
}

impl Default for TextureInterpolation {
    fn default() -> (r: Self)
        ensures
            r == TextureInterpolation::Linear,
    {
        TextureInterpolation::Linear
    }
}

/// Choices that apply to every material of an import.
#[derive(Debug, Clone, Copy)]
pub struct Settings {
    pub simple_materials: bool,
    pub allow_culling: bool,
    pub editor_materials: bool,
    pub texture_interpolation: TextureInterpolation,
}

impl Default for Settings {
    fn default() -> (r: Self)
        ensures
            !r.simple_materials,
            !r.allow_culling,
            !r.editor_materials,
            r.texture_interpolation == TextureInterpolation::Linear,
    {
        Settings {
            simple_materials: false,
            allow_culling: false,
            editor_materials: false,
            texture_interpolation: TextureInterpolation::Linear,
        }
    }
}

} // verus!
