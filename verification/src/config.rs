use vstd::prelude::*;

verus! {
/// The default width and height of an entity in a configuration, in pixels.
pub fn eight() -> (r: u32)
    ensures
        r == 8,
{
    8
}

/// How the pencil tool places an entity.
#[derive(Debug, Copy, Clone, PartialEq, Eq, Structural)]
pub enum PencilBehavior {
    Line,
    Node,
    Rect,
}

impl Default for PencilBehavior {
    /// Entities are drawn as lines unless configured otherwise.
    fn default() -> (r: Self)
        ensures
            r == PencilBehavior::Line,
    {
        PencilBehavior::Line
    }
}

/// The kind of value an entity attribute holds.
#[derive(Debug, Copy, Clone, PartialEq, Eq, Structural)]
pub enum AttributeType {
    String,
    Float,
    Int,
    Bool,
}

/// The value of an entity attribute in a configuration; a float is held by
/// its IEEE 754 bits.
#[derive(Clone, Debug, PartialEq)]
pub enum AttributeValue {
    String(String),
    Float(u32),
    Int(i32),
    Bool(bool),
}

impl AttributeValue {
    /// The kind of this value.
    pub fn ty(&self) -> (r: AttributeType)
        ensures
            r == match *self {
                AttributeValue::String(_) => AttributeType::String,
                AttributeValue::Float(_) => AttributeType::Float,
                AttributeValue::Int(_) => AttributeType::Int,
                AttributeValue::Bool(_) => AttributeType::Bool,
            },
    {
        match self {
            AttributeValue::String(_) => AttributeType::String,
            AttributeValue::Float(_) => AttributeType::Float,
            AttributeValue::Int(_) => AttributeType::Int,
            AttributeValue::Bool(_) => AttributeType::Bool,
        }
    }
}

/// The empty value of a kind: the empty text, zero, or `false`.
pub fn default_value(ty: &AttributeType) -> (r: AttributeValue)
    ensures
        match *ty {
            AttributeType::String => r matches AttributeValue::String(t) && t@.len() == 0,
            AttributeType::Float => r == AttributeValue::Float(0),
            AttributeType::Int => r == AttributeValue::Int(0),
            AttributeType::Bool => r == AttributeValue::Bool(false),
        },
{
    match ty {
        AttributeType::String => AttributeValue::String(String::new()),
        AttributeType::Float => AttributeValue::Float(0),
        AttributeType::Int => AttributeValue::Int(0),
        AttributeType::Bool => AttributeValue::Bool(false),
    }
}

/// Whether every value of kind `a` can be held as kind `b`: a kind holds
/// itself, a float holds an integer, and text holds anything.
pub open spec fn holds(a: AttributeType, b: AttributeType) -> bool {
    a == b || b == AttributeType::String || (a == AttributeType::Int && b == AttributeType::Float)
}

/// The kind that two suggestions for an attribute settle on.
pub open spec fn spec_type_meet(a: AttributeType, b: AttributeType) -> AttributeType {
    match (a, b) {
        (AttributeType::String, _) => AttributeType::String,
        (_, AttributeType::String) => AttributeType::String,
        (AttributeType::Float, AttributeType::Float) => AttributeType::Float,
        (AttributeType::Float, AttributeType::Int) => AttributeType::Float,
        (AttributeType::Int, AttributeType::Float) => AttributeType::Float,
        (AttributeType::Int, AttributeType::Int) => AttributeType::Int,
        (AttributeType::Bool, AttributeType::Bool) => AttributeType::Bool,
        _ => AttributeType::String,
    }
}

/// The kind that two suggestions for an attribute settle on: the same
/// kind, a float for an integer and a float, and text for anything else.
pub fn type_meet(a: &AttributeType, b: &AttributeType) -> (r: AttributeType)
    ensures
        r == spec_type_meet(*a, *b),
{
    match (a, b) {
        (AttributeType::String, AttributeType::String) => AttributeType::String,
        (AttributeType::String, AttributeType::Int) => AttributeType::String,
        (AttributeType::String, AttributeType::Float) => AttributeType::String,
        (AttributeType::String, AttributeType::Bool) => AttributeType::String,
        (AttributeType::Float, AttributeType::Float) => AttributeType::Float,
        (AttributeType::Float, AttributeType::Bool) => AttributeType::String,
        (AttributeType::Float, AttributeType::Int) => AttributeType::Float,
        (AttributeType::Float, AttributeType::String) => AttributeType::String,
        (AttributeType::Bool, AttributeType::Bool) => AttributeType::Bool,
        (AttributeType::Bool, AttributeType::Int) => AttributeType::String,
        (AttributeType::Bool, AttributeType::String) => AttributeType::String,
        (AttributeType::Bool, AttributeType::Float) => AttributeType::String,
        (AttributeType::Int, AttributeType::Int) => AttributeType::Int,
        (AttributeType::Int, AttributeType::Float) => AttributeType::Float,
        (AttributeType::Int, AttributeType::String) => AttributeType::String,
        (AttributeType::Int, AttributeType::Bool) => AttributeType::String,
    }
}

/// Settling two suggestions is the least kind that holds both: it holds
/// each, and any kind that holds both holds it.
pub proof fn law_type_meet_least_bound(a: AttributeType, b: AttributeType, c: AttributeType)
    ensures
        holds(a, spec_type_meet(a, b)),
        holds(b, spec_type_meet(a, b)),
        holds(a, c) && holds(b, c) ==> holds(spec_type_meet(a, b), c),
{
}

/// The order of suggestions does not matter: settling is commutative,
/// associative and settles a kind with itself on that kind.
pub proof fn law_type_meet_order_free(a: AttributeType, b: AttributeType, c: AttributeType)
    ensures
        spec_type_meet(a, b) == spec_type_meet(b, a),
        spec_type_meet(spec_type_meet(a, b), c) == spec_type_meet(a, spec_type_meet(b, c)),
        spec_type_meet(a, a) == a,
{
}

} // verus!
