//! Scalar values, field types, operators and the views handed to callers.

use vstd::prelude::*;

verus! {

/// Handle of a fact in working memory.
pub type FactId = u32;

/// Index of a declared fact type.
pub type TypeId = u32;

/// A field value. `Dec { u, s }` is the exact decimal `u / 10^s`.
#[derive(Clone, Debug, PartialEq)]
pub enum Value {
    I64(i64),
    Str(String),
    Bool(bool),
    Null,
    Dec { u: i128, s: u8 },
}

impl Value {
    /// The SQL-style null.
    pub open spec fn spec_is_null(&self) -> bool {
        self is Null
    }

    /// Whether this is the null value.
    #[verifier::when_used_as_spec(spec_is_null)]
    pub fn is_null(&self) -> (r: bool)
        ensures
            r == self.spec_is_null(),
    {
        match self {
            Value::Null => true,
            _ => false,
        }
    }

    /// A copy that Verus knows is equal to this value.
    pub fn duplicate(&self) -> (r: Value)
        ensures
            r == *self,
    {
        match self {
            Value::I64(n) => Value::I64(*n),
            Value::Str(s) => Value::Str(s.clone()),
            Value::Bool(b) => Value::Bool(*b),
            Value::Null => Value::Null,
            Value::Dec { u, s } => Value::Dec { u: *u, s: *s },
        }
    }
}

/// Declared type of a field. `Double` is the IEEE double type tag; `Dec`
/// is `DECIMAL(p, s)`.
#[derive(Clone, Copy, Debug, PartialEq, Eq, Structural)]
pub enum FieldType {
    I64,
    Double,
    Str,
    Bool,
    Dec { p: u8, s: u8 },
}

/// Comparison operators of the constraint language.
#[derive(Clone, Copy, Debug, PartialEq, Eq, Structural)]
pub enum CmpOp {
    Eq,
    Ne,
    Lt,
    Le,
    Gt,
    Ge,
}

/// A literal written in a rule.
#[derive(Clone, Debug, PartialEq)]
pub enum Literal {
    I64(i64),
    Str(String),
    Bool(bool),
    Null,
}

/// Rendering of one fact (or a boxed scalar) for callers.
#[derive(Debug, PartialEq)]
pub struct FactView {
    pub type_label: String,
    pub fields: Vec<(String, Value)>,
    pub handle: u32,
    pub elems: Option<Vec<Option<FactView>>>,
}

/// An error raised by the engine, with its message.
#[derive(Clone, Debug, PartialEq)]
pub struct EngineError(pub String);

/// One rule firing: the rule's name and the rendered matched facts.
#[derive(Debug, PartialEq)]
pub struct Firing {
    pub rule: String,
    pub matches: Vec<FactView>,
}

/// One support of a logically inserted fact: the activation (rule and
/// fired tuple) and its creation order.
#[derive(Clone, Debug)]
pub struct SupportView {
    pub rule: String,
    pub tuple: Vec<FactId>,
    pub seq: u64,
}

/// What supports a fact, and which stated facts share its equality key.
#[derive(Debug)]
pub struct JustificationView {
    pub fact: FactId,
    pub rendering: FactView,
    pub supports: Vec<SupportView>,
    pub stated_siblings: Vec<FactId>,
}

} // verus!
