use vstd::prelude::*;

verus! {

/// A Thrift type as written in a field, a parameter or a return position.
#[derive(Debug, PartialEq, Eq)]
pub enum ThriftType {
    Void,
    String,
    I16,
    I32,
    I64,
    Double,
    Bool,
    List(Box<ThriftType>),
    MapOf(Box<ThriftType>, Box<ThriftType>),
    /// A (possibly dotted) type name, kept verbatim.
    Named(String),
}

/// A comment captured by the parser: a `//` line, or a `/* */` block split
/// into trimmed lines.
#[derive(Debug, Clone, PartialEq, Eq)]
pub enum Comment {
    Line(String),
    Block(Vec<String>),
}

#[derive(Debug, Clone, Copy, PartialEq, Eq)]
pub enum Requiredness {
    Optional,
    Required,
    Unspecified,
}

/// One `name = "value"` pair of an annotation list.
#[derive(Debug, Clone, PartialEq, Eq)]
pub struct Annotation {
    pub name: String,
    pub value: String,
}

/// A field of a struct, or a parameter of a function. `id` keeps the digits
/// as written; `annotations` is empty when the source has none.
#[derive(Debug, PartialEq, Eq)]
pub struct FieldDefinition {
    pub id: String,
    pub requiredness: Requiredness,
    pub field_type: ThriftType,
    pub name: String,
    pub annotations: Vec<Annotation>,
    pub comments: Vec<Comment>,
}

/// A member of an enum; `initializer` keeps the digits as written.
#[derive(Debug, Clone, PartialEq, Eq)]
pub struct EnumMember {
    pub name: String,
    pub initializer: Option<String>,
    pub comments: Vec<Comment>,
}

#[derive(Debug, PartialEq, Eq)]
pub struct FunctionDefinition {
    pub return_type: ThriftType,
    pub name: String,
    pub fields: Vec<FieldDefinition>,
    pub annotations: Vec<Annotation>,
    pub comments: Vec<Comment>,
}

#[derive(Debug, Clone, PartialEq, Eq)]
pub struct NamespaceDefinition {
    pub scope: String,
    pub name: String,
}

#[derive(Debug, Clone, PartialEq, Eq)]
pub struct IncludeDefinition {
    pub path: String,
}

#[derive(Debug, PartialEq, Eq)]
pub struct StructDefinition {
    pub name: String,
    pub fields: Vec<FieldDefinition>,
    pub comments: Vec<Comment>,
}

#[derive(Debug, Clone, PartialEq, Eq)]
pub struct EnumDefinition {
    pub name: String,
    pub members: Vec<EnumMember>,
    pub comments: Vec<Comment>,
}

#[derive(Debug, PartialEq, Eq)]
pub struct ServiceDefinition {
    pub name: String,
    pub functions: Vec<FunctionDefinition>,
    pub comments: Vec<Comment>,
}

#[derive(Debug, PartialEq, Eq)]
pub enum TopDefinition {
    Namespace(NamespaceDefinition),
    Include(IncludeDefinition),
    Struct(StructDefinition),
    Enum(EnumDefinition),
    Service(ServiceDefinition),
}

/// A parsed IDL file: its top-level definitions in source order.
#[derive(Debug, PartialEq, Eq)]
pub struct ThriftDocument {
    pub body: Vec<TopDefinition>,
}

} // verus!
