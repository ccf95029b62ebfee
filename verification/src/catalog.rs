//! The tools of the host.
use vstd::prelude::*;
use crate::text::strs;

verus! {

/// What kind of value a parameter takes.
#[derive(Debug, Clone, Copy, PartialEq, Eq, Structural)]
pub enum ParamType {
    Text,
    Integer,
    Number,
    Boolean,
    Array,
    Object,
}

impl ParamType {
    /// The name of the kind.
    pub open spec fn label(self) -> Seq<char> {
        match self {
            ParamType::Text => "string"@,
            ParamType::Integer => "integer"@,
            ParamType::Number => "number"@,
            ParamType::Boolean => "boolean"@,
            ParamType::Array => "array"@,
            ParamType::Object => "object"@,
        }
    }

    /// The name of the kind.
    pub fn text(self) -> (r: &'static str)
        ensures
            r@ == self.label(),
    {
        match self {
            ParamType::Text => "string",
            ParamType::Integer => "integer",
            ParamType::Number => "number",
            ParamType::Boolean => "boolean",
            ParamType::Array => "array",
            ParamType::Object => "object",
        }
    }
}

/// A parameter of a tool.
#[derive(Debug)]
pub struct ParamDef {
    pub name: String,
    pub param_type: ParamType,
    pub description: String,
    pub required: bool,
}

/// A parameter of a tool, as mathematics has it.
pub struct Param {
    pub name: Seq<char>,
    pub kind: ParamType,
    pub description: Seq<char>,
    pub required: bool,
}

impl View for ParamDef {
    type V = Param;

    open spec fn view(&self) -> Param {
        Param {
            name: self.name@,
            kind: self.param_type,
            description: self.description@,
            required: self.required,
        }
    }
}

impl ParamDef {
    /// A parameter.
    pub fn new(name: &str, param_type: ParamType, description: &str, required: bool) -> (r: Self)
        ensures
            r@ == (Param { name: name@, kind: param_type, description: description@, required }),
    {
        ParamDef { name: name.to_owned(), param_type, description: description.to_owned(), required }
    }
}

/// A tool.
#[derive(Debug)]
pub struct ToolDef {
    pub name: String,
    pub description: String,
    pub parameters: Vec<ParamDef>,
    pub category: Option<String>,
    pub keywords: Vec<String>,
}

/// A tool, as mathematics has it.
pub struct Tool {
    pub name: Seq<char>,
    pub description: Seq<char>,
    pub parameters: Seq<Param>,
    pub category: Option<Seq<char>>,
    pub keywords: Seq<Seq<char>>,
}

/// The parameters of a row.
pub open spec fn params(v: Seq<ParamDef>) -> Seq<Param> {
    v.map_values(|p: ParamDef| p@)
}

/// The tools of a row.
pub open spec fn tools(v: Seq<ToolDef>) -> Seq<Tool> {
    v.map_values(|t: ToolDef| t@)
}

impl View for ToolDef {
    type V = Tool;

    open spec fn view(&self) -> Tool {
        Tool {
            name: self.name@,
            description: self.description@,
            parameters: params(self.parameters@),
            category: match self.category {
                Some(c) => Some(c@),
                None => None,
            },
            keywords: strs(self.keywords@),
        }
    }
}

/// The types of parameters go by the names that JSON Schema has for them.
pub proof fn law_type_names()
    ensures
        ParamType::Text.label() == "string"@,
        ParamType::Integer.label() == "integer"@,
        ParamType::Number.label() == "number"@,
        ParamType::Boolean.label() == "boolean"@,
        ParamType::Array.label() == "array"@,
        ParamType::Object.label() == "object"@,
{
}

} // verus!
