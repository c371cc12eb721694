//! The kinds of typed values, and the value and descriptor types for
//! positional arguments.

use vstd::prelude::*;
use vstd::string::*;
use crate::error::ErrorView;
use crate::error::ParseErrorKind;
use crate::error::ParserError;
use crate::value::TypedValue;
use crate::value::check_float_text;
use crate::value::parse_bool_text;
use crate::value::parse_int_text;
use crate::value::i32_to_text;
use crate::value::spec_is_float_text;
use crate::value::spec_parse_int;
use crate::value::spec_parse_value;

verus! {

/// The kinds of values an option or a positional argument can carry.
#[derive(Clone, Copy, PartialEq, Eq, Structural, Debug)]
pub enum ArgType {
    Bool,
    Str,
    Int,
    Float,
}

impl ArgType {
    /// The spec-level tag naming this kind.
    pub open spec fn spec_tag(self) -> Seq<char> {
        match self {
            ArgType::Bool => "boolean"@,
            ArgType::Str => "string"@,
            ArgType::Int => "integer"@,
            ArgType::Float => "float"@,
        }
    }

    /// The lower-case tag naming this kind in messages and help listings.
    pub fn tag(&self) -> (r: &'static str)
        ensures
            r@ == self.spec_tag(),
    {
        match self {
            ArgType::Bool => "boolean",
            ArgType::Str => "string",
            ArgType::Int => "integer",
            ArgType::Float => "float",
        }
    }
}

/// A typed argument value.  A float value carries its text;
/// reading it as machine floating point is left to the caller.
pub enum ArgValue {
    Bool { value: bool },
    Str { value: String },
    Int { value: i32 },
    Float { text: String },
}

impl View for ArgValue {
    type V = TypedValue;

    open spec fn view(&self) -> TypedValue {
        match self {
            ArgValue::Bool { value } => TypedValue::Bool { value: *value },
            ArgValue::Str { value } => TypedValue::Str { value: value@ },
            ArgValue::Int { value } => TypedValue::Int { value: *value as int },
            ArgValue::Float { text } => TypedValue::Float { text: text@ },
        }
    }
}

impl ArgValue {
    /// Parse an argument value of the given kind from text.
    pub fn parse(arg_type: &ArgType, input: &str) -> (r: Result<ArgValue, ParserError>)
        ensures
            match spec_parse_value(*arg_type, input@) {
                Some(tv) => r matches Ok(av) && av@ == tv,
                None => r matches Err(e) && e@ == (ErrorView::InvalidValue {
                    raw: input@,
                    expected: *arg_type,
                }),
            },
    {
        match arg_type {
            ArgType::Bool => match parse_bool_text(input) {
                Some(b) => Ok(ArgValue::Bool { value: b }),
                None => Err(
                    ParserError {
                        kind: ParseErrorKind::InvalidValue {
                            raw: String::from_str(input),
                            expected: ArgType::Bool,
                        },
                    },
                ),
            },
            ArgType::Str => Ok(ArgValue::Str { value: String::from_str(input) }),
            ArgType::Int => match parse_int_text(input) {
                Some(v) => Ok(ArgValue::Int { value: v }),
                None => Err(
                    ParserError {
                        kind: ParseErrorKind::InvalidValue {
                            raw: String::from_str(input),
                            expected: ArgType::Int,
                        },
                    },
                ),
            },
            ArgType::Float => if check_float_text(input) {
                Ok(ArgValue::Float { text: String::from_str(input) })
            } else {
                Err(
                    ParserError {
                        kind: ParseErrorKind::InvalidValue {
                            raw: String::from_str(input),
                            expected: ArgType::Float,
                        },
                    },
                )
            },
        }
    }

    /// Get the boolean typed value.
    pub fn bool(&self) -> (r: Option<bool>)
        ensures
            r == (match self@ {
                TypedValue::Bool { value } => Some(value),
                _ => None::<bool>,
            }),
    {
        match self {
            ArgValue::Bool { value } => Some(*value),
            _ => None,
        }
    }

    /// Get the string typed value.
    pub fn str(&self) -> (r: Option<&String>)
        ensures
            match self@ {
                TypedValue::Str { value } => r matches Some(s) && s@ == value,
                _ => r is None,
            },
    {
        match self {
            ArgValue::Str { value } => Some(value),
            _ => None,
        }
    }

    /// Get the integer typed value.
    pub fn int_value(&self) -> (r: Option<i32>)
        ensures
            match self@ {
                TypedValue::Int { value } => r matches Some(v) && v as int == value,
                _ => r is None,
            },
    {
        match self {
            ArgValue::Int { value } => Some(*value),
            _ => None,
        }
    }

    /// Get the text of a float typed value.
    pub fn float_text(&self) -> (r: Option<&String>)
        ensures
            match self@ {
                TypedValue::Float { text } => r matches Some(s) && s@ == text,
                _ => r is None,
            },
    {
        match self {
            ArgValue::Float { text } => Some(text),
            _ => None,
        }
    }

    /// Format the value as text.  The result parses back to the same
    /// value; a float does so when its stored text is well-formed.
    pub fn to_text(&self) -> (r: String)
        ensures
            self@ matches TypedValue::Bool { value } ==> r@ == (if value {
                "true"@
            } else {
                "false"@
            }),
            self@ matches TypedValue::Str { value } ==> r@ == value,
            self@ matches TypedValue::Int { value } ==> spec_parse_int(r@) == Some(value),
            self@ matches TypedValue::Float { text } ==> r@ == text,
            !(self@ is Float) ==> spec_parse_value(self@.kind(), r@) == Some(self@),
            (self@ matches TypedValue::Float { text } && spec_is_float_text(text))
                ==> spec_parse_value(self@.kind(), r@) == Some(self@),
    {
        proof {
            reveal_strlit("true");
            reveal_strlit("false");
        }
        match self {
            ArgValue::Bool { value } => if *value {
                String::from_str("true")
            } else {
                String::from_str("false")
            },
            ArgValue::Str { value } => value.clone(),
            ArgValue::Int { value } => i32_to_text(*value),
            ArgValue::Float { text } => text.clone(),
        }
    }
}

/// Spec-level description of a declared positional argument.
pub struct ArgDescriptorView {
    pub kind: ArgType,
    pub description: Seq<char>,
}

/// Descriptor for an anticipated positional argument.
pub struct ArgDescriptor {
    value_type: ArgType,
    description: String,
}

impl View for ArgDescriptor {
    type V = ArgDescriptorView;

    closed spec fn view(&self) -> ArgDescriptorView {
        ArgDescriptorView { kind: self.value_type, description: self.description@ }
    }
}

impl ArgDescriptor {
    /// Create a new argument descriptor.
    pub fn new(value_type: ArgType, description: &str) -> (r: Self)
        ensures
            r@ == (ArgDescriptorView { kind: value_type, description: description@ }),
    {
        ArgDescriptor { value_type, description: String::from_str(description) }
    }

    /// Get the kind of the argument value.
    pub fn value_type(&self) -> (r: &ArgType)
        ensures
            *r == self@.kind,
    {
        &self.value_type
    }

    /// Get the description of the argument.
    pub fn description(&self) -> (r: &String)
        ensures
            r@ == self@.description,
    {
        &self.description
    }
}

} // verus!
