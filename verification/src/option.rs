//! The value, type-with-default and descriptor types for options.

use vstd::prelude::*;
use vstd::string::*;
use crate::arg::ArgType;
use crate::error::ErrorView;
use crate::error::ParseErrorKind;
use crate::error::ParserError;
use crate::text::str_eq;
use crate::value::TypedValue;
use crate::value::check_float_text;
use crate::value::parse_bool_text;
use crate::value::parse_int_text;
use crate::value::i32_to_text;
use crate::value::spec_is_float_text;
use crate::value::spec_parse_int;
use crate::value::spec_parse_value;

verus! {

/// The kind of an option's value together with its declared default.
/// A float default carries its text; the text is not validated here.
pub enum OptionType {
    Bool { default: bool },
    Str { default: String },
    Int { default: i32 },
    Float { default: String },
}

impl View for OptionType {
    type V = TypedValue;

    /// An option type is modelled by its default typed value; the kind
    /// is the kind of that value.
    open spec fn view(&self) -> TypedValue {
        match self {
            OptionType::Bool { default } => TypedValue::Bool { value: *default },
            OptionType::Str { default } => TypedValue::Str { value: default@ },
            OptionType::Int { default } => TypedValue::Int { value: *default as int },
            OptionType::Float { default } => TypedValue::Float { text: default@ },
        }
    }
}

impl OptionType {
    /// The kind of value this option expects.
    pub fn kind(&self) -> (r: ArgType)
        ensures
            r == self@.kind(),
    {
        match self {
            OptionType::Bool { .. } => ArgType::Bool,
            OptionType::Str { .. } => ArgType::Str,
            OptionType::Int { .. } => ArgType::Int,
            OptionType::Float { .. } => ArgType::Float,
        }
    }
}

/// A typed option value.  A float value carries its text;
/// reading it as machine floating point is left to the caller.
pub enum OptionValue {
    Bool { value: bool },
    Str { value: String },
    Int { value: i32 },
    Float { text: String },
}

impl View for OptionValue {
    type V = TypedValue;

    open spec fn view(&self) -> TypedValue {
        match self {
            OptionValue::Bool { value } => TypedValue::Bool { value: *value },
            OptionValue::Str { value } => TypedValue::Str { value: value@ },
            OptionValue::Int { value } => TypedValue::Int { value: *value as int },
            OptionValue::Float { text } => TypedValue::Float { text: text@ },
        }
    }
}

impl OptionValue {
    /// Parse an option value of the given kind from text.
    pub fn parse(option_type: &OptionType, input: &str) -> (r: Result<OptionValue, ParserError>)
        ensures
            match spec_parse_value(option_type@.kind(), input@) {
                Some(tv) => r matches Ok(ov) && ov@ == tv,
                None => r matches Err(e) && e@ == (ErrorView::InvalidValue {
                    raw: input@,
                    expected: option_type@.kind(),
                }),
            },
    {
        match option_type {
            OptionType::Bool { .. } => match parse_bool_text(input) {
                Some(b) => Ok(OptionValue::Bool { value: b }),
                None => Err(
                    ParserError {
                        kind: ParseErrorKind::InvalidValue {
                            raw: String::from_str(input),
                            expected: ArgType::Bool,
                        },
                    },
                ),
            },
            OptionType::Str { .. } => Ok(OptionValue::Str { value: String::from_str(input) }),
            OptionType::Int { .. } => match parse_int_text(input) {
                Some(v) => Ok(OptionValue::Int { value: v }),
                None => Err(
                    ParserError {
                        kind: ParseErrorKind::InvalidValue {
                            raw: String::from_str(input),
                            expected: ArgType::Int,
                        },
                    },
                ),
            },
            OptionType::Float { .. } => if check_float_text(input) {
                Ok(OptionValue::Float { text: String::from_str(input) })
            } else {
                Err(
                    ParserError {
                        kind: ParseErrorKind::InvalidValue {
                            raw: String::from_str(input),
                            expected: ArgType::Float,
                        },
                    },
                )
            },
        }
    }

    /// Create an option value from the declared default.
    pub fn from_default(option_type: &OptionType) -> (r: OptionValue)
        ensures
            r@ == option_type@,
    {
        match option_type {
            OptionType::Bool { default } => OptionValue::Bool { value: *default },
            OptionType::Str { default } => OptionValue::Str { value: default.clone() },
            OptionType::Int { default } => OptionValue::Int { value: *default },
            OptionType::Float { default } => OptionValue::Float { text: default.clone() },
        }
    }

    /// Get the boolean typed value.
    pub fn bool(&self) -> (r: Option<bool>)
        ensures
            r == (match self@ {
                TypedValue::Bool { value } => Some(value),
                _ => None::<bool>,
            }),
    {
        match self {
            OptionValue::Bool { value } => Some(*value),
            _ => None,
        }
    }

    /// Get the string typed value.
    pub fn str(&self) -> (r: Option<&String>)
        ensures
            match self@ {
                TypedValue::Str { value } => r matches Some(s) && s@ == value,
                _ => r is None,
            },
    {
        match self {
            OptionValue::Str { value } => Some(value),
            _ => None,
        }
    }

    /// Get the integer typed value.
    pub fn int_value(&self) -> (r: Option<i32>)
        ensures
            match self@ {
                TypedValue::Int { value } => r matches Some(v) && v as int == value,
                _ => r is None,
            },
    {
        match self {
            OptionValue::Int { value } => Some(*value),
            _ => None,
        }
    }

    /// Get the text of a float typed value.
    pub fn float_text(&self) -> (r: Option<&String>)
        ensures
            match self@ {
                TypedValue::Float { text } => r matches Some(s) && s@ == text,
                _ => r is None,
            },
    {
        match self {
            OptionValue::Float { text } => Some(text),
            _ => None,
        }
    }

    /// Format the value as text.  The result parses back to the same
    /// value; a float does so when its stored text is well-formed.
    pub fn to_text(&self) -> (r: String)
        ensures
            self@ matches TypedValue::Bool { value } ==> r@ == (if value {
                "true"@
            } else {
                "false"@
            }),
            self@ matches TypedValue::Str { value } ==> r@ == value,
            self@ matches TypedValue::Int { value } ==> spec_parse_int(r@) == Some(value),
            self@ matches TypedValue::Float { text } ==> r@ == text,
            !(self@ is Float) ==> spec_parse_value(self@.kind(), r@) == Some(self@),
            (self@ matches TypedValue::Float { text } && spec_is_float_text(text))
                ==> spec_parse_value(self@.kind(), r@) == Some(self@),
    {
        proof {
            reveal_strlit("true");
            reveal_strlit("false");
        }
        match self {
            OptionValue::Bool { value } => if *value {
                String::from_str("true")
            } else {
                String::from_str("false")
            },
            OptionValue::Str { value } => value.clone(),
            OptionValue::Int { value } => i32_to_text(*value),
            OptionValue::Float { text } => text.clone(),
        }
    }
}

/// Spec-level description of a declared option: its canonical name,
/// its aliases, its default typed value and its description.
pub struct OptionDescriptorView {
    pub name: Seq<char>,
    pub aliases: Seq<Seq<char>>,
    pub default: TypedValue,
    pub description: Seq<char>,
}

impl OptionDescriptorView {
    /// The kind of value this option expects.
    pub open spec fn kind(self) -> ArgType {
        self.default.kind()
    }
}

/// Description of an anticipated option.
pub struct OptionDescriptor {
    name: String,
    aliases: Vec<String>,
    value_type: OptionType,
    description: String,
}

impl View for OptionDescriptor {
    type V = OptionDescriptorView;

    closed spec fn view(&self) -> OptionDescriptorView {
        OptionDescriptorView {
            name: self.name@,
            aliases: self.aliases.deep_view(),
            default: self.value_type@,
            description: self.description@,
        }
    }
}

impl OptionDescriptor {
    /// Create a new option descriptor, without aliases.
    pub fn new(name: &str, value_type: OptionType, description: &str) -> (r: Self)
        ensures
            r@ == (OptionDescriptorView {
                name: name@,
                aliases: Seq::<Seq<char>>::empty(),
                default: value_type@,
                description: description@,
            }),
    {
        let r = OptionDescriptor {
            name: String::from_str(name),
            aliases: Vec::new(),
            value_type,
            description: String::from_str(description),
        };
        proof {
            assert(r.aliases.deep_view() =~= Seq::<Seq<char>>::empty());
        }
        r
    }

    /// Get the canonical name of the option.
    pub fn name(&self) -> (r: &String)
        ensures
            r@ == self@.name,
    {
        &self.name
    }

    /// Get the type of the option value, with its default.
    pub fn value_type(&self) -> (r: &OptionType)
        ensures
            r@ == self@.default,
    {
        &self.value_type
    }

    /// Get the description of the option.
    pub fn description(&self) -> (r: &String)
        ensures
            r@ == self@.description,
    {
        &self.description
    }

    /// Add an alias to the option; a repeated alias is kept once.
    pub fn add_alias(self, alias: &str) -> (r: Self)
        ensures
            r@.name == self@.name,
            r@.default == self@.default,
            r@.description == self@.description,
            r@.aliases == (if self@.aliases.contains(alias@) {
                self@.aliases
            } else {
                self@.aliases.push(alias@)
            }),
    {
        let mut this = self;
        let mut i: usize = 0;
        let n = this.aliases.len();
        while i < n
            invariant
                0 <= i <= n,
                n == this.aliases@.len(),
                this == self,
                forall|j: int| 0 <= j < i ==> this.aliases.deep_view()[j] != alias@,
            decreases n - i,
        {
            if str_eq(this.aliases[i].as_str(), alias) {
                assert(self@.aliases.contains(alias@)) by {
                    assert(self.aliases.deep_view()[i as int] == alias@);
                }
                return this;
            }
            i = i + 1;
        }
        assert(!self@.aliases.contains(alias@)) by {
            if self@.aliases.contains(alias@) {
                let k = choose|k: int|
                    0 <= k < self@.aliases.len() && self@.aliases[k] == alias@;
                assert(self.aliases.deep_view()[k] == alias@);
            }
        }
        let owned = String::from_str(alias);
        this.aliases.push(owned);
        proof {
            assert(this.aliases.deep_view() =~= self.aliases.deep_view().push(alias@));
        }
        this
    }

    /// Get the aliases of the option.
    pub fn get_aliases(&self) -> (r: &Vec<String>)
        ensures
            r.deep_view() == self@.aliases,
    {
        &self.aliases
    }
}

/// The mapping entries of a name-to-value list, later entries winning.
pub open spec fn entries_map(s: Seq<(String, OptionValue)>) -> Map<Seq<char>, TypedValue>
    decreases s.len(),
{
    if s.len() == 0 {
        Map::empty()
    } else {
        entries_map(s.drop_last()).insert(s.last().0@, s.last().1@)
    }
}

/// An entry whose key no later entry repeats decides the mapping.
proof fn lemma_entries_map_found(s: Seq<(String, OptionValue)>, i: int, k: Seq<char>)
    requires
        0 <= i < s.len(),
        s[i].0@ == k,
        forall|j: int| i < j < s.len() ==> s[j].0@ != k,
    ensures
        entries_map(s).contains_key(k),
        entries_map(s)[k] == s[i].1@,
    decreases s.len(),
{
    if i < s.len() - 1 {
        assert(s.drop_last()[i] == s[i]);
        lemma_entries_map_found(s.drop_last(), i, k);
    }
}

/// A key no entry holds is not in the mapping.
proof fn lemma_entries_map_missing(s: Seq<(String, OptionValue)>, k: Seq<char>)
    requires
        forall|j: int| 0 <= j < s.len() ==> s[j].0@ != k,
    ensures
        !entries_map(s).contains_key(k),
    decreases s.len(),
{
    if s.len() > 0 {
        assert(forall|j: int| 0 <= j < s.drop_last().len() ==> s.drop_last()[j].0@ != k);
        lemma_entries_map_missing(s.drop_last(), k);
    }
}

/// The fully populated mapping from option names to their resolved
/// values, handed to the consumer.  It is modelled as a map from name
/// text to typed value.
pub struct OptionValueLookup {
    entries: Vec<(String, OptionValue)>,
}

impl View for OptionValueLookup {
    type V = Map<Seq<char>, TypedValue>;

    closed spec fn view(&self) -> Map<Seq<char>, TypedValue> {
        entries_map(self.entries@)
    }
}

impl OptionValueLookup {
    /// Create an empty lookup.
    pub fn new() -> (r: Self)
        ensures
            r@ == Map::<Seq<char>, TypedValue>::empty(),
    {
        OptionValueLookup { entries: Vec::new() }
    }

    /// Add a value under a name; a later entry wins over an earlier one.
    pub fn insert(&mut self, name: String, value: OptionValue)
        ensures
            final(self)@ == old(self)@.insert(name@, value@),
    {
        let ghost gname = name@;
        let ghost gvalue = value@;
        self.entries.push((name, value));
        proof {
            assert(self.entries@.drop_last() =~= old(self).entries@);
            assert(self.entries@.last().0@ == gname);
            assert(self.entries@.last().1@ == gvalue);
        }
    }

    /// Look a name up.
    #[verifier::loop_isolation(false)]
    pub fn get(&self, name: &str) -> (r: Option<&OptionValue>)
        ensures
            match r {
                Some(v) => self@.contains_key(name@) && v@ == self@[name@],
                None => !self@.contains_key(name@),
            },
    {
        let n = self.entries.len();
        let mut i: usize = n;
        while i > 0
            invariant
                i <= n,
                forall|j: int| i <= j < n ==> self.entries@[j].0@ != name@,
            decreases i,
        {
            i = i - 1;
            if str_eq(self.entries[i].0.as_str(), name) {
                proof {
                    lemma_entries_map_found(self.entries@, i as int, name@);
                }
                return Some(&self.entries[i].1);
            }
        }
        proof {
            lemma_entries_map_missing(self.entries@, name@);
        }
        None
    }
}

} // verus!
