//! Field metadata for string-based query parsing: the semantic type of each
//! schema field and the capability trait a record type implements to expose
//! its queryable fields.

use vstd::prelude::*;

use crate::value::Op;

verus! {

/// The semantic type of a seekable field. It determines how literal values
/// are parsed and which operators are legal.
#[derive(Debug, Clone, Copy, PartialEq, Eq, Hash, Structural)]
pub enum SeekType {
    /// String field - supports text comparison operators.
    String,
    /// Numeric field - supports ordering comparisons.
    Number,
    /// Timestamp field - supports temporal comparisons.
    Timestamp,
    /// Enum field - supports equality and set membership.
    Enum,
    /// Boolean field - supports equality checks.
    Bool,
}

/// The operator compatibility table:
///
/// | Type | Valid operators |
/// |---|---|
/// | String | Eq, Ne, StartsWith, EndsWith, Contains, Regex |
/// | Number | Eq, Ne, Gt, Gte, Lt, Lte |
/// | Timestamp | Eq, Ne, Before, After, Gt, Gte, Lt, Lte |
/// | Enum | Eq, Ne, In |
/// | Bool | Eq, Is |
pub open spec fn spec_valid_operator(t: SeekType, op: Op) -> bool {
    match t {
        SeekType::String => op == Op::Eq || op == Op::Ne || op == Op::StartsWith || op
            == Op::EndsWith || op == Op::Contains || op == Op::Regex,
        SeekType::Number => op == Op::Eq || op == Op::Ne || op == Op::Gt || op == Op::Gte || op
            == Op::Lt || op == Op::Lte,
        SeekType::Timestamp => op == Op::Eq || op == Op::Ne || op == Op::Before || op == Op::After
            || op == Op::Gt || op == Op::Gte || op == Op::Lt || op == Op::Lte,
        SeekType::Enum => op == Op::Eq || op == Op::Ne || op == Op::In,
        SeekType::Bool => op == Op::Eq || op == Op::Is,
    }
}

/// The operator used when a query key carries none: `Is` for boolean fields,
/// `Eq` for every other type.
pub open spec fn spec_default_operator(t: SeekType) -> Op {
    match t {
        SeekType::Bool => Op::Is,
        _ => Op::Eq,
    }
}

/// Human-readable name of each field type.
pub open spec fn spec_seek_type_name(t: SeekType) -> Seq<char> {
    match t {
        SeekType::String => "string"@,
        SeekType::Number => "number"@,
        SeekType::Timestamp => "timestamp"@,
        SeekType::Enum => "enum"@,
        SeekType::Bool => "boolean"@,
    }
}

impl SeekType {
    /// Returns the default operator for this field type, used when a query
    /// key doesn't include an explicit operator.
    pub fn default_operator(self) -> (r: Op)
        ensures
            r == spec_default_operator(self),
    {
        match self {
            SeekType::String => Op::Eq,
            SeekType::Number => Op::Eq,
            SeekType::Timestamp => Op::Eq,
            SeekType::Enum => Op::Eq,
            SeekType::Bool => Op::Is,
        }
    }

    /// Returns `true` iff the given operator is valid for this field type,
    /// exactly per the compatibility table.
    pub fn is_valid_operator(self, op: Op) -> (r: bool)
        ensures
            r == spec_valid_operator(self, op),
    {
        match self {
            SeekType::String => match op {
                Op::Eq | Op::Ne | Op::StartsWith | Op::EndsWith | Op::Contains | Op::Regex => true,
                _ => false,
            },
            SeekType::Number => match op {
                Op::Eq | Op::Ne | Op::Gt | Op::Gte | Op::Lt | Op::Lte => true,
                _ => false,
            },
            SeekType::Timestamp => match op {
                Op::Eq | Op::Ne | Op::Before | Op::After | Op::Gt | Op::Gte | Op::Lt | Op::Lte =>
                    true,
                _ => false,
            },
            SeekType::Enum => match op {
                Op::Eq | Op::Ne | Op::In => true,
                _ => false,
            },
            SeekType::Bool => match op {
                Op::Eq | Op::Is => true,
                _ => false,
            },
        }
    }

    /// Returns a human-readable name for this type.
    pub fn as_str(self) -> (r: &'static str)
        ensures
            r@ == spec_seek_type_name(self),
    {
        match self {
            SeekType::String => "string",
            SeekType::Number => "number",
            SeekType::Timestamp => "timestamp",
            SeekType::Enum => "enum",
            SeekType::Bool => "boolean",
        }
    }
}

/// The default operator of every field type is valid for that type, so a
/// key without an operator suffix always passes operator validation.
pub proof fn lemma_default_operator_valid(t: SeekType)
    ensures
        spec_valid_operator(t, spec_default_operator(t)),
{
}

/// Capability trait providing field metadata for string-based query parsing,
/// implemented once per queryable record type.
pub trait SeekerSchema {
    /// Returns the type of a field, or `None` if the field doesn't exist.
    fn field_type(field: &str) -> Option<SeekType>;

    /// Returns all queryable field names, for validation error messages.
    fn field_names() -> Vec<String>;

    /// Resolves an enum variant name to its discriminant value. The default
    /// recognizes none, so only numeric discriminants parse.
    fn resolve_enum_variant(field: &str, variant: &str) -> Option<u32> {
        None
    }
}

} // verus!
