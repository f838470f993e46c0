//! Schemas that object notation values can be held to.
use vstd::prelude::*;
use crate::object::Number;

verus! {

/// `regex::Regex`, the pattern of a key or a string.
#[verifier::external_type_specification]
#[verifier::external_body]
pub struct ExRegex(regex::Regex);

/// The keys that a map entry of a schema applies to.
#[derive(Debug)]
pub struct KeySpec {
    pub is_optional: bool,
    pub pattern: regex::Regex,
}

/// A schema for object notation values.
///
/// A range is end-exclusive.
#[derive(Debug)]
pub enum ObjectSpec {
    Any,
    Null,
    Bool,
    True,
    False,
    Number,
    Range { start: Number, end: Number },
    String,
    ExactString(String),
    Pattern(regex::Regex),
    List { ty: Box<ObjectSpec> },
    SizedList { ty: Box<ObjectSpec>, length: usize },
    Tuple { slots: Vec<ObjectSpec> },
    Mapping(Vec<(KeySpec, ObjectSpec)>),
    Union(Vec<ObjectSpec>),
}

impl ObjectSpec {
    /// Either of two schemas.
    pub fn or(self, rhs: ObjectSpec) -> (r: ObjectSpec)
        ensures
            r matches ObjectSpec::Union(v) && v@ == seq![self, rhs],
    {
        let mut v: Vec<ObjectSpec> = Vec::new();
        v.push(self);
        v.push(rhs);
        assert(v@ =~= seq![self, rhs]);
        ObjectSpec::Union(v)
    }

    /// The schema, or null.
    pub fn nullable(self) -> (r: ObjectSpec)
        ensures
            r matches ObjectSpec::Union(v) && v@ == seq![self, ObjectSpec::Null],
    {
        self.or(ObjectSpec::Null)
    }
}

} // verus!
