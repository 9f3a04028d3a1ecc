//! Naming rules, identifier casing and the legalization of JSON keys.
use vstd::prelude::*;
use vstd::std_specs::convert::FromSpecImpl;
use convert_case::Casing;
use crate::generators::dart_generator::FieldType;
use crate::json::{Json, JsonValue, entry_models, item_models};
use crate::text::{
    alphanumeric_char, keep_alphanumeric, only_alphanumeric, strip_leading_non_alphabetic,
    without_leading_non_alphabetic,
};

pub mod builder_laws;
pub mod class_builder;
pub mod class_equality;
pub mod class_model;
pub mod class_namer;
pub mod class_tree;
pub mod dart_generator;
pub mod dart_source;
pub mod document_laws;
pub mod naming_laws;
pub mod shape_laws;
pub mod tree_laws;

verus! {

/// The casing an identifier is written in.
#[derive(Clone, Copy, Debug, PartialEq, Eq, Structural)]
pub enum Case {
    Camel,
    Pascal,
    Snake,
    Kebab,
}

/// The convention by which a generated serializer derives the JSON key of a
/// field from the field's identifier.
#[derive(Clone, Copy, Debug, PartialEq, Eq, Structural)]
pub enum NamingRule {
    NoRule,
    Snake,
    Pascal,
    Kebab,
}

impl NamingRule {
    /// The casing that the rule writes JSON keys in. Without a rule, keys
    /// are taken to be in snake case.
    pub open spec fn case(self) -> Case {
        match self {
            NamingRule::NoRule => Case::Snake,
            NamingRule::Snake => Case::Snake,
            NamingRule::Pascal => Case::Pascal,
            NamingRule::Kebab => Case::Kebab,
        }
    }
}

impl From<NamingRule> for Case {
    fn from(rule: NamingRule) -> (case: Case) {
        match rule {
            NamingRule::NoRule => Case::Snake,
            NamingRule::Snake => Case::Snake,
            NamingRule::Pascal => Case::Pascal,
            NamingRule::Kebab => Case::Kebab,
        }
    }
}

impl FromSpecImpl<NamingRule> for Case {
    open spec fn obeys_from_spec() -> bool {
        true
    }

    open spec fn from_spec(rule: NamingRule) -> Case {
        rule.case()
    }
}

/// The text that `convert_case` makes of `text` in the given casing: the
/// words of `text`, split at its default boundaries, rewritten and joined
/// as the casing prescribes.
pub uninterp spec fn cased_text(text: Seq<char>, case: Case) -> Seq<char>;

/// `Casing::to_case` of `convert_case`, called with the casing of the same
/// name. The conversion is a function of the text and the casing alone;
/// the library refers to its result as `cased_text`.
#[verifier::external_body]
pub(crate) fn to_case(text: &str, case: Case) -> (out: String)
    ensures
        out@ == cased_text(text@, case),
{
    match case {
        Case::Camel => text.to_case(convert_case::Case::Camel),
        Case::Pascal => text.to_case(convert_case::Case::Pascal),
        Case::Snake => text.to_case(convert_case::Case::Snake),
        Case::Kebab => text.to_case(convert_case::Case::Kebab),
    }
}

/// The legal identifier made of `name`: the leading run of non-alphabetic
/// characters goes, the rest is put in the casing, and of that only the
/// alphanumeric characters stay.
pub open spec fn legal_text(name: Seq<char>, case: Case) -> Seq<char> {
    only_alphanumeric(cased_text(without_leading_non_alphabetic(name), case))
}

/// Turns an arbitrary key into an identifier in the given casing. Every
/// character of the identifier is alphanumeric.
pub fn to_legal_case(name: &str, case: Case) -> (out: String)
    ensures
        out@ == legal_text(name@, case),
        forall|i: int| 0 <= i < out@.len() ==> alphanumeric_char(#[trigger] out@[i]),
{
    let trimmed = strip_leading_non_alphabetic(name);
    let cased = to_case(trimmed.as_str(), case);
    keep_alphanumeric(cased.as_str())
}

/// Why no classes could be generated from a document.
#[derive(Debug)]
pub enum ClassError {
    /// The text is not a JSON document; the decoder says why.
    MalformedInput(serde_json::Error),
    /// A number is kept neither as a 64-bit integer nor as a double.
    UnclassifiableNumber,
    /// Nothing is left of a key when it is made an identifier, or the
    /// name of a class. Such a document is refused as a whole.
    EmptyLegalizedIdentifier,
}

/// A generator of classes for one target language.
///
/// A generator reads a JSON document, as a whole value or as the array or
/// the object at its root, and then gives the source text of the classes
/// it has inferred.
pub trait ClassGenerator: Sized {
    /// The generator is in a state in which it may be used.
    spec fn ready(&self) -> bool;

    /// Why the generator refuses the document, if it does.
    spec fn refusal(&self, json: Json) -> Option<ClassError>;

    /// The type that the generator finds the document to have.
    spec fn type_read(&self, json: Json) -> FieldType;

    /// `after` is this generator after it has read the document.
    spec fn reads(&self, json: Json, after: &Self) -> bool;

    /// The source text of the classes inferred so far.
    spec fn source(&self) -> Seq<char>;

    /// Reads a document and returns its type, or refuses it.
    fn parse_value(&mut self, value: &JsonValue) -> (out: Result<FieldType, ClassError>)
        requires
            old(self).ready(),
        ensures
            match old(self).refusal(value@) {
                Some(e) => out == Err::<FieldType, ClassError>(e),
                None => {
                    &&& out == Ok::<FieldType, ClassError>(old(self).type_read(value@))
                    &&& old(self).reads(value@, final(self))
                    &&& final(self).ready()
                },
            },
    ;

    /// Reads the array at the root of a document.
    fn parse_array(&mut self, value: &Vec<JsonValue>) -> (out: Result<FieldType, ClassError>)
        requires
            old(self).ready(),
        ensures
            match old(self).refusal(Json::Array(item_models(value@))) {
                Some(e) => out == Err::<FieldType, ClassError>(e),
                None => {
                    &&& out == Ok::<FieldType, ClassError>(
                        old(self).type_read(Json::Array(item_models(value@))),
                    )
                    &&& old(self).reads(Json::Array(item_models(value@)), final(self))
                    &&& final(self).ready()
                },
            },
    ;

    /// Reads the object at the root of a document.
    fn parse_object(&mut self, obj: &Vec<(String, JsonValue)>) -> (out: Result<
        FieldType,
        ClassError,
    >)
        requires
            old(self).ready(),
        ensures
            match old(self).refusal(Json::Object(entry_models(obj@))) {
                Some(e) => out == Err::<FieldType, ClassError>(e),
                None => {
                    &&& out == Ok::<FieldType, ClassError>(
                        old(self).type_read(Json::Object(entry_models(obj@))),
                    )
                    &&& old(self).reads(Json::Object(entry_models(obj@)), final(self))
                    &&& final(self).ready()
                },
            },
    ;

    /// The source text of every class to emit.
    fn get_full_result(self) -> (out: String)
        requires
            self.ready(),
        ensures
            out@ == self.source(),
    ;
}

} // verus!
