//! The schema that events are held against.
use jsonschema::JSONSchema;
use serde_json::Value;
use vstd::prelude::*;

use crate::score::texts;
use crate::text::{occurs, occurs_in};

verus! {

/// A compiled JSON schema.
#[verifier::external_type_specification]
#[verifier::external_body]
pub struct ExJSONSchema(JSONSchema);

/// The JSON value that a text stands for; nothing, if the text is no JSON.
pub uninterp spec fn parsed(text: Seq<char>) -> Option<Value>;

/// A JSON value as text, without white space between its parts.
pub uninterp spec fn rendered(value: Value) -> Seq<char>;

/// The document that a schema was compiled from, where that was done with the options that
/// `JSONSchema::options` hands out, unchanged.
pub uninterp spec fn source(schema: JSONSchema) -> Option<Value>;

/// Whether a schema can be compiled from a document.
pub uninterp spec fn compiles(document: Value) -> bool;

/// What the schema with this document objects to in a value, one text for each objection.
pub uninterp spec fn objections(document: Value, value: Value) -> Seq<Seq<char>>;

/// Whether a schema's document may hold a reference, to a part of itself or to another
/// document: whether "$ref" stands in it between quotation marks.
pub open spec fn refers(document: Value) -> bool {
    occurs(rendered(document), "\"$ref\""@)
}

/// Whether a schema's document may hold a regular expression, or ask for one in a value:
/// whether "pattern", "patternProperties" or "regex" stands in it between quotation marks.
pub open spec fn patterned(document: Value) -> bool {
    ||| occurs(rendered(document), "\"pattern\""@)
    ||| occurs(rendered(document), "\"patternProperties\""@)
    ||| occurs(rendered(document), "\"regex\""@)
}

/// Whether the number minus zero may stand in a value.
pub open spec fn minus_zero(value: Value) -> bool {
    occurs(rendered(value), "-0.0"@)
}

/// Whether the document may want a number in the value to be a multiple of another one, and
/// the two may lie so far apart that their quotient is infinite. That takes a number below ten
/// to the power of -199 in the document, whose exponent begins with 2 or 3, or one in the value
/// that is large enough to have an exponent.
pub open spec fn divides_far(document: Value, value: Value) -> bool {
    &&& occurs(rendered(document), "\"multipleOf\""@)
    &&& {
        ||| occurs(rendered(document), "e-2"@)
        ||| occurs(rendered(document), "e-3"@)
        ||| occurs(rendered(value), "e+"@)
    }
}

/// Whether it depends on nothing but the document and the value what the schema objects to.
pub open spec fn repeatable(document: Value, value: Value) -> bool {
    &&& occurs(rendered(document), "\"uniqueItems\""@) ==> !minus_zero(value)
    &&& !divides_far(document, value)
}

/// `serde_json::from_str` into a `serde_json::Value`: the value that the text stands for.
/// The error says where the text is no JSON; it is left out.
#[verifier::external_body]
fn parse(text: &str) -> (value: Option<Value>)
    ensures
        value == parsed(text@),
{
    serde_json::from_str(text).ok()
}

/// `serde_json::Value::to_string`: the value in the compact form. There the name of each
/// member of an object stands between quotation marks, the number minus zero is "-0.0", and a
/// number below ten to the power of -5, or a fraction of at least ten to the power of 16, has
/// its exponent of ten written behind it: "5e-324", "1.5e+300".
#[verifier::external_body]
fn render(value: &Value) -> (text: String)
    ensures
        text@ == rendered(*value),
{
    value.to_string()
}

/// `JSONSchema::options` and `CompilationOptions::compile`: the schema with this document,
/// where the document is a schema; the error, which says where it is none, is left out.
///
/// The regular expressions in a document are compiled too. Where one leaves a conditional
/// open, as "(?(1)" does, the call panics, and so it may where one counts too far; and a count
/// of more than 32 bits is taken or not by the width of the machine. So the document may not
/// hold any.
///
/// A document is itself held against a schema, which wants the items of some of its lists to
/// differ. Whether the numbers zero and minus zero differ in a list of more than 15 items
/// depends on the seed of a hash function, so nothing is said of the outcome where minus
/// zero stands in the document.
#[verifier::external_body]
fn compile(document: &Value) -> (schema: Option<JSONSchema>)
    requires
        !patterned(*document),
    ensures
        schema matches Some(schema) ==> source(schema) == Some(*document),
        !minus_zero(*document) ==> (schema is Some <==> compiles(*document)),
{
    JSONSchema::options().compile(document).ok()
}

/// `JSONSchema::validate`: the texts of the errors, in the order in which they are found;
/// none, where the value fits the schema.
///
/// The call follows references for as long as they lead on without going into the value,
/// and does not return where that has no end. It compiles a text that has to be a regular
/// expression, and may panic in that. So the document may neither hold references nor ask
/// for regular expressions. It was compiled with the options as they are handed out: others
/// may bring in formats and resolvers that do anything.
///
/// Two keywords make the outcome depend on more than the arguments: "uniqueItems" on the seed
/// of a hash function, where zero and minus zero stand in one list, and "multipleOf" on how
/// precisely a machine computes powers, where the quotient of the two numbers is infinite.
/// Nothing is said of the errors where that may happen.
#[verifier::external_body]
fn validate(schema: &JSONSchema, value: &Value) -> (errors: Vec<String>)
    requires
        source(*schema) matches Some(document) && !refers(document) && !patterned(document),
    ensures
        repeatable(source(*schema)->0, *value) ==> texts(errors@) == objections(
            source(*schema)->0,
            *value,
        ),
{
    match schema.validate(value) {
        Ok(()) => Vec::new(),
        Err(errors) => errors.map(|error| error.to_string()).collect(),
    }
}

/// Why there is no schema.
#[derive(Debug, Clone, Copy, PartialEq, Eq)]
pub enum SchemaFault {
    /// The text is no JSON.
    NotJson,
    /// The document may hold a reference.
    Refers,
    /// The document may hold a regular expression, or ask for one in a value.
    Patterned,
    /// The document is no schema.
    NotASchema,
}

/// A schema without references and regular expressions.
#[derive(Debug)]
pub struct EventSchema {
    schema: JSONSchema,
}

impl EventSchema {
    /// The document of the schema.
    pub closed spec fn document(self) -> Value {
        source(self.schema)->0
    }

    #[verifier::type_invariant]
    spec fn is_plain(self) -> bool {
        source(self.schema) matches Some(document) && !refers(document) && !patterned(document)
    }

    /// The schema with this document.
    pub fn compile(document: &Value) -> (schema: Result<EventSchema, SchemaFault>)
        ensures
            match schema {
                Ok(schema) => {
                    &&& schema.document() == *document
                    &&& !refers(*document)
                    &&& !patterned(*document)
                    &&& !minus_zero(*document) ==> compiles(*document)
                },
                Err(SchemaFault::NotJson) => false,
                Err(SchemaFault::Refers) => refers(*document),
                Err(SchemaFault::Patterned) => !refers(*document) && patterned(*document),
                Err(SchemaFault::NotASchema) => {
                    &&& !refers(*document)
                    &&& !patterned(*document)
                    &&& !minus_zero(*document) ==> !compiles(*document)
                },
            },
    {
        let text = render(document);
        if occurs_in(text.as_str(), "\"$ref\"") {
            return Err(SchemaFault::Refers);
        }
        if occurs_in(text.as_str(), "\"pattern\"") || occurs_in(
            text.as_str(),
            "\"patternProperties\"",
        ) || occurs_in(text.as_str(), "\"regex\"") {
            return Err(SchemaFault::Patterned);
        }
        match compile(document) {
            Some(schema) => Ok(EventSchema { schema }),
            None => Err(SchemaFault::NotASchema),
        }
    }

    /// What the schema objects to in a value.
    pub fn validate(&self, value: &Value) -> (errors: Vec<String>)
        ensures
            repeatable(self.document(), *value) ==> texts(errors@) == objections(
                self.document(),
                *value,
            ),
    {
        proof {
            use_type_invariant(self);
        }
        validate(&self.schema, value)
    }
}

/// The schema whose document is the JSON value that a text stands for.
pub fn event_schema(text: &str) -> (schema: Result<EventSchema, SchemaFault>)
    ensures
        match schema {
            Ok(schema) => {
                &&& parsed(text@) == Some(schema.document())
                &&& !refers(schema.document())
                &&& !patterned(schema.document())
                &&& !minus_zero(schema.document()) ==> compiles(schema.document())
            },
            Err(SchemaFault::NotJson) => parsed(text@) is None,
            Err(SchemaFault::Refers) => {
                &&& parsed(text@) matches Some(document)
                &&& refers(document)
            },
            Err(SchemaFault::Patterned) => {
                &&& parsed(text@) matches Some(document)
                &&& !refers(document)
                &&& patterned(document)
            },
            Err(SchemaFault::NotASchema) => {
                &&& parsed(text@) matches Some(document)
                &&& !refers(document)
                &&& !patterned(document)
                &&& !minus_zero(document) ==> !compiles(document)
            },
        },
{
    match parse(text) {
        Some(document) => EventSchema::compile(&document),
        None => Err(SchemaFault::NotJson),
    }
}

} // verus!
