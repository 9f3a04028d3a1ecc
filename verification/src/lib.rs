//! Data classes inferred from a JSON document, and their source text.
use vstd::prelude::*;
use crate::generators::{ClassError, ClassGenerator};
use crate::json::{decode, decoded_text, to_json_value};

pub mod generators;
pub mod json;
pub mod text;

verus! {

/// Generates the source text of the classes for a JSON document given
/// as text.
///
/// A text that is no JSON document is refused, and so is a document that
/// the generator refuses. Any other document is read by the generator,
/// and the result is the source text that the generator then gives.
pub fn json_to_class<G: ClassGenerator>(json_string: &str, generator: G) -> (out: Result<
    String,
    ClassError,
>)
    requires
        generator.ready(),
    ensures
        match decoded_text(json_string@) {
            None => out matches Err(ClassError::MalformedInput(_)),
            Some(json) => match generator.refusal(json) {
                Some(e) => out == Err::<String, ClassError>(e),
                None => out matches Ok(text) && exists|after: &G| #[trigger]
                    generator.reads(json, after) && text@ == after.source(),
            },
        },
{
    let ghost old_generator = generator;
    let mut generator = generator;
    match decode(json_string) {
        Err(e) => Err(ClassError::MalformedInput(e)),
        Ok(decoded) => {
            let value = to_json_value(&decoded);
            match generator.parse_value(&value) {
                Err(e) => Err(e),
                Ok(_) => {
                    let ghost after = generator;
                    let text = generator.get_full_result();
                    assert(old_generator.reads(value@, &after) && text@ == after.source());
                    Ok(text)
                },
            }
        },
    }
}

} // verus!
