//! Access to JSON documents and to their serialized (CBOR) form. The document
//! type is serde_json's; the library carries it through without looking
//! inside, and reads it only through the functions below.

use vstd::prelude::*;

verus! {

#[verifier::external_type_specification]
#[verifier::external_body]
pub struct ExValue(serde_json::Value);

#[verifier::external_type_specification]
#[verifier::external_body]
pub struct ExJsonError(serde_json::Error);

#[verifier::external_type_specification]
#[verifier::external_body]
pub struct ExCborError(serde_cbor::Error);

/// What serde_json makes of a text taken as one document: `None` when the
/// text is not accepted as JSON, `Some(None)` when it is JSON but not an
/// array, and `Some(Some(n))` when it is an array of `n` elements.
pub uninterp spec fn json_top_level(text: Seq<u8>) -> Option<Option<nat>>;

/// serde_json accepts the text as JSON.
pub open spec fn json_parses(text: Seq<u8>) -> bool {
    json_top_level(text) is Some
}

/// How many documents a batch text holds: the elements of a JSON array, and
/// none for any other text.
pub open spec fn batch_len(text: Seq<u8>) -> nat {
    match json_top_level(text) {
        Some(Some(n)) => n,
        _ => 0,
    }
}

/// Whether serde_cbor decodes a byte string into a document.
pub uninterp spec fn cbor_decodes(bytes: Seq<u8>) -> bool;

/// Relies on serde_json::from_slice: parses JSON text into a document, and
/// gives its elements when it is an array (serde_json::Value's `Array`
/// variant). The outcome depends on the text alone.
#[verifier::external_body]
pub(crate) fn parse_json(text: &[u8]) -> (r: Result<Option<Vec<serde_json::Value>>, serde_json::Error>)
    ensures
        match r {
            Err(_) => json_top_level(text@) is None,
            Ok(None) => json_top_level(text@) == Some(None::<nat>),
            Ok(Some(items)) => json_top_level(text@) == Some(Some(items@.len())),
        },
{
    serde_json::from_slice::<serde_json::Value>(text).map(|doc| match doc {
        serde_json::Value::Array(items) => Some(items),
        _ => None,
    })
}

/// Relies on serde_json::Value::pointer: a copy of the part of `doc` that a
/// JSON pointer such as `/name/common` names, if there is one.
#[verifier::external_body]
pub(crate) fn value_at(doc: &serde_json::Value, pointer: &str) -> (r: Option<serde_json::Value>) {
    doc.pointer(pointer).cloned()
}

/// Relies on serde_json::Value's `Array` variant: the elements of `doc` when
/// it is an array.
#[verifier::external_body]
pub(crate) fn into_items(doc: serde_json::Value) -> (r: Option<Vec<serde_json::Value>>) {
    match doc {
        serde_json::Value::Array(items) => Some(items),
        _ => None,
    }
}

/// Relies on serde_json::Value's `String` variant: the text of `doc` when it
/// is a string.
#[verifier::external_body]
pub(crate) fn into_text(doc: serde_json::Value) -> (r: Option<String>) {
    match doc {
        serde_json::Value::String(s) => Some(s),
        _ => None,
    }
}

/// Relies on serde_cbor::to_vec: the self-describing binary form of a
/// document. Its only errors are for 128-bit integers, which a JSON document
/// never holds, and writing into a `Vec` does not fail; so it always succeeds.
#[verifier::external_body]
pub(crate) fn encode_document(doc: &serde_json::Value) -> (r: Result<Vec<u8>, serde_cbor::Error>)
    ensures
        r is Ok,
{
    serde_cbor::to_vec(doc)
}

/// Relies on serde_cbor::from_slice: the document whose binary form is
/// `bytes`. Whether it succeeds depends on the bytes alone.
#[verifier::external_body]
pub(crate) fn decode_document(bytes: &[u8]) -> (r: Result<serde_json::Value, serde_cbor::Error>)
    ensures
        r is Ok <==> cbor_decodes(bytes@),
{
    serde_cbor::from_slice(bytes)
}

/// The string found at `pointer` in `doc`, if that part exists and is a string.
pub fn text_at(doc: &serde_json::Value, pointer: &str) -> (r: Option<String>) {
    match value_at(doc, pointer) {
        Some(v) => into_text(v),
        None => None,
    }
}

/// The strings of the array found at `pointer` in `doc`; elements that are
/// not strings are passed over, and a missing or non-array part gives none.
pub fn texts_at(doc: &serde_json::Value, pointer: &str) -> (r: Vec<String>) {
    let mut out: Vec<String> = Vec::new();
    let items = match value_at(doc, pointer) {
        Some(v) => into_items(v),
        None => None,
    };
    match items {
        Some(items) => {
            for item in items {
                match into_text(item) {
                    Some(s) => out.push(s),
                    None => {},
                }
            }
        },
        None => {},
    }
    out
}

} // verus!
