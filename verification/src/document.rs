//! The tool's operations on a raw settings payload: decode it, list its
//! devices, transfer assignments, and encode it back to text. Each
//! operation here is what one command computes; reading the payload from
//! the store and writing it back stay outside the library.

use vstd::prelude::*;

use crate::json::jwf;
use crate::schema::{Settings, SettingsV, SchemaError, SchemaErrorV, decode_settings, encode_settings};
use crate::text::{parse_json, parsed_json, pretty_text, to_pretty};
use crate::transfer::transfer_settings;

verus! {

/// Why a raw payload could not be read: it is not JSON at all, or its
/// document does not fit the schema.
#[derive(Debug, PartialEq, Eq)]
pub enum DocumentError {
    Syntax,
    Schema(SchemaError),
}

/// Parses a raw settings payload and decodes the document.
pub fn decode_document(bytes: &[u8]) -> (r: Result<Settings, DocumentError>)
    ensures
        (match r {
            Ok(s) => parsed_json(bytes@) is Some && decode_settings(parsed_json(bytes@)->Some_0)
                == Ok::<SettingsV, SchemaErrorV>(s@) && jwf(parsed_json(bytes@)->Some_0),
            Err(e) => (match e {
                DocumentError::Syntax => parsed_json(bytes@) is None,
                DocumentError::Schema(se) => parsed_json(bytes@) is Some && decode_settings(
                    parsed_json(bytes@)->Some_0,
                ) == Err::<SettingsV, SchemaErrorV>(se@),
            }),
        }),
{
    match parse_json(bytes) {
        None => Err(DocumentError::Syntax),
        Some(j) => match Settings::decode(j) {
            Ok(s) => Ok(s),
            Err(e) => Err(DocumentError::Schema(e)),
        },
    }
}

/// Encodes a document back to pretty-printed JSON text.
pub fn encode_document(s: Settings) -> (r: String)
    ensures
        r@ == pretty_text(encode_settings(s@)),
{
    to_pretty(s.encode())
}

/// The whole transfer operation on a raw payload: decode, rewrite every
/// profile from `from` to `to`, and print the new document. A dry run and
/// a persisted run both show exactly this text; the caller only decides
/// whether to write it back.
pub fn transfer_document(bytes: &[u8], from: &String, to: &String) -> (r: Result<
    String,
    DocumentError,
>)
    ensures
        (match r {
            Ok(text) => parsed_json(bytes@) is Some && decode_settings(
                parsed_json(bytes@)->Some_0,
            ) is Ok && text@ == pretty_text(
                encode_settings(
                    transfer_settings(
                        decode_settings(parsed_json(bytes@)->Some_0)->Ok_0,
                        from@,
                        to@,
                    ),
                ),
            ),
            Err(e) => (match e {
                DocumentError::Syntax => parsed_json(bytes@) is None,
                DocumentError::Schema(se) => parsed_json(bytes@) is Some && decode_settings(
                    parsed_json(bytes@)->Some_0,
                ) == Err::<SettingsV, SchemaErrorV>(se@),
            }),
        }),
{
    let s = match decode_document(bytes) {
        Ok(s) => s,
        Err(e) => {
            return Err(e);
        },
    };
    let t = s.transfer_assignments(from, to);
    Ok(encode_document(t))
}

/// An edit is saved only when it changed something: compares the payload
/// before and after the external edit.
pub fn should_save(before: &[u8], after: &[u8]) -> (r: bool)
    ensures
        r == (before@ != after@),
{
    if before.len() != after.len() {
        proof {
            assert(before@.len() != after@.len());
        }
        return true;
    }
    let n = before.len();
    let mut i: usize = 0;
    while i < n
        invariant
            i <= n,
            n == before@.len(),
            n == after@.len(),
            forall|j: int| 0 <= j < i ==> before@[j] == after@[j],
        decreases n - i,
    {
        if before[i] != after[i] {
            return true;
        }
        i = i + 1;
    }
    proof {
        assert(before@ =~= after@);
    }
    false
}

} // verus!
