use vstd::prelude::*;

use vstd::utf8::{decode_utf8, valid_utf8};

verus! {

/// Why the converter's report could not be read.
#[derive(Clone, Copy, Debug, PartialEq, Eq, Structural)]
pub enum ToolError {
    /// The converter wrote bytes that are not UTF-8.
    OutputNotUtf8,
}

/// Relies on std's `String::from_utf8`: it succeeds exactly when the bytes
/// are valid UTF-8, and the string then holds the characters they encode.
#[verifier::external_body]
fn utf8_string(bytes: Vec<u8>) -> (r: Option<String>)
    ensures
        r is Some <==> valid_utf8(bytes@),
        r matches Some(s) ==> s@ == decode_utf8(bytes@),
{
    String::from_utf8(bytes).ok()
}

/// The report that the point-cloud converter printed when probed: its
/// standard output as text. The probe itself (running the program) is done
/// by the caller.
pub fn detect_cloudcompare_exists(stdout: Vec<u8>) -> (r: Result<String, ToolError>)
    ensures
        r is Ok <==> valid_utf8(stdout@),
        r matches Ok(s) ==> s@ == decode_utf8(stdout@),
        r matches Err(e) ==> e == ToolError::OutputNotUtf8,
{
    match utf8_string(stdout) {
        Some(s) => Ok(s),
        None => Err(ToolError::OutputNotUtf8),
    }
}

} // verus!
