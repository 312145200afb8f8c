use vstd::prelude::*;

verus! {

/// How many leading bytes are searched for a NUL byte.
pub const NUL_WINDOW: usize = 8000;

/// Whether the leading bytes of `b` match a signature of a binary file format
/// (any format the signature table knows that is not a text format).
pub uninterp spec fn known_binary_signature(b: Seq<u8>) -> bool;

/// `b` holds a NUL byte within its first `NUL_WINDOW` bytes.
pub open spec fn has_leading_nul(b: Seq<u8>) -> bool {
    exists|i: int| 0 <= i < b.len() && i < NUL_WINDOW && b[i] == 0u8
}

/// Relies on infer::get and infer::Type::matcher_type: `get` returns the first
/// format whose signature the leading bytes match, and its matcher type tells
/// text formats (HTML, XML, shell scripts) from the others. The answer depends
/// on the bytes alone.
#[verifier::external_body]
fn signature_matches(b: &[u8]) -> (r: bool)
    ensures
        r == known_binary_signature(b@),
{
    match infer::get(b) {
        Some(t) => t.matcher_type() != infer::MatcherType::Text,
        None => false,
    }
}

/// Whether the first `NUL_WINDOW` bytes of `b` hold a NUL byte.
pub fn leading_nul(b: &[u8]) -> (r: bool)
    ensures
        r == has_leading_nul(b@),
{
    let mut i: usize = 0;
    while i < b.len() && i < NUL_WINDOW
        invariant
            i <= b@.len(),
            i <= NUL_WINDOW,
            forall|k: int| 0 <= k < i ==> b@[k] != 0u8,
        decreases b.len() - i,
    {
        if b[i] == 0u8 {
            return true;
        }
        i = i + 1;
    }
    false
}

/// The classification once the signature check has answered `signature`:
/// binary where a signature matched or a NUL byte leads the content.
pub fn classify(signature: bool, b: &[u8]) -> (r: bool)
    ensures
        r == (signature || has_leading_nul(b@)),
{
    signature || leading_nul(b)
}

/// Whether file content is binary: its leading bytes match a known format
/// signature, or a NUL byte stands in its first `NUL_WINDOW` bytes. Content
/// with such a NUL byte is binary whatever the signature check says.
pub fn is_binary_content(b: &[u8]) -> (r: bool)
    ensures
        r == (known_binary_signature(b@) || has_leading_nul(b@)),
        has_leading_nul(b@) ==> r,
{
    let signature = signature_matches(b);
    classify(signature, b)
}

} // verus!
