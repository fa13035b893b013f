//! Image bytes handed to the host as inline data: the host reads a
//! file's bytes and the core turns them into a `data:` URI for its
//! image-preview cache.

use vstd::prelude::*;
use vstd::string::StringSliceAdditionalSpecFns;
use crate::editor::push_bytes;
use crate::scan::push_str_bytes;
use crate::paths::{spec_image_mime, image_mime_for_path};
use base64::Engine;

verus! {

/// What the standard base64 alphabet encodes the bytes to, with
/// padding; a function of the bytes alone.
pub uninterp spec fn base64_of(b: Seq<u8>) -> Seq<u8>;

/// Relies on base64's standard engine: four output characters for every
/// three input bytes, padded, a function of the bytes alone.
#[verifier::external_body]
fn encode_base64(bytes: &Vec<u8>) -> (r: Vec<u8>)
    requires
        4 * ((bytes@.len() + 2) / 3) <= usize::MAX,
    ensures
        r@ == base64_of(bytes@),
        r@.len() == 4 * ((bytes@.len() + 2) / 3),
{
    base64::engine::general_purpose::STANDARD.encode(bytes.as_slice()).into_bytes()
}

/// The inline `data:` URI for an image file's bytes: its MIME type from
/// the path's extension, then the base64 payload.
pub fn image_data_uri(path: &Vec<u8>, bytes: &Vec<u8>) -> (r: Vec<u8>)
    requires
        4 * ((bytes@.len() + 2) / 3) + 64 <= usize::MAX,
    ensures
        r@ == "data:".spec_bytes() + spec_image_mime(path@) + ";base64,".spec_bytes() + base64_of(
            bytes@,
        ),
{
    let mut out: Vec<u8> = Vec::new();
    push_str_bytes(&mut out, "data:");
    let mime = image_mime_for_path(path);
    push_str_bytes(&mut out, mime);
    push_str_bytes(&mut out, ";base64,");
    let payload = encode_base64(bytes);
    push_bytes(&mut out, &payload);
    proof {
        assert(out@ =~= "data:".spec_bytes() + spec_image_mime(path@) + ";base64,".spec_bytes()
            + base64_of(bytes@));
    }
    out
}

} // verus!
