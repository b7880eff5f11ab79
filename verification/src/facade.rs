//! The compute side of the facade operations: deciding what a write-back of
//! a history entry puts on the OS clipboard. The clipboard call itself, and
//! the clearing of the clipboard after a delete, stay with the caller.

use vstd::prelude::*;
use crate::codec::{base64_str_to_image_data, decode_post, CodecError, ImageBuf};
use crate::store::Kind;

verus! {

/// What the facade must write back to the OS clipboard for an entry.
pub enum Payload {
    Text(String),
    Image(ImageBuf),
}

/// Decides the clipboard write-back for an entry: text content is written as
/// it is; image content is decoded through the codec first, and a decode
/// failure surfaces to the caller instead of being retried.
pub fn set_data_payload(content: String, kind: Kind) -> (r: Result<Payload, CodecError>)
    ensures
        kind == Kind::Text ==> (r matches Ok(p) && p matches Payload::Text(t) && t@ == content@),
        kind == Kind::Image ==> match r {
            Result::Ok(p) => p matches Payload::Image(img) && decode_post(
                content@,
                Result::Ok(img),
            ),
            Result::Err(e) => decode_post(content@, Result::Err(e)),
        },
{
    match kind {
        Kind::Text => Ok(Payload::Text(content)),
        Kind::Image => {
            match base64_str_to_image_data(content.as_str()) {
                Ok(img) => Ok(Payload::Image(img)),
                Err(e) => Err(e),
            }
        },
    }
}

} // verus!
