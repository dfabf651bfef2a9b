//! Reading a file as text, under a size ceiling.

use crate::error::ReadError;
use crate::observe::Probe;
use vstd::prelude::*;
use vstd::utf8::{decode_utf8, valid_utf8};

verus! {

/// No file larger than this is read: 1 MiB.
pub const MAX_TEXT_BYTES: u64 = 1_048_576;

/// Whether the node behind a metadata lookup may be read as text, and if so
/// how many bytes it holds.
pub open spec fn readable(probe: Probe) -> Result<u64, ReadError> {
    match probe {
        Probe::Missing => Err(ReadError::NotFound),
        Probe::Directory | Probe::Other => Err(ReadError::NotAFile),
        Probe::Failed => Err(ReadError::MetadataError),
        Probe::File(bytes) => if bytes > MAX_TEXT_BYTES {
            Err(ReadError::TooLarge(bytes))
        } else {
            Ok(bytes)
        },
    }
}

/// The text of a file, or why there is none. `content` holds the bytes that
/// were fetched, or nothing if fetching failed. The ceiling applies to the
/// size found by the lookup and again to what was fetched.
pub open spec fn text_of(probe: Probe, content: Option<Seq<u8>>) -> Result<Seq<char>, ReadError> {
    match readable(probe) {
        Err(error) => Err(error),
        Ok(_) => match content {
            None => Err(ReadError::MetadataError),
            Some(bytes) => if bytes.len() > MAX_TEXT_BYTES {
                Err(ReadError::TooLarge(bytes.len() as u64))
            } else if valid_utf8(bytes) {
                Ok(decode_utf8(bytes))
            } else {
                Err(ReadError::DecodeError)
            },
        },
    }
}

pub open spec fn content_model(content: Option<Vec<u8>>) -> Option<Seq<u8>> {
    match content {
        Some(bytes) => Some(bytes@),
        None => None,
    }
}

/// `String::from_utf8`, with its error dropped: the standard library returns
/// the text exactly when the bytes are valid UTF-8, and the text is then
/// what the bytes decode to.
#[verifier::external_body]
fn text_from_utf8(bytes: Vec<u8>) -> (text: Option<String>)
    ensures
        text is Some <==> valid_utf8(bytes@),
        text matches Some(decoded) ==> decoded@ == decode_utf8(bytes@),
{
    String::from_utf8(bytes).ok()
}

/// Decides from a metadata lookup whether the file is to be fetched at all.
pub fn check_readable(probe: Probe) -> (verdict: Result<u64, ReadError>)
    ensures
        verdict == readable(probe),
{
    match probe {
        Probe::Missing => Err(ReadError::NotFound),
        Probe::Directory => Err(ReadError::NotAFile),
        Probe::Other => Err(ReadError::NotAFile),
        Probe::Failed => Err(ReadError::MetadataError),
        Probe::File(bytes) => if bytes > MAX_TEXT_BYTES {
            Err(ReadError::TooLarge(bytes))
        } else {
            Ok(bytes)
        },
    }
}

/// Turns what was fetched of a file into its text.
pub fn read_file(probe: Probe, content: Option<Vec<u8>>) -> (read: Result<String, ReadError>)
    ensures
        match read {
            Ok(text) => text_of(probe, content_model(content)) == Ok::<Seq<char>, ReadError>(
                text@,
            ),
            Err(error) => text_of(probe, content_model(content)) == Err::<Seq<char>, ReadError>(
                error,
            ),
        },
{
    match check_readable(probe) {
        Err(error) => Err(error),
        Ok(_) => match content {
            None => Err(ReadError::MetadataError),
            Some(bytes) => {
                let fetched = bytes.len();
                if fetched as u64 > MAX_TEXT_BYTES {
                    Err(ReadError::TooLarge(fetched as u64))
                } else {
                    match text_from_utf8(bytes) {
                        Some(text) => Ok(text),
                        None => Err(ReadError::DecodeError),
                    }
                }
            },
        },
    }
}

} // verus!
