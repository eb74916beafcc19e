//! Encoder for `multipart/form-data` request bodies.
//!
//! A [`Multipart`] collects named parts, text fields and file-like
//! payloads, and renders them framed by a boundary token: as one buffer,
//! as a stream of chunks, or through a reader's buffer. The three
//! renderings carry the same bytes, and every function states the bytes
//! it produces in its contract.
//!
//! A payload is held in memory, or it is a byte source that lives outside
//! this library: a file, a socket. The library reads no such source. A
//! [`body::Body`] that comes to one answers `Pending`, names the source
//! and the size of the read, and goes on when the outcome of that read is
//! reported to it. What it makes of every possible outcome is part of its
//! contract.

pub mod body;
pub mod content_type;
pub mod encoding;
pub mod multipart;
pub mod part;
pub mod reader_stream;
pub mod stream;

pub use content_type::Error;
pub use encoding::Encoding;
pub use multipart::Multipart;
pub use reader_stream::nearest_multiple_of;
pub use stream::StreamChunk;

use vstd::prelude::*;

verus! {

/// Whether `c` is a letter of the Latin alphabet or a digit.
pub open spec fn is_alphanumeric(c: char) -> bool {
    ('a' <= c <= 'z') || ('A' <= c <= 'Z') || ('0' <= c <= '9')
}

/// `fastrand::alphanumeric`.
///
/// Trusted: the result is a letter of the Latin alphabet or a digit. Which
/// one is left open, and two calls may differ.
#[verifier::external_body]
fn alphanumeric() -> (c: char)
    ensures
        is_alphanumeric(c),
{
    fastrand::alphanumeric()
}

/// `String::push`.
///
/// Trusted: the character is added at the end.
#[verifier::external_body]
fn push_char(text: &mut String, c: char)
    ensures
        final(text)@ == old(text)@.push(c),
{
    text.push(c)
}

/// A boundary: thirty random letters and digits.
pub fn generate_boundary() -> (boundary: String)
    ensures
        boundary@.len() == 30,
        forall|i: int| 0 <= i < 30 ==> is_alphanumeric(#[trigger] boundary@[i]),
{
    let mut boundary: String = String::new();
    let mut n: usize = 0;
    while n < 30
        invariant
            n <= 30,
            boundary@.len() == n,
            forall|i: int| 0 <= i < n ==> is_alphanumeric(#[trigger] boundary@[i]),
        decreases 30 - n,
    {
        push_char(&mut boundary, alphanumeric());
        n = n + 1;
    }
    boundary
}

} // verus!
