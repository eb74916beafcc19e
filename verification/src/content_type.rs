//! Media types: the essence of a type given as text, and the type that
//! a file name suggests.

use vstd::prelude::*;

verus! {

/// What went wrong when a part was added.
#[derive(Debug, Clone, Copy, PartialEq, Eq, Structural)]
pub enum Error {
    /// A media type given as text is none.
    InvalidContentType,
}

impl Error {
    /// The error in words.
    pub fn message(&self) -> (text: &'static str)
        ensures
            text@ == "invalid content type"@,
    {
        "invalid content type"
    }
}

/// The error of `str::parse::<mime::Mime>`. It is told apart from a
/// success and never inspected.
#[verifier::external_type_specification]
#[verifier::external_body]
pub struct ExFromStrError(mime_guess::mime::FromStrError);

/// The essence that `mime::Mime::essence_str` gives for the media type
/// that `text` parses to, and `None` where `text` does not parse.
pub uninterp spec fn media_type_essence(text: Seq<char>) -> Option<Seq<char>>;

/// `str::parse::<mime::Mime>`, and `Mime::essence_str` on the media type
/// that it gives.
///
/// Trusted: whether `text` parses, and the essence of what it parses to,
/// depend on `text` alone.
#[verifier::external_body]
fn parse_essence(text: &str) -> (r: Result<String, mime_guess::mime::FromStrError>)
    ensures
        match r {
            Ok(essence) => media_type_essence(text@) == Some(essence@),
            Err(_) => media_type_essence(text@) is None,
        },
{
    match text.parse::<mime_guess::Mime>() {
        Ok(mime) => Ok(mime.essence_str().to_owned()),
        Err(e) => Err(e),
    }
}

/// `mime_guess::from_path` and `MimeGuess::first`, as the essence of the
/// media type found.
///
/// Trusted: nothing is claimed of the result. The guess goes by the
/// extension of the path, which is parsed as the platform has it, and by
/// a table that changes from release to release.
#[verifier::external_body]
fn guess_essence(path: &str) -> (guess: Option<String>) {
    match mime_guess::from_path(path).first() {
        Some(mime) => Some(mime.essence_str().to_owned()),
        None => None,
    }
}

/// The essence of the media type that `text` names.
pub fn parse_content_type(text: &str) -> (r: Result<String, Error>)
    ensures
        match r {
            Ok(essence) => media_type_essence(text@) == Some(essence@),
            Err(e) => e == Error::InvalidContentType && media_type_essence(text@) is None,
        },
{
    match parse_essence(text) {
        Ok(essence) => Ok(essence),
        Err(_) => Err(Error::InvalidContentType),
    }
}

/// The media type of a file: the one that was guessed, and
/// `application/octet-stream` where none was.
pub fn guessed_or_default(guess: Option<String>) -> (essence: String)
    ensures
        essence@ == match guess {
            Some(found) => found@,
            None => "application/octet-stream"@,
        },
{
    match guess {
        Some(found) => found,
        None => "application/octet-stream".to_owned(),
    }
}

/// The media type that the extension of `path` suggests, and
/// `application/octet-stream` where it suggests none.
pub fn content_type(path: &str) -> (essence: String) {
    guessed_or_default(guess_essence(path))
}

} // verus!
