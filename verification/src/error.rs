//! What can go wrong while a frame is read.

use vstd::prelude::*;
use vstd::string::*;

verus! {

/// The reason why a read of a command line, a header block or a frame
/// failed.
#[derive(Debug, PartialEq, Eq)]
pub enum ReadError {
    /// The byte budget of the command line or of the header block was used
    /// up before the line ended.
    SizeExceeded,
    /// A command line or a header line is not valid UTF-8.
    Encoding,
    /// The input is not shaped like a frame; the text says what was wrong.
    Format(String),
    /// The first value of `Content-Length` is no unsigned decimal number; the
    /// text is that value.
    ContentLength(String),
}

/// A `ReadError` as a plain value: the variant, and the characters of the
/// text it carries.
pub enum Failure {
    SizeExceeded,
    Encoding,
    Format(Seq<char>),
    ContentLength(Seq<char>),
}

impl View for ReadError {
    type V = Failure;

    open spec fn view(&self) -> Failure {
        match self {
            ReadError::SizeExceeded => Failure::SizeExceeded,
            ReadError::Encoding => Failure::Encoding,
            ReadError::Format(text) => Failure::Format(text@),
            ReadError::ContentLength(text) => Failure::ContentLength(text@),
        }
    }
}

/// The description of a failure for people to read.
pub open spec fn describe(f: Failure) -> Seq<char> {
    match f {
        Failure::SizeExceeded => "size limit exceeded"@,
        Failure::Encoding => "invalid UTF-8"@,
        Failure::Format(text) => "format error: "@ + text,
        Failure::ContentLength(text) => "invalid content length: "@ + text,
    }
}

impl ReadError {
    /// A description of the error for people to read.
    pub fn to_string(&self) -> (r: String)
        ensures
            r@ == describe(self@),
    {
        match self {
            ReadError::SizeExceeded => String::from_str("size limit exceeded"),
            ReadError::Encoding => String::from_str("invalid UTF-8"),
            ReadError::Format(text) => {
                let mut s = String::from_str("format error: ");
                s.append(text.as_str());
                s
            },
            ReadError::ContentLength(text) => {
                let mut s = String::from_str("invalid content length: ");
                s.append(text.as_str());
                s
            },
        }
    }
}

} // verus!
