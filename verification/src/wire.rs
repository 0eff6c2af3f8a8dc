//! The wire format, stated over byte and character sequences: what a header
//! and a frame are written as, and what the bytes of a stream are read as.

use vstd::prelude::*;
use vstd::utf8::{decode_utf8, encode_utf8, valid_utf8};
use crate::command::{unknown_command, Command};
use crate::error::Failure;
use crate::header::Line;
use crate::io::{least, line_span};
use crate::scan::{lemma_prefix_len, prefix_len};
use crate::string::{escape, unescape};
use crate::text::{join, parse_number, strip_trailing, trim, trim_start};

verus! {

/// The most bytes that a command line may take, its newline counted.
pub const MAX_COMMAND_SIZE: u64 = 1024;

/// The most bytes that a header block may take, the blank line counted.
pub const MAX_HEADER_SIZE: u64 = 1024000;

/// The byte that ends a frame.
pub const NULL: u8 = 0;

/// The byte that ends a line.
pub const EOL: u8 = 10;

/// The line that a field is written as: the encoded name, a colon and a
/// space, the values joined by commas and encoded, and a newline.
pub open spec fn field_line(line: Line) -> Seq<char> {
    escape(line.0) + seq![':', ' '] + escape(join(line.1, ',')) + seq!['\n']
}

/// The bytes that the fields `ls` are written as, one line each, in the order
/// of `ls`.
pub open spec fn header_wire(ls: Seq<Line>) -> Seq<u8>
    decreases ls.len(),
{
    if ls.len() == 0 {
        Seq::empty()
    } else {
        encode_utf8(field_line(ls[0])) + header_wire(ls.drop_first())
    }
}

/// The bytes that a frame is written as: the command line, the header
/// lines, a blank line, the body and the terminator.
pub open spec fn frame_wire(command: Command, ls: Seq<Line>, body: Seq<u8>) -> Seq<u8> {
    encode_utf8(command.name()) + seq![EOL] + header_wire(ls) + seq![EOL] + body + seq![NULL]
}

/// The text of the error for a header line without a colon.
pub open spec fn missing_colon() -> Seq<char> {
    "invalid number of header field parts. Expected 2, got 1"@
}

/// The text of the error for a header line whose name is empty.
pub open spec fn empty_name() -> Seq<char> {
    "empty header field name"@
}

/// The text of the error for a command line without a keyword.
pub open spec fn empty_command() -> Seq<char> {
    "empty command"@
}

/// The name and the value that the header line `line` holds, or the text
/// of what is wrong with it.  Carriage returns at the end of the line do not
/// count.  The name is what stands before the first colon, decoded and
/// trimmed; the value is what stands between the first colon and the second,
/// or the end, decoded and with the whitespace at its start cut off.
pub open spec fn parse_line(line: Seq<char>) -> Result<(Seq<char>, Seq<char>), Seq<char>> {
    let clean = strip_trailing(line, '\r');
    let colon = prefix_len(clean, ':');
    if colon >= clean.len() {
        Err(missing_colon())
    } else {
        let after = clean.skip(colon as int + 1);
        let name = trim(unescape(clean.take(colon as int)));
        let value = trim_start(unescape(after.take(prefix_len(after, ':') as int)));
        if name.len() == 0 {
            Err(empty_name())
        } else {
            Ok((name, value))
        }
    }
}

/// `fields` with `value` appended to the values of `name`.
pub open spec fn added(
    fields: Map<Seq<char>, Seq<Seq<char>>>,
    name: Seq<char>,
    value: Seq<char>,
) -> Map<Seq<char>, Seq<Seq<char>>> {
    fields.insert(
        name,
        if fields.contains_key(name) {
            fields[name].push(value)
        } else {
            seq![value]
        },
    )
}

/// What reading a header block from `rest` gives, when `budget` bytes may be
/// consumed and `fields` have been read so far: the fields and the bytes
/// after the block, or the failure.  The block ends at the first empty line,
/// or where the input ends.
pub open spec fn parse_block(
    rest: Seq<u8>,
    budget: nat,
    fields: Map<Seq<char>, Seq<Seq<char>>>,
) -> Result<(Map<Seq<char>, Seq<Seq<char>>>, Seq<u8>), Failure>
    decreases rest.len(),
{
    let len = prefix_len(rest, EOL);
    let span = line_span(rest, EOL);
    let line = rest.take(len as int);
    if span > budget {
        Err(Failure::SizeExceeded)
    } else if len == 0 {
        Ok((fields, rest.skip(span as int)))
    } else if !valid_utf8(line) {
        Err(Failure::Encoding)
    } else {
        match parse_line(decode_utf8(line)) {
            Err(text) => Err(Failure::Format(text)),
            Ok((name, value)) => {
                proof {
                    lemma_prefix_len(rest, EOL);
                }
                parse_block(
                    rest.skip(span as int),
                    (budget - span) as nat,
                    added(fields, name, value),
                )
            },
        }
    }
}

/// What reading a header block from `rest` gives.
pub open spec fn parse_header(rest: Seq<u8>) -> Result<
    (Map<Seq<char>, Seq<Seq<char>>>, Seq<u8>),
    Failure,
> {
    parse_block(rest, MAX_HEADER_SIZE as nat, Map::empty())
}

/// What reading a command line from `rest` gives: the command and the bytes
/// after the line, or the failure.
pub open spec fn parse_command(rest: Seq<u8>) -> Result<(Command, Seq<u8>), Failure> {
    let len = prefix_len(rest, EOL);
    let span = line_span(rest, EOL);
    let line = rest.take(len as int);
    if span > MAX_COMMAND_SIZE {
        Err(Failure::SizeExceeded)
    } else if len == 0 {
        Err(Failure::Format(empty_command()))
    } else if !valid_utf8(line) {
        Err(Failure::Encoding)
    } else {
        let keyword = trim(decode_utf8(line));
        if keyword.len() == 0 {
            Err(Failure::Format(empty_command()))
        } else {
            match Command::parse(keyword) {
                Some(command) => Ok((command, rest.skip(span as int))),
                None => Err(Failure::Format(unknown_command(keyword))),
            }
        }
    }
}

/// The name of the field that gives the length of the body.
pub open spec fn content_length_name() -> Seq<char> {
    "Content-Length"@
}

/// The length that the header declares for the body: the first value of
/// `Content-Length` read as a number.  `Ok(0)` where the header declares
/// none; `Err` with the value where it is no number.
pub open spec fn declared_length(fields: Map<Seq<char>, Seq<Seq<char>>>) -> Result<
    u64,
    Seq<char>,
> {
    let name = content_length_name();
    if fields.contains_key(name) && fields[name].len() > 0 {
        match parse_number(fields[name][0]) {
            Some(n) => Ok(n),
            None => Err(fields[name][0]),
        }
    } else {
        Ok(0)
    }
}

/// The head of a frame as plain values: the command, the fields, the
/// declared length of the body, and the bytes that follow the blank line.
pub struct Head {
    pub command: Command,
    pub fields: Map<Seq<char>, Seq<Seq<char>>>,
    pub length: u64,
    pub rest: Seq<u8>,
}

/// What reading the head of a frame from `rest` gives.
pub open spec fn parse_head(rest: Seq<u8>) -> Result<Head, Failure> {
    match parse_command(rest) {
        Err(e) => Err(e),
        Ok((command, after_command)) => match parse_header(after_command) {
            Err(e) => Err(e),
            Ok((fields, after_header)) => match declared_length(fields) {
                Err(text) => Err(Failure::ContentLength(text)),
                Ok(length) => Ok(Head { command, fields, length, rest: after_header }),
            },
        },
    }
}

/// The bytes of a body of declared length `length` that starts at `rest`.
/// A declared length counts the bytes; without one the body ends before the
/// first NUL.
pub open spec fn body_bytes(length: u64, rest: Seq<u8>) -> Seq<u8> {
    if length > 0 {
        rest.take(least(length as nat, rest.len()) as int)
    } else {
        rest.take(prefix_len(rest, NULL) as int)
    }
}

/// The number of bytes that a frame's body and terminator take from `rest`.
/// After a body of declared length the terminator is the next byte, if that
/// byte is NUL.
pub open spec fn body_span(length: u64, rest: Seq<u8>) -> nat {
    if length > 0 {
        let n = least(length as nat, rest.len());
        if n == length && n < rest.len() && rest[n as int] == NULL {
            n + 1
        } else {
            n
        }
    } else {
        line_span(rest, NULL)
    }
}

} // verus!
