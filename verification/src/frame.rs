//! A frame: a command, a header and a body.

use vstd::prelude::*;
use vstd::string::*;
use crate::body::Body;
use crate::command::{lemma_names_distinct, Command};
use crate::error::{Failure, ReadError};
use crate::header::{lines_of, Header};
use crate::io::{DelimitedReader, LimitedReader, MemReader};
use crate::scan::{lemma_prefix_len, prefix_len};
use crate::text::{decode_text, from_chars, read_number, skip_whitespace, skip_whitespace_back};
use crate::wire::{
    frame_wire,
    parse_command,
    parse_head,
    Head,
    EOL,
    MAX_COMMAND_SIZE,
    NULL,
};

verus! {

/// One message of the protocol.  The command and the header are held as
/// values; the body is read from the source when it is asked for.
#[derive(Debug)]
pub struct Frame {
    pub command: Command,
    pub header: Header,
    pub body: Body,
}

impl Frame {
    /// A frame with an empty header.
    pub fn new(command: Command, body: Body) -> (frame: Frame)
        ensures
            frame.command == command,
            frame.header@ == Map::<Seq<char>, Seq<Seq<char>>>::empty(),
            frame.body == body,
    {
        Frame { command, header: Header::new(), body }
    }

    /// A frame of the given parts.
    pub fn with_header(command: Command, header: Header, body: Body) -> (frame: Frame)
        ensures
            frame.command == command,
            frame.header == header,
            frame.body == body,
    {
        Frame { command, header, body }
    }

    /// Writes the frame to `w`: the keyword of the command and a newline,
    /// the header lines, an empty line, all of the body that has not been
    /// read, and a NUL.  Returns the number of bytes written.
    pub fn write_to(&mut self, w: &mut Vec<u8>) -> (n: u64)
        ensures
            final(w)@ == old(w)@ + frame_wire(
                old(self).command,
                lines_of(old(self).header@),
                old(self).body.pending(),
            ),
            n == frame_wire(
                old(self).command,
                lines_of(old(self).header@),
                old(self).body.pending(),
            ).len(),
            final(self).command == old(self).command,
            final(self).header == old(self).header,
            final(self).body.source().advanced(&old(self).body.source(), old(self).body.span()),
            final(self).body.bounded() == old(self).body.bounded(),
            final(self).body.pending().len() == 0,
            final(self).body.span() == 0,
    {
        let ghost start = w@;
        let start_len = w.len();
        w.extend_from_slice(self.command.as_str().as_bytes());
        w.push(EOL);
        self.header.write_to(w);
        w.push(EOL);
        self.body.read_to_end(w);
        w.push(NULL);
        assert(w@ =~= start + frame_wire(
            old(self).command,
            lines_of(old(self).header@),
            old(self).body.pending(),
        ));
        let end_len = w.len();
        (end_len - start_len) as u64
    }

    /// Reads the command line from `reader`.  Gives back the command and the
    /// reader, which stands after the line.
    pub fn read_command(reader: MemReader) -> (r: Result<(Command, MemReader), ReadError>)
        ensures
            match r {
                Ok((command, rest)) => parse_command(reader.remaining()) == Ok::<
                    (Command, Seq<u8>),
                    Failure,
                >((command, rest.remaining())) && rest.chunk_size() == reader.chunk_size(),
                Err(e) => parse_command(reader.remaining()) == Err::<(Command, Seq<u8>), Failure>(
                    e@,
                ),
            },
    {
        let ghost rest = reader.remaining();
        proof {
            lemma_prefix_len(rest, EOL);
        }
        let limited = LimitedReader::new(reader, MAX_COMMAND_SIZE);
        let mut line_reader = DelimitedReader::new(limited, EOL);
        let mut buffer: Vec<u8> = Vec::new();
        let n = match line_reader.read_to_end(&mut buffer) {
            Ok(n) => n,
            Err(e) => {
                return Err(e);
            },
        };
        if n < 1 {
            return Err(ReadError::Format(String::from_str("empty command")));
        }
        assert(buffer@ =~= rest.take(prefix_len(rest, EOL) as int));
        let chars = match decode_text(buffer.as_slice()) {
            Some(chars) => chars,
            None => {
                return Err(ReadError::Encoding);
            },
        };
        assert(chars@.subrange(0, chars@.len() as int) =~= chars@);
        let from = skip_whitespace(&chars, 0, chars.len());
        let to = skip_whitespace_back(&chars, from, chars.len());
        if from == to {
            assert(chars@.subrange(from as int, to as int).len() == 0);
            return Err(ReadError::Format(String::from_str("empty command")));
        }
        let keyword = from_chars(&chars, from, to);
        match Command::from_str(keyword.as_str()) {
            Ok(command) => {
                proof {
                    lemma_names_distinct(command, command);
                }
                Ok((command, line_reader.into_inner().into_inner()))
            },
            Err(text) => {
                assert(Command::parse(keyword@) is None);
                Err(ReadError::Format(text))
            },
        }
    }

    /// Reads the head of a frame from `reader`: the command line, then the
    /// header block.  The body is not read: the frame holds a reader of
    /// it, of the length that the first value of `Content-Length` declares,
    /// or up to the next NUL where the header has no such field.
    pub fn read_from(reader: MemReader) -> (r: Result<Frame, ReadError>)
        ensures
            match r {
                Ok(frame) => {
                    &&& parse_head(reader.remaining()) matches Ok(head)
                    &&& frame.command == head.command
                    &&& frame.header@ == head.fields
                    &&& frame.body.fresh(head.length, head.rest)
                    &&& frame.body.source().chunk_size() == reader.chunk_size()
                },
                Err(e) => parse_head(reader.remaining()) == Err::<Head, Failure>(e@),
            },
    {
        let (command, reader) = match Frame::read_command(reader) {
            Ok(pair) => pair,
            Err(e) => {
                return Err(e);
            },
        };
        let (header, reader) = match Header::read_from(reader) {
            Ok(pair) => pair,
            Err(e) => {
                return Err(e);
            },
        };
        let declared: Option<u64> = match header.get_field("Content-Length") {
            Some(values) => {
                if values.len() > 0 {
                    match read_number(values[0].as_str()) {
                        Some(n) => Some(n),
                        None => {
                            return Err(ReadError::ContentLength(values[0].clone()));
                        },
                    }
                } else {
                    None
                }
            },
            None => None,
        };
        let body = match declared {
            Some(n) => Body::with_length(reader, n),
            None => Body::new(reader),
        };
        Ok(Frame::with_header(command, header, body))
    }

    /// Ends the frame: discards what is left of its body and gives the
    /// source back, standing after the frame.
    pub fn close(self) -> (reader: MemReader)
        ensures
            reader.advanced(&self.body.source(), self.body.close_span()),
    {
        self.body.close()
    }
}

} // verus!
