//! What holds of the codec as a whole: that reading undoes writing, and
//! that oversized and malformed input is refused.

use vstd::prelude::*;
use vstd::utf8::{
    decode_utf8,
    encode_utf8,
    encode_utf8_decode_utf8,
    encode_utf8_valid_utf8,
    is_ascii_chars,
    is_ascii_chars_encode_utf8,
    valid_utf8,
};
use crate::body::Body;
use crate::command::{lemma_names_distinct, Command};
use crate::error::Failure;
use crate::header::{as_map, lemma_absent, lemma_insert, sorted, Line};
use crate::order::name_lt;
use crate::io::line_span;
use crate::scan::{lemma_prefix_len, lemma_prefix_len_is, prefix_len};
use crate::string::{escape, lemma_escape_is_clean, lemma_unescape_escape, unescape};
use crate::text::{is_whitespace, join, strip_trailing, trim, trim_end, trim_start};
use crate::unicode::{
    lemma_encode_ascii_char,
    lemma_encode_concat,
    lemma_encode_keeps_ascii_out,
    lemma_encode_len,
};
use crate::wire::{
    added,
    body_bytes,
    body_span,
    declared_length,
    empty_name,
    field_line,
    frame_wire,
    header_wire,
    missing_colon,
    parse_block,
    parse_command,
    parse_head,
    parse_header,
    parse_line,
    Head,
    EOL,
    MAX_COMMAND_SIZE,
    MAX_HEADER_SIZE,
    NULL,
};

verus! {

/// A field that is read back as it was written: its name is not empty and
/// neither starts nor ends with whitespace, and it has one value, which does
/// not start with whitespace.
pub open spec fn plain_field(line: Line) -> bool {
    &&& line.0.len() > 0
    &&& trim(line.0) == line.0
    &&& line.1.len() == 1
    &&& trim_start(line.1[0]) == line.1[0]
}

/// Every field of `ls` is read back as it was written.
pub open spec fn plain_fields(ls: Seq<Line>) -> bool {
    forall|i: int| 0 <= i < ls.len() ==> plain_field(#[trigger] ls[i])
}

/// The line of a name and a value, without its newline, is read as that
/// name and that value.
pub proof fn lemma_parse_line_of_field(name: Seq<char>, value: Seq<char>)
    requires
        name.len() > 0,
        trim(name) == name,
        trim_start(value) == value,
    ensures
        parse_line(escape(name) + seq![':', ' '] + escape(value)) == Ok::<
            (Seq<char>, Seq<char>),
            Seq<char>,
        >((name, value)),
{
    let en = escape(name);
    let ev = escape(value);
    let line = en + seq![':', ' '] + ev;
    lemma_escape_is_clean(name);
    lemma_escape_is_clean(value);
    lemma_unescape_escape(name);
    lemma_unescape_escape(value);
    // No carriage return stands at the end of the line.
    assert(line.last() != '\r') by {
        if ev.len() > 0 {
            assert(line.last() == ev[ev.len() - 1]);
        } else {
            assert(line.last() == ' ');
        }
    }
    assert(strip_trailing(line, '\r') == line);
    // The first colon is the one after the name.
    let colon = en.len() as int;
    assert forall|i: int| 0 <= i < colon implies line[i] != ':' by {
        assert(line[i] == en[i]);
    }
    assert(line[colon] == ':');
    lemma_prefix_len_is(line, ':', colon);
    assert(line.take(colon) =~= en);
    // No colon follows it.
    let after = line.skip(colon + 1);
    assert(after =~= seq![' '] + ev);
    assert forall|i: int| 0 <= i < after.len() implies after[i] != ':' by {
        if i > 0 {
            assert(after[i] == ev[i - 1]);
        }
    }
    lemma_prefix_len_is(after, ':', after.len() as int);
    assert(after.take(after.len() as int) =~= after);
    // The space after the colon is the whitespace that is cut off.
    assert(after.drop_first() =~= ev);
    assert(unescape(after) =~= seq![' '] + value);
    assert((seq![' '] + value).drop_first() =~= value);
    assert(is_whitespace(' '));
    assert(trim_start(seq![' '] + value) == value);
}

/// Reading the header lines of sorted, plain fields from place `i` on, and
/// the blank line after them, adds those fields to the ones before place
/// `i` and stops after the blank line.
pub proof fn lemma_parse_block_of_wire(ls: Seq<Line>, i: int, tail: Seq<u8>, budget: nat)
    requires
        sorted(ls),
        plain_fields(ls),
        0 <= i <= ls.len(),
        budget >= header_wire(ls.skip(i)).len() + 1,
    ensures
        parse_block(header_wire(ls.skip(i)) + seq![EOL] + tail, budget, as_map(ls.take(i))) == Ok::<
            (Map<Seq<char>, Seq<Seq<char>>>, Seq<u8>),
            Failure,
        >((as_map(ls), tail)),
    decreases ls.len() - i,
{
    let rest = header_wire(ls.skip(i)) + seq![EOL] + tail;
    if i == ls.len() {
        assert(ls.skip(i) =~= Seq::<Line>::empty());
        assert(rest =~= seq![EOL] + tail);
        assert(rest[0] == EOL);
        assert(prefix_len(rest, EOL) == 0);
        assert(rest.skip(1) =~= tail);
        assert(ls.take(i) =~= ls);
    } else {
        let line = ls[i];
        let name = line.0;
        let value = line.1[0];
        assert(plain_field(line));
        assert(line.1 =~= seq![value]);
        assert(join(line.1, ',') == value);
        let content = escape(name) + seq![':', ' '] + escape(value);
        let bytes = encode_utf8(content);
        let next = header_wire(ls.skip(i + 1)) + seq![EOL] + tail;
        // The line on the wire is the encoded text and a newline byte.
        assert(ls.skip(i).drop_first() =~= ls.skip(i + 1));
        assert(ls.skip(i)[0] == line);
        assert(field_line(line) =~= content + seq!['\n']);
        lemma_encode_concat(content, seq!['\n']);
        lemma_encode_ascii_char('\n');
        assert(encode_utf8(field_line(line)) == bytes + seq![EOL]);
        assert(rest =~= bytes + seq![EOL] + next);
        // The text holds no newline, so its bytes hold no newline byte.
        lemma_escape_is_clean(name);
        lemma_escape_is_clean(value);
        assert forall|k: int| 0 <= k < content.len() implies #[trigger] content[k] != '\n' by {
            let n = escape(name).len();
            if k < n {
                assert(content[k] == escape(name)[k]);
            } else if k >= n + 2 {
                assert(content[k] == escape(value)[k - n - 2]);
            } else if k == n {
                assert(content[k] == ':');
            } else {
                assert(content[k] == ' ');
            }
        }
        lemma_encode_keeps_ascii_out(content, '\n');
        lemma_encode_len(content);
        let len = bytes.len() as int;
        assert forall|k: int| 0 <= k < len implies rest[k] != EOL by {
            assert(rest[k] == bytes[k]);
        }
        assert(rest[len] == EOL);
        lemma_prefix_len_is(rest, EOL, len);
        assert(rest.take(len) =~= bytes);
        assert(rest.skip(len + 1) =~= next);
        encode_utf8_valid_utf8(content);
        encode_utf8_decode_utf8(content);
        lemma_parse_line_of_field(name, value);
        // The name is new, as the names before it are smaller.
        let before = ls.take(i);
        assert forall|j: int| 0 <= j < i implies name_lt(
            (#[trigger] before[j]).0,
            name,
        ) by {
            assert(before[j] == ls[j]);
        }
        assert forall|a: int, b: int| 0 <= a < b < before.len() implies name_lt(
            (#[trigger] before[a]).0,
            (#[trigger] before[b]).0,
        ) by {
            assert(before[a] == ls[a]);
            assert(before[b] == ls[b]);
        }
        lemma_absent(before, i, name);
        lemma_insert(before, i, name, seq![value]);
        assert(before.insert(i, (name, seq![value])) =~= ls.take(i + 1));
        assert(added(as_map(before), name, value) == as_map(ls.take(i + 1)));
        lemma_parse_block_of_wire(ls, i + 1, tail, (budget - (len + 1)) as nat);
    }
}

/// The keyword of a command is plain upper-case text: between three and
/// eleven letters, nothing else.
pub proof fn lemma_name_is_plain(command: Command)
    ensures
        3 <= command.name().len() <= 11,
        forall|i: int|
            0 <= i < command.name().len() ==> 'A' <= (#[trigger] command.name()[i]) <= 'Z',
{
    reveal_strlit("CONNECT");
    reveal_strlit("STOMP");
    reveal_strlit("CONNECTED");
    reveal_strlit("SEND");
    reveal_strlit("SUBSCRIBE");
    reveal_strlit("UNSUBSCRIBE");
    reveal_strlit("ACK");
    reveal_strlit("NACK");
    reveal_strlit("BEGIN");
    reveal_strlit("COMMIT");
    reveal_strlit("ABORT");
    reveal_strlit("DISCONNECT");
    reveal_strlit("MESSAGE");
    reveal_strlit("RECEIPT");
    reveal_strlit("ERROR");
}

/// The command line of a command is read as that command.
pub proof fn lemma_parse_command_of_wire(command: Command, tail: Seq<u8>)
    ensures
        parse_command(encode_utf8(command.name()) + seq![EOL] + tail) == Ok::<
            (Command, Seq<u8>),
            Failure,
        >((command, tail)),
{
    let name = command.name();
    let bytes = encode_utf8(name);
    let rest = bytes + seq![EOL] + tail;
    lemma_name_is_plain(command);
    lemma_names_distinct(command, command);
    assert forall|k: int| 0 <= k < name.len() implies #[trigger] name[k] != '\n' by {
        assert('A' <= name[k] <= 'Z');
    }
    lemma_encode_keeps_ascii_out(name, '\n');
    assert(is_ascii_chars(name)) by {
        assert forall|k: int| 0 <= k < name.len() implies '\0' <= #[trigger] name[k]
            <= '\u{7f}' by {
            assert('A' <= name[k] <= 'Z');
        }
    }
    is_ascii_chars_encode_utf8(name);
    let len = bytes.len() as int;
    assert forall|k: int| 0 <= k < len implies rest[k] != EOL by {
        assert(rest[k] == bytes[k]);
    }
    assert(rest[len] == EOL);
    lemma_prefix_len_is(rest, EOL, len);
    assert(rest.take(len) =~= bytes);
    assert(rest.skip(len + 1) =~= tail);
    encode_utf8_valid_utf8(name);
    encode_utf8_decode_utf8(name);
    assert(!is_whitespace(name[0])) by {
        assert('A' <= name[0] <= 'Z');
    }
    assert(!is_whitespace(name.last())) by {
        assert('A' <= name[name.len() - 1] <= 'Z');
    }
    assert(trim_start(name) == name);
    assert(trim_end(name) == name);
}

/// Reading undoes writing.  Take a command, sorted plain fields whose
/// lines and blank line fit the size limit of a header block, and a body
/// that agrees with the header: of the declared length where the header
/// declares one, free of NUL bytes where it declares none.  Then reading the
/// written frame, whatever bytes `tail` follow it, gives the command, the
/// fields as a mapping and the body, and all of `tail` is left.
pub proof fn lemma_round_trip(command: Command, ls: Seq<Line>, body: Seq<u8>, tail: Seq<u8>)
    requires
        sorted(ls),
        plain_fields(ls),
        header_wire(ls).len() < MAX_HEADER_SIZE,
        declared_length(as_map(ls)) matches Ok(n) && if n > 0 {
            body.len() == n
        } else {
            forall|i: int| 0 <= i < body.len() ==> body[i] != NULL
        },
    ensures
        declared_length(as_map(ls)) matches Ok(n) && {
            let after = body + seq![NULL] + tail;
            &&& parse_head(frame_wire(command, ls, body) + tail) == Ok::<Head, Failure>(
                Head { command, fields: as_map(ls), length: n, rest: after },
            )
            &&& body_bytes(n, after) == body
            &&& body_span(n, after) == body.len() + 1
            &&& after.skip(body_span(n, after) as int) == tail
        },
{
    let n = declared_length(as_map(ls))->Ok_0;
    let after = body + seq![NULL] + tail;
    let block = header_wire(ls) + seq![EOL] + after;
    let whole = frame_wire(command, ls, body) + tail;
    assert(whole =~= encode_utf8(command.name()) + seq![EOL] + block);
    lemma_parse_command_of_wire(command, block);
    assert(ls.skip(0) =~= ls);
    assert(ls.take(0) =~= Seq::<Line>::empty());
    assert(as_map(Seq::<Line>::empty()) =~= Map::<Seq<char>, Seq<Seq<char>>>::empty());
    lemma_parse_block_of_wire(ls, 0, after, MAX_HEADER_SIZE as nat);
    assert(parse_header(block) == Ok::<(Map<Seq<char>, Seq<Seq<char>>>, Seq<u8>), Failure>(
        (as_map(ls), after),
    ));
    let m = body.len() as int;
    assert(after[m] == NULL);
    assert(after.take(m) =~= body);
    assert(after.skip(m + 1) =~= tail);
    if n == 0 {
        assert forall|i: int| 0 <= i < m implies after[i] != NULL by {
            assert(after[i] == body[i]);
        }
        lemma_prefix_len_is(after, NULL, m);
    }
}

/// A body of which nothing has been read holds the bytes, and takes the
/// span, that the wire format gives for its declared length.
pub proof fn lemma_fresh_body(body: Body, length: u64, rest: Seq<u8>)
    requires
        body.fresh(length, rest),
    ensures
        body.pending() == body_bytes(length, rest),
        body.close_span() == body_span(length, rest),
{
    lemma_prefix_len(rest, NULL);
}

/// A command line that goes on past the size limit without a newline is
/// refused as too long.
pub proof fn lemma_long_command_line(rest: Seq<u8>)
    requires
        rest.len() > MAX_COMMAND_SIZE,
        forall|i: int| 0 <= i < MAX_COMMAND_SIZE ==> rest[i] != EOL,
    ensures
        parse_command(rest) == Err::<(Command, Seq<u8>), Failure>(Failure::SizeExceeded),
{
    lemma_prefix_len(rest, EOL);
    if prefix_len(rest, EOL) < MAX_COMMAND_SIZE {
        assert(rest[prefix_len(rest, EOL) as int] == EOL);
    }
}

/// A header line that goes on past the budget without a newline is refused
/// as too long.
pub proof fn lemma_long_header_line(
    rest: Seq<u8>,
    budget: nat,
    fields: Map<Seq<char>, Seq<Seq<char>>>,
)
    requires
        rest.len() > budget,
        forall|i: int| 0 <= i < budget ==> rest[i] != EOL,
    ensures
        parse_block(rest, budget, fields) == Err::<
            (Map<Seq<char>, Seq<Seq<char>>>, Seq<u8>),
            Failure,
        >(Failure::SizeExceeded),
{
    lemma_prefix_len(rest, EOL);
    if prefix_len(rest, EOL) < budget {
        assert(rest[prefix_len(rest, EOL) as int] == EOL);
    }
}

/// The bytes `rest[from..to]` are a line of `rest`: they start `rest` or
/// follow a newline, they hold no newline, and a newline follows them.
pub open spec fn is_line(rest: Seq<u8>, from: int, to: int) -> bool {
    &&& 0 <= from <= to < rest.len()
    &&& (from == 0 || rest[from - 1] == EOL)
    &&& rest[to] == EOL
    &&& forall|k: int| from <= k < to ==> rest[k] != EOL
}

/// The bytes `line` are a header line that is read as a field.
pub open spec fn accepted(line: Seq<u8>) -> bool {
    line.len() > 0 && valid_utf8(line) && parse_line(decode_utf8(line)) is Ok
}

/// Every line of `rest` whose newline is among the first `budget` bytes is
/// read as a field; none of them is empty.
pub open spec fn lines_accepted(rest: Seq<u8>, budget: nat) -> bool {
    forall|from: int, to: int| #[trigger]
        is_line(rest, from, to) && to < budget ==> accepted(rest.subrange(from, to))
}

/// A header block that goes on past the budget without a blank line is
/// refused as too long, where no line of it is refused before.
pub proof fn lemma_long_header_block(
    rest: Seq<u8>,
    budget: nat,
    fields: Map<Seq<char>, Seq<Seq<char>>>,
)
    requires
        rest.len() > budget,
        lines_accepted(rest, budget),
    ensures
        parse_block(rest, budget, fields) == Err::<
            (Map<Seq<char>, Seq<Seq<char>>>, Seq<u8>),
            Failure,
        >(Failure::SizeExceeded),
    decreases rest.len(),
{
    lemma_prefix_len(rest, EOL);
    let len = prefix_len(rest, EOL) as int;
    let span = line_span(rest, EOL) as int;
    if span <= budget {
        assert(is_line(rest, 0, len));
        assert(rest.subrange(0, len) =~= rest.take(len));
        let next = rest.skip(span);
        assert forall|from: int, to: int| #[trigger]
            is_line(next, from, to) && to < budget - span implies accepted(
            next.subrange(from, to),
        ) by {
            assert(next[to] == rest[to + span]);
            if from > 0 {
                assert(next[from - 1] == rest[from + span - 1]);
            }
            assert forall|k: int| from + span <= k < to + span implies rest[k] != EOL by {
                assert(next[k - span] == rest[k]);
            }
            assert(is_line(rest, from + span, to + span));
            assert(next.subrange(from, to) =~= rest.subrange(from + span, to + span));
        }
        match parse_line(decode_utf8(rest.take(len))) {
            Ok((name, value)) => {
                lemma_long_header_block(next, (budget - span) as nat, added(fields, name, value));
            },
            Err(_) => {},
        }
    }
}

/// A header block whose first line is refused is refused with the text of
/// what is wrong with that line.
pub proof fn lemma_refused_line(
    rest: Seq<u8>,
    budget: nat,
    fields: Map<Seq<char>, Seq<Seq<char>>>,
    text: Seq<char>,
)
    requires
        prefix_len(rest, EOL) > 0,
        line_span(rest, EOL) <= budget,
        valid_utf8(rest.take(prefix_len(rest, EOL) as int)),
        parse_line(decode_utf8(rest.take(prefix_len(rest, EOL) as int))) == Err::<
            (Seq<char>, Seq<char>),
            Seq<char>,
        >(text),
    ensures
        parse_block(rest, budget, fields) == Err::<
            (Map<Seq<char>, Seq<Seq<char>>>, Seq<u8>),
            Failure,
        >(Failure::Format(text)),
{
}

/// A header line without a colon is refused.
pub proof fn lemma_line_without_colon(line: Seq<char>)
    requires
        forall|i: int| 0 <= i < line.len() ==> line[i] != ':',
    ensures
        parse_line(line) == Err::<(Seq<char>, Seq<char>), Seq<char>>(missing_colon()),
{
    let clean = strip_trailing(line, '\r');
    lemma_strip_trailing_is_prefix(line, '\r');
    lemma_prefix_len(clean, ':');
    if prefix_len(clean, ':') < clean.len() {
        assert(clean[prefix_len(clean, ':') as int] == line[prefix_len(clean, ':') as int]);
    }
}

/// A header line whose name is empty or all whitespace is refused.
pub proof fn lemma_line_without_name(line: Seq<char>)
    requires
        prefix_len(strip_trailing(line, '\r'), ':') < strip_trailing(line, '\r').len(),
        forall|i: int|
            0 <= i < prefix_len(strip_trailing(line, '\r'), ':') ==> is_whitespace(
                #[trigger] line[i],
            ),
    ensures
        parse_line(line) == Err::<(Seq<char>, Seq<char>), Seq<char>>(empty_name()),
{
    let clean = strip_trailing(line, '\r');
    let colon = prefix_len(clean, ':') as int;
    let raw = clean.take(colon);
    lemma_strip_trailing_is_prefix(line, '\r');
    assert forall|i: int| 0 <= i < raw.len() implies is_whitespace(#[trigger] raw[i]) by {
        assert(raw[i] == line[i]);
    }
    lemma_unescape_of_whitespace(raw);
    lemma_trim_start_of_whitespace(raw);
}

/// What is left when a run at the end is cut off is the start of the text.
pub proof fn lemma_strip_trailing_is_prefix(s: Seq<char>, c: char)
    ensures
        strip_trailing(s, c).len() <= s.len(),
        forall|i: int| 0 <= i < strip_trailing(s, c).len() ==> strip_trailing(s, c)[i] == s[i],
    decreases s.len(),
{
    if s.len() > 0 && s.last() == c {
        lemma_strip_trailing_is_prefix(s.drop_last(), c);
        let t = strip_trailing(s.drop_last(), c);
        assert forall|i: int| 0 <= i < strip_trailing(s, c).len() implies strip_trailing(s, c)[i]
            == s[i] by {
            assert(t[i] == s.drop_last()[i]);
        }
    }
}

/// Whitespace holds no backslash, so decoding leaves it as it is.
pub proof fn lemma_unescape_of_whitespace(s: Seq<char>)
    requires
        forall|i: int| 0 <= i < s.len() ==> is_whitespace(#[trigger] s[i]),
    ensures
        unescape(s) == s,
    decreases s.len(),
{
    if s.len() > 0 {
        assert(is_whitespace(s[0]));
        assert forall|i: int| 0 <= i < s.drop_first().len() implies is_whitespace(
            #[trigger] s.drop_first()[i],
        ) by {
            assert(s.drop_first()[i] == s[i + 1]);
        }
        lemma_unescape_of_whitespace(s.drop_first());
        assert(seq![s[0]] + s.drop_first() =~= s);
    }
}

/// Nothing is left of whitespace when whitespace is cut off.
pub proof fn lemma_trim_start_of_whitespace(s: Seq<char>)
    requires
        forall|i: int| 0 <= i < s.len() ==> is_whitespace(#[trigger] s[i]),
    ensures
        trim_start(s).len() == 0,
        trim(s).len() == 0,
    decreases s.len(),
{
    if s.len() > 0 {
        assert(is_whitespace(s[0]));
        assert forall|i: int| 0 <= i < s.drop_first().len() implies is_whitespace(
            #[trigger] s.drop_first()[i],
        ) by {
            assert(s.drop_first()[i] == s[i + 1]);
        }
        lemma_trim_start_of_whitespace(s.drop_first());
    }
}

} // verus!
