//! The escape codec for header names and values.
//!
//! Four characters cannot stand for themselves in a header line: the
//! backslash, the newline, the carriage return and the colon.  [`encode`]
//! writes each as a backslash and a code character; [`decode`] reads them
//! back in one pass and leaves every other backslash sequence as it is.

use vstd::prelude::*;
use crate::text::{from_chars, to_chars};

verus! {

/// What `c` becomes in an encoded string.
pub open spec fn escape_char(c: char) -> Seq<char> {
    if c == '\\' {
        seq!['\\', '\\']
    } else if c == '\n' {
        seq!['\\', 'n']
    } else if c == '\r' {
        seq!['\\', 'r']
    } else if c == ':' {
        seq!['\\', 'c']
    } else {
        seq![c]
    }
}

/// The encoded form of `s`: each character replaced by its `escape_char`.
pub open spec fn escape(s: Seq<char>) -> Seq<char>
    decreases s.len(),
{
    if s.len() == 0 {
        Seq::empty()
    } else {
        escape_char(s[0]) + escape(s.drop_first())
    }
}

/// The character that a backslash followed by `code` stands for, if `code`
/// is one of the four recognized codes.
pub open spec fn escape_code(code: char) -> Option<char> {
    if code == '\\' {
        Some('\\')
    } else if code == 'n' {
        Some('\n')
    } else if code == 'r' {
        Some('\r')
    } else if code == 'c' {
        Some(':')
    } else {
        None
    }
}

/// The decoded form of `s`, read from left to right: a backslash with a
/// recognized code after it gives the character it stands for, and every
/// other character, a lone backslash too, gives itself.
pub open spec fn unescape(s: Seq<char>) -> Seq<char>
    decreases s.len(),
{
    if s.len() == 0 {
        Seq::empty()
    } else if s[0] == '\\' && s.len() >= 2 && escape_code(s[1]) is Some {
        seq![escape_code(s[1])->0] + unescape(s.skip(2))
    } else {
        seq![s[0]] + unescape(s.drop_first())
    }
}

/// Decoding undoes encoding, for every string.
pub proof fn lemma_unescape_escape(s: Seq<char>)
    ensures
        unescape(escape(s)) == s,
    decreases s.len(),
{
    if s.len() == 0 {
    } else {
        let c = s[0];
        let rest = s.drop_first();
        let e = escape(s);
        lemma_unescape_escape(rest);
        if c == '\\' || c == '\n' || c == '\r' || c == ':' {
            assert(e.skip(2) =~= escape(rest));
            assert(unescape(e) =~= seq![c] + rest);
        } else {
            assert(e.drop_first() =~= escape(rest));
            assert(unescape(e) =~= seq![c] + rest);
        }
        assert(seq![c] + rest =~= s);
    }
}

/// An encoded string holds no newline, carriage return or colon.
pub proof fn lemma_escape_is_clean(s: Seq<char>)
    ensures
        forall|i: int|
            0 <= i < escape(s).len() ==> {
                let c = #[trigger] escape(s)[i];
                c != '\n' && c != '\r' && c != ':'
            },
    decreases s.len(),
{
    if s.len() > 0 {
        lemma_escape_is_clean(s.drop_first());
        let head = escape_char(s[0]);
        let tail = escape(s.drop_first());
        assert forall|i: int| 0 <= i < escape(s).len() implies {
            let c = #[trigger] escape(s)[i];
            c != '\n' && c != '\r' && c != ':'
        } by {
            if i >= head.len() {
                assert(escape(s)[i] == tail[i - head.len()]);
            }
        }
    }
}

/// The encoded form of the characters of `v`.
pub(crate) fn escape_chars(v: &Vec<char>) -> (r: Vec<char>)
    ensures
        r@ == escape(v@),
{
    let mut out: Vec<char> = Vec::new();
    let mut i: usize = 0;
    assert(v@.skip(0) =~= v@);
    while i < v.len()
        invariant
            i <= v@.len(),
            out@ + escape(v@.skip(i as int)) == escape(v@),
        decreases v@.len() - i,
    {
        let c = v[i];
        let ghost before = out@;
        assert(v@.skip(i as int).drop_first() =~= v@.skip(i + 1));
        if c == '\\' {
            out.push('\\');
            out.push('\\');
        } else if c == '\n' {
            out.push('\\');
            out.push('n');
        } else if c == '\r' {
            out.push('\\');
            out.push('r');
        } else if c == ':' {
            out.push('\\');
            out.push('c');
        } else {
            out.push(c);
        }
        assert(out@ =~= before + escape_char(c));
        assert(out@ + escape(v@.skip(i + 1)) =~= before + escape(v@.skip(i as int)));
        i = i + 1;
    }
    assert(out@ + escape(v@.skip(i as int)) =~= out@);
    out
}

/// The decoded form of the characters `v[from..to]`.
pub(crate) fn unescape_chars(v: &Vec<char>, from: usize, to: usize) -> (r: Vec<char>)
    requires
        from <= to <= v@.len(),
    ensures
        r@ == unescape(v@.subrange(from as int, to as int)),
{
    let mut out: Vec<char> = Vec::new();
    let mut i: usize = from;
    let ghost whole = v@.subrange(from as int, to as int);
    while i < to
        invariant
            from <= i <= to <= v@.len(),
            whole == v@.subrange(from as int, to as int),
            out@ + unescape(v@.subrange(i as int, to as int)) == unescape(whole),
        decreases to - i,
    {
        let c = v[i];
        let ghost before = out@;
        let ghost here = v@.subrange(i as int, to as int);
        assert(here[0] == c);
        if c == '\\' && i + 1 < to {
            let code = v[i + 1];
            assert(here[1] == code);
            let plain: Option<char> = if code == '\\' {
                Some('\\')
            } else if code == 'n' {
                Some('\n')
            } else if code == 'r' {
                Some('\r')
            } else if code == 'c' {
                Some(':')
            } else {
                None
            };
            assert(plain == escape_code(code));
            match plain {
                Some(p) => {
                    out.push(p);
                    assert(here.skip(2) =~= v@.subrange(i + 2, to as int));
                    assert(out@ + unescape(v@.subrange(i + 2, to as int)) =~= before + unescape(
                        here,
                    ));
                    i = i + 2;
                },
                None => {
                    out.push(c);
                    assert(here.drop_first() =~= v@.subrange(i + 1, to as int));
                    assert(out@ + unescape(v@.subrange(i + 1, to as int)) =~= before + unescape(
                        here,
                    ));
                    i = i + 1;
                },
            }
        } else {
            out.push(c);
            assert(here.drop_first() =~= v@.subrange(i + 1, to as int));
            assert(out@ + unescape(v@.subrange(i + 1, to as int)) =~= before + unescape(here));
            i = i + 1;
        }
    }
    assert(out@ + unescape(v@.subrange(i as int, to as int)) =~= out@);
    out
}

/// Encodes a header name or value for the wire: backslash becomes `\\`,
/// newline `\n`, carriage return `\r` and colon `\c`.
pub fn encode(s: &str) -> (r: String)
    ensures
        r@ == escape(s@),
{
    let chars = to_chars(s);
    let escaped = escape_chars(&chars);
    let r = from_chars(&escaped, 0, escaped.len());
    assert(escaped@.subrange(0, escaped@.len() as int) =~= escaped@);
    r
}

/// Decodes a header name or value read from the wire.  A backslash sequence
/// that is none of the four recognized ones is kept as it stands.
pub fn decode(s: &str) -> (r: String)
    ensures
        r@ == unescape(s@),
{
    let chars = to_chars(s);
    assert(chars@.subrange(0, chars@.len() as int) =~= chars@);
    let plain = unescape_chars(&chars, 0, chars.len());
    let r = from_chars(&plain, 0, plain.len());
    assert(plain@.subrange(0, plain@.len() as int) =~= plain@);
    r
}

} // verus!
