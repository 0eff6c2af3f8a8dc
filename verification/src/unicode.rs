//! Facts about UTF-8 that the wire format rests on: a byte below 0x80
//! stands in encoded text only for the character with that code.

use vstd::prelude::*;
use vstd::utf8::{
    char_is_scalar,
    char_u32_cast,
    encode_scalar,
    encode_utf8,
    has_width_1_encoding,
    has_width_2_encoding,
    has_width_3_encoding,
};

verus! {

/// The bits that the encoding sets: a lone byte keeps the value, and every
/// byte of a longer encoding has its top bit set.
proof fn lemma_byte_ranges(v: u32)
    by (bit_vector)
    ensures
        v <= 0x7F ==> (v & 0x7F) as u8 == v as u8,
        v <= 0x7F ==> (v & 0x7F) as u8 <= 0x7Fu8,
        (0xC0u8 | ((v >> 6) & 0x1F) as u8) >= 0x80u8,
        (0xE0u8 | ((v >> 12) & 0x0F) as u8) >= 0x80u8,
        (0xF0u8 | ((v >> 18) & 0x7) as u8) >= 0x80u8,
        (0x80u8 | (v & 0x3F) as u8) >= 0x80u8,
        (0x80u8 | ((v >> 6) & 0x3F) as u8) >= 0x80u8,
        (0x80u8 | ((v >> 12) & 0x3F) as u8) >= 0x80u8,
{
}

/// A character below 0x80 is encoded as the one byte with its code; every
/// byte of the encoding of another character is 0x80 or more.
pub proof fn lemma_encode_scalar_bytes(c: char)
    ensures
        encode_scalar(c as u32).len() >= 1,
        (c as u32) < 0x80 ==> encode_scalar(c as u32) == seq![(c as u32) as u8],
        (c as u32) >= 0x80 ==> forall|i: int|
            0 <= i < encode_scalar(c as u32).len() ==> #[trigger] encode_scalar(c as u32)[i]
                >= 0x80,
{
    let v = c as u32;
    char_is_scalar(c);
    lemma_byte_ranges(v);
    if has_width_1_encoding(v) {
        assert(encode_scalar(v) =~= seq![v as u8]);
    } else if has_width_2_encoding(v) {
    } else if has_width_3_encoding(v) {
    } else {
    }
}

/// The encoding of two texts in a row is their encodings in a row.
pub proof fn lemma_encode_concat(a: Seq<char>, b: Seq<char>)
    ensures
        encode_utf8(a + b) == encode_utf8(a) + encode_utf8(b),
    decreases a.len(),
{
    if a.len() == 0 {
        assert(a + b =~= b);
        assert(encode_utf8(a) + encode_utf8(b) =~= encode_utf8(b));
    } else {
        assert((a + b).drop_first() =~= a.drop_first() + b);
        lemma_encode_concat(a.drop_first(), b);
        assert(encode_utf8(a + b) =~= encode_utf8(a) + encode_utf8(b));
    }
}

/// A text of one character below 0x80 is encoded as one byte.
pub proof fn lemma_encode_ascii_char(c: char)
    requires
        (c as u32) < 0x80,
    ensures
        encode_utf8(seq![c]) == seq![(c as u32) as u8],
{
    lemma_encode_scalar_bytes(c);
    assert(seq![c].drop_first() =~= Seq::<char>::empty());
    assert(encode_utf8(Seq::<char>::empty()) =~= Seq::<u8>::empty());
    assert(encode_utf8(seq![c]) =~= encode_scalar(c as u32) + encode_utf8(seq![c].drop_first()));
    assert(encode_utf8(seq![c]) =~= seq![(c as u32) as u8]);
}

/// A text is encoded in at least as many bytes as it has characters.
pub proof fn lemma_encode_len(s: Seq<char>)
    ensures
        encode_utf8(s).len() >= s.len(),
    decreases s.len(),
{
    if s.len() > 0 {
        lemma_encode_scalar_bytes(s[0]);
        lemma_encode_len(s.drop_first());
    }
}

/// The byte of a character below 0x80 occurs in encoded text only where the
/// text has that character.
pub proof fn lemma_encode_keeps_ascii_out(s: Seq<char>, c: char)
    requires
        (c as u32) < 0x80,
        forall|i: int| 0 <= i < s.len() ==> #[trigger] s[i] != c,
    ensures
        forall|j: int|
            0 <= j < encode_utf8(s).len() ==> #[trigger] encode_utf8(s)[j] != (c as u32) as u8,
    decreases s.len(),
{
    if s.len() > 0 {
        let v = s[0] as u32;
        let head = encode_scalar(v);
        let tail = encode_utf8(s.drop_first());
        lemma_encode_scalar_bytes(s[0]);
        assert forall|i: int| 0 <= i < s.drop_first().len() implies #[trigger] s.drop_first()[i]
            != c by {
            assert(s.drop_first()[i] == s[i + 1]);
        }
        lemma_encode_keeps_ascii_out(s.drop_first(), c);
        assert(encode_utf8(s) =~= head + tail);
        assert(s[0] != c);
        if v == c as u32 {
            char_u32_cast(s[0], v);
            char_u32_cast(c, v);
        }
        assert forall|j: int| 0 <= j < encode_utf8(s).len() implies #[trigger] encode_utf8(s)[j]
            != (c as u32) as u8 by {
            if j < head.len() {
                assert(encode_utf8(s)[j] == head[j]);
                if v < 0x80 {
                    assert(head[j] == v as u8);
                } else {
                    assert(head[j] >= 0x80);
                }
            } else {
                assert(encode_utf8(s)[j] == tail[j - head.len()]);
            }
        }
    }
}

} // verus!
