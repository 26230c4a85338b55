//! Pieces of a string by byte positions, and where such positions may lie.

use vstd::prelude::*;
use vstd::string::StringSliceAdditionalSpecFns;
use vstd::utf8::{
    decode_utf8, encode_utf8, encode_utf8_decode_utf8, encode_utf8_valid_utf8, is_ascii_chars,
    is_ascii_chars_encode_utf8, is_char_boundary, is_char_boundary_iff_not_is_continuation_byte,
    is_char_boundary_start_end_of_seq, length_of_first_scalar, pop_first_scalar, valid_utf8,
};

verus! {

/// In UTF-8 text a character starts at every ASCII byte.
pub proof fn lemma_boundary_at_ascii(s: Seq<u8>, i: int)
    requires
        valid_utf8(s),
        0 <= i < s.len(),
        s[i] <= 0x7f,
    ensures
        is_char_boundary(s, i),
{
    is_char_boundary_iff_not_is_continuation_byte(s, i);
}

/// In UTF-8 text a character ends with every ASCII byte.
pub proof fn lemma_boundary_after_ascii(s: Seq<u8>, i: int)
    requires
        valid_utf8(s),
        0 <= i < s.len(),
        s[i] <= 0x7f,
    ensures
        is_char_boundary(s, i + 1),
    decreases s.len(),
{
    lemma_boundary_at_ascii(s, i);
    reveal_with_fuel(is_char_boundary, 2);
    if i > 0 {
        lemma_boundary_after_ascii(pop_first_scalar(s), i - length_of_first_scalar(s));
    }
}

/// The characters that ASCII bytes stand for: one for each byte, with the
/// number of the byte.
pub open spec fn ascii_text(bytes: Seq<u8>) -> Seq<char> {
    Seq::new(bytes.len(), |i: int| bytes[i] as char)
}

/// ASCII bytes are UTF-8 text, and the text is one character for each byte.
pub proof fn lemma_text_of_ascii(bytes: Seq<u8>)
    requires
        forall|i: int| 0 <= i < bytes.len() ==> #[trigger] bytes[i] <= 0x7f,
    ensures
        valid_utf8(bytes),
        decode_utf8(bytes) == ascii_text(bytes),
{
    let chars = ascii_text(bytes);
    assert(is_ascii_chars(chars)) by {
        assert forall|i: int| 0 <= i < chars.len() implies '\0' <= #[trigger] chars[i]
            <= '\u{7f}' by {
            assert(bytes[i] <= 0x7f);
        }
    }
    is_ascii_chars_encode_utf8(chars);
    assert(encode_utf8(chars) =~= bytes) by {
        assert forall|i: int| 0 <= i < bytes.len() implies encode_utf8(chars)[i] == bytes[i] by {
            assert(bytes[i] <= 0x7f);
            assert(chars[i] as u8 == bytes[i]);
        }
    }
    encode_utf8_valid_utf8(chars);
    encode_utf8_decode_utf8(chars);
}

/// The piece of `input` from byte `start` up to, not including, byte `end`.
pub fn slice<'a>(input: &'a str, start: usize, end: usize) -> (piece: &'a str)
    requires
        start <= end <= input.spec_bytes().len(),
        is_char_boundary(input.spec_bytes(), start as int),
        is_char_boundary(input.spec_bytes(), end as int),
    ensures
        piece.spec_bytes() == input.spec_bytes().subrange(start as int, end as int),
{
    let (head, _) = input.split_at(end);
    proof {
        let s = input.spec_bytes();
        let h = head.spec_bytes();
        encode_utf8_valid_utf8(input@);
        encode_utf8_valid_utf8(head@);
        assert(h =~= s.subrange(0, end as int));
        if start < end {
            is_char_boundary_iff_not_is_continuation_byte(s, start as int);
            is_char_boundary_iff_not_is_continuation_byte(h, start as int);
        } else {
            is_char_boundary_start_end_of_seq(h);
        }
    }
    let (_, piece) = head.split_at(start);
    assert(piece.spec_bytes() =~= input.spec_bytes().subrange(start as int, end as int));
    piece
}

} // verus!
