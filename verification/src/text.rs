//! What the UTF-8 form of a text shows of its characters.

use vstd::prelude::*;
use vstd::utf8::{
    char_is_scalar, char_u32_cast, encode_scalar, encode_utf8, has_width_1_encoding, is_scalar,
};

verus! {

proof fn lemma_single_byte(c: u32)
    by (bit_vector)
    requires
        c <= 0x7f,
    ensures
        (c & 0x7F) as u8 == c,
{
}

proof fn lemma_leading_bytes(c: u32)
    by (bit_vector)
    ensures
        0xC0u8 | ((c >> 6) & 0x1F) as u8 >= 0xC0u8,
        0xE0u8 | ((c >> 12) & 0x0F) as u8 >= 0xE0u8,
        0xF0u8 | ((c >> 18) & 0x7) as u8 >= 0xF0u8,
{
}

proof fn lemma_continuation_bytes(c: u32)
    by (bit_vector)
    ensures
        0x80u8 | (c & 0x3F) as u8 >= 0x80u8,
        0x80u8 | ((c >> 6) & 0x3F) as u8 >= 0x80u8,
        0x80u8 | ((c >> 12) & 0x3F) as u8 >= 0x80u8,
{
}

/// The UTF-8 form of a character is not empty; it is the one byte `c` for a
/// character below 0x80, and holds only bytes from 0x80 up for any other.
pub proof fn lemma_scalar_bytes(c: u32)
    requires
        is_scalar(c),
    ensures
        encode_scalar(c).len() >= 1,
        c <= 0x7f ==> encode_scalar(c) == seq![c as u8],
        c > 0x7f ==> forall|i: int|
            0 <= i < encode_scalar(c).len() ==> #[trigger] encode_scalar(c)[i] >= 0x80u8,
{
    lemma_leading_bytes(c);
    lemma_continuation_bytes(c);
    if has_width_1_encoding(c) {
        lemma_single_byte(c);
        assert(encode_scalar(c) =~= seq![c as u8]);
    }
}

/// The UTF-8 form of a text holds a NUL exactly where the text holds the
/// character NUL.
pub proof fn lemma_nul_bytes(text: Seq<char>)
    ensures
        encode_utf8(text).contains(0u8) <==> text.contains('\0'),
    decreases text.len(),
{
    if text.len() > 0 {
        let c = text[0] as u32;
        let head = encode_scalar(c);
        let tail = encode_utf8(text.drop_first());
        char_is_scalar(text[0]);
        char_u32_cast(text[0], c);
        char_u32_cast('\0', 0u32);
        lemma_scalar_bytes(c);
        lemma_nul_bytes(text.drop_first());
        assert(encode_utf8(text) == head + tail);
        if encode_utf8(text).contains(0u8) {
            let i = choose|i: int| 0 <= i < encode_utf8(text).len() && encode_utf8(text)[i] == 0u8;
            if i < head.len() {
                assert(head[i] == 0u8);
                assert(c == 0);
                assert(text[0] == '\0');
            } else {
                assert(tail[i - head.len()] == 0u8);
                assert(tail.contains(0u8));
                let j = choose|j: int|
                    0 <= j < text.drop_first().len() && text.drop_first()[j] == '\0';
                assert(text[j + 1] == '\0');
            }
        }
        if text.contains('\0') {
            let j = choose|j: int| 0 <= j < text.len() && text[j] == '\0';
            if j == 0 {
                assert(encode_utf8(text)[0] == 0u8);
            } else {
                assert(text.drop_first()[j - 1] == '\0');
                assert(text.drop_first().contains('\0'));
                let i = choose|i: int| 0 <= i < tail.len() && tail[i] == 0u8;
                assert(encode_utf8(text)[head.len() + i] == 0u8);
            }
        }
    }
}

/// The UTF-8 form of a text starts with the byte `/` exactly where the text
/// starts with the character `/`.
pub proof fn lemma_first_byte(text: Seq<char>)
    requires
        text.len() > 0,
    ensures
        encode_utf8(text).len() > 0,
        encode_utf8(text)[0] == 0x2fu8 <==> text[0] == '/',
{
    let c = text[0] as u32;
    char_is_scalar(text[0]);
    char_u32_cast(text[0], c);
    char_u32_cast('/', 0x2fu32);
    lemma_scalar_bytes(c);
    assert(encode_utf8(text)[0] == encode_scalar(c)[0]);
    if c > 0x7f {
        assert(encode_scalar(c)[0] >= 0x80u8);
    }
}

} // verus!
