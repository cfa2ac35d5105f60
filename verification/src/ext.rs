//! Validation as methods of byte slices and string slices.
use crate::ascii::{self, all_ascii, lemma_all_ascii_split};
use crate::utf8;
use vstd::prelude::*;
use vstd::string::*;
use vstd::utf8::*;

verus! {

/// ASCII and UTF-8 validation of the bytes that a value holds.
pub trait SimdValidateExt {
    /// The bytes of the value, in order.
    spec fn validated_bytes(&self) -> Seq<u8>;

    /// Whether every byte of the value is ASCII.
    fn is_ascii_simd(&self) -> (r: bool)
        ensures
            r == all_ascii(self.validated_bytes()),
    ;

    /// Whether the bytes of the value are well-formed UTF-8.
    fn is_utf8_simd(&self) -> (r: bool)
        ensures
            r == valid_utf8(self.validated_bytes()),
    ;
}

impl SimdValidateExt for [u8] {
    open spec fn validated_bytes(&self) -> Seq<u8> {
        self@
    }

    fn is_ascii_simd(&self) -> (r: bool) {
        ascii::validate(self)
    }

    fn is_utf8_simd(&self) -> (r: bool) {
        utf8::validate(self)
    }
}

impl SimdValidateExt for str {
    open spec fn validated_bytes(&self) -> Seq<u8> {
        self.spec_bytes()
    }

    /// Agrees with `str::is_ascii`.
    fn is_ascii_simd(&self) -> (r: bool)
        ensures
            r == is_ascii(self),
    {
        proof {
            lemma_ascii_bytes_iff_ascii_chars(self@);
        }
        ascii::validate(self.as_bytes())
    }

    /// Always holds: a string slice is well-formed UTF-8.
    fn is_utf8_simd(&self) -> (r: bool)
        ensures
            r,
    {
        proof {
            encode_utf8_valid_utf8(self@);
        }
        utf8::validate(self.as_bytes())
    }
}

proof fn lemma_leading_bytes(v: u32)
    by (bit_vector)
    ensures
        v <= 0x7f ==> leading_byte_width_1(v) < 0x80,
        leading_byte_width_2(v) >= 0x80,
        leading_byte_width_3(v) >= 0x80,
        leading_byte_width_4(v) >= 0x80,
{
}

/// The UTF-8 encoding of a character sequence is all ASCII bytes exactly when
/// every character is ASCII.
pub proof fn lemma_ascii_bytes_iff_ascii_chars(chars: Seq<char>)
    ensures
        all_ascii(encode_utf8(chars)) <==> is_ascii_chars(chars),
    decreases chars.len(),
{
    if chars.len() == 0 {
        assert(encode_utf8(chars).len() == 0);
    } else {
        let c = chars[0] as u32;
        let head = encode_scalar(c);
        let rest = chars.drop_first();
        let tail = encode_utf8(rest);
        let all = encode_utf8(chars);
        lemma_ascii_bytes_iff_ascii_chars(rest);
        lemma_leading_bytes(c);
        assert(all == head + tail);
        lemma_all_ascii_split(all, 0, head.len() as int, all.len() as int);
        assert(all.subrange(0, head.len() as int) == head);
        assert(all.subrange(head.len() as int, all.len() as int) == tail);
        assert(all.subrange(0, all.len() as int) == all);
        assert(all_ascii(head) <==> c <= 0x7f) by {
            assert(head[0] < 0x80 <==> c <= 0x7f);
            if c <= 0x7f {
                assert(head.len() == 1);
            }
        }
        if is_ascii_chars(chars) {
            assert forall|i| 0 <= i < rest.len() implies '\0' <= #[trigger] rest[i] <= '\u{7f}' by {
                assert(rest[i] == chars[i + 1]);
            }
            assert('\0' <= chars[0] <= '\u{7f}');
        }
        if c <= 0x7f && is_ascii_chars(rest) {
            assert forall|i| 0 <= i < chars.len() implies '\0' <= #[trigger] chars[i] <= '\u{7f}' by {
                if i > 0 {
                    assert(chars[i] == rest[i - 1]);
                } else {
                    char_u32_cast(chars[0], c);
                    assert((c as char) == chars[0]);
                }
            }
        }
    }
}

/// Every all-ASCII byte sequence is well-formed UTF-8, so whatever the ASCII
/// validators accept the UTF-8 validator accepts too.
pub proof fn ascii_is_valid_utf8(bytes: Seq<u8>)
    requires
        all_ascii(bytes),
    ensures
        valid_utf8(bytes),
{
    assert(bytes.subrange(0, 0).len() == 0);
    assert forall|i: int| 0 <= i < bytes.len() implies #[trigger] is_leading_byte_width_1(bytes[i]) by {
        assert(bytes[i] < 0x80);
    }
    partial_valid_utf8_extend_ascii_block(bytes, 0, bytes.len() as int);
    assert(bytes.subrange(0, bytes.len() as int) == bytes);
}

} // verus!
