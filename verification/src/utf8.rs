//! UTF-8 validation.
//!
//! The input is classified 32 bytes at a time: the high nibble of every byte
//! is looked up in a table of encoding lengths with a lane shuffle. The
//! classified bytes are then walked one encoded scalar at a time, checking the
//! lead byte's range, the special bounds on the second byte that rule out
//! overlong forms, surrogates and values past `U+10FFFF`, and the
//! continuation bytes. The result is proved equal to vstd's `valid_utf8`.
use vstd::prelude::*;
use vstd::utf8::*;

verus! {

/// How many bytes `alignri` shifts the concatenated halves by.
#[derive(Clone, Copy, Debug, PartialEq, Eq, Structural)]
pub enum AlignCount {
    ThirtyOne,
    Thirty,
}

/// The shift, in bytes, that an `AlignCount` stands for.
pub open spec fn align_shift(bytes: AlignCount) -> int {
    match bytes {
        AlignCount::ThirtyOne => 31,
        AlignCount::Thirty => 30,
    }
}

/// Lane `j` of a byte alignment done separately in each 16-lane half: the
/// half of `a` is placed above the same half of `b`, the 32 bytes are shifted
/// right by `s` bytes, zeros come in from the top, and the low 16 bytes are kept.
pub open spec fn alignr_lane(a: Seq<i8>, b: Seq<i8>, s: int, j: int) -> i8 {
    let half = if j < 16 {
        0int
    } else {
        16int
    };
    let idx = (j - half) + s;
    if idx < 16 {
        b[half + idx]
    } else if idx < 32 {
        a[half + idx - 16]
    } else {
        0i8
    }
}

/// Byte alignment of two 32-lane registers, done in each 16-lane half.
pub fn alignri(a: [i8; 32], b: [i8; 32], bytes: AlignCount) -> (r: [i8; 32])
    ensures
        forall|j: int| 0 <= j < 32 ==> #[trigger] r[j] == alignr_lane(a@, b@, align_shift(bytes), j),
{
    let s: usize = match bytes {
        AlignCount::ThirtyOne => 31,
        AlignCount::Thirty => 30,
    };
    let mut r: [i8; 32] = [0i8; 32];
    let mut j: usize = 0;
    while j < 32
        invariant
            j <= 32,
            s == align_shift(bytes),
            forall|k: int| 0 <= k < j ==> #[trigger] r[k] == alignr_lane(a@, b@, s as int, k),
        decreases 32 - j,
    {
        let half: usize = if j < 16 {
            0
        } else {
            16
        };
        let idx = (j - half) + s;
        r[j] = if idx < 16 {
            b[half + idx]
        } else if idx < 32 {
            a[half + idx - 16]
        } else {
            0i8
        };
        j += 1;
    }
    r
}

/// Lane `j` of a byte shuffle done separately in each 16-lane half: a
/// negative selector gives zero, any other selects, by its low four bits, a
/// lane of the same half of `a`.
pub open spec fn shuffle_lane(a: Seq<i8>, b: Seq<i8>, j: int) -> i8 {
    let half = if j < 16 {
        0int
    } else {
        16int
    };
    if b[j] < 0 {
        0i8
    } else {
        a[half + (b[j] as int) % 16]
    }
}

/// Byte shuffle of a 32-lane register by a 32-lane selector, done in each
/// 16-lane half.
pub fn shuffle(a: [i8; 32], b: [i8; 32]) -> (r: [i8; 32])
    ensures
        forall|j: int| 0 <= j < 32 ==> #[trigger] r[j] == shuffle_lane(a@, b@, j),
{
    let mut r: [i8; 32] = [0i8; 32];
    let mut j: usize = 0;
    while j < 32
        invariant
            j <= 32,
            forall|k: int| 0 <= k < j ==> #[trigger] r[k] == shuffle_lane(a@, b@, k),
        decreases 32 - j,
    {
        let half: usize = if j < 16 {
            0
        } else {
            16
        };
        r[j] = if b[j] < 0 {
            0i8
        } else {
            a[half + (b[j] % 16) as usize]
        };
        j += 1;
    }
    r
}

/// Number of bytes in the encoding that a byte with high nibble `n` begins:
/// 1 for an ASCII byte, 0 for a continuation byte, and 2, 3 or 4 for a lead byte.
pub open spec fn nibble_length(n: int) -> i8 {
    if n < 8 {
        1
    } else if n < 12 {
        0
    } else if n < 14 {
        2
    } else if n == 14 {
        3
    } else {
        4
    }
}

/// Number of bytes in the encoding that the byte `b` begins, by its high nibble.
pub open spec fn lead_length(b: u8) -> i8 {
    nibble_length((b >> 4u8) as int)
}

/// The table of encoding lengths by high nibble, once for each 16-lane half.
fn cont_lengths() -> (t: [i8; 32])
    ensures
        forall|k: int| 0 <= k < 32 ==> #[trigger] t[k] == nibble_length(k % 16),
{
    let t: [i8; 32] = [
        1, 1, 1, 1, 1, 1, 1, 1, 0, 0, 0, 0, 2, 2, 3, 4, 1, 1, 1, 1, 1, 1, 1, 1, 0, 0, 0, 0, 2, 2,
        3, 4,
    ];
    t
}

proof fn lemma_high_nibble(x: u8)
    by (bit_vector)
    ensures
        (((x as i8) >> 4i8) & 0x0Fi8) == ((x >> 4u8) as i8),
        (x >> 4u8) < 16,
{
}

/// The encoding lengths announced by the 32 bytes of a block: the high
/// nibbles of the block select entries of the length table by a shuffle.
fn block_lengths(block: &[u8; 32]) -> (r: [i8; 32])
    ensures
        forall|j: int| 0 <= j < 32 ==> #[trigger] r[j] == lead_length(block[j]),
{
    let nib_mask: i8 = 0x0F;
    let mut high_nibbles: [i8; 32] = [0i8; 32];
    let mut j: usize = 0;
    while j < 32
        invariant
            j <= 32,
            nib_mask == 0x0F,
            forall|k: int| 0 <= k < j ==> #[trigger] high_nibbles[k] == ((block[k] >> 4u8) as i8),
        decreases 32 - j,
    {
        proof {
            lemma_high_nibble(block[j as int]);
        }
        high_nibbles[j] = ((block[j] as i8) >> 4i8) & nib_mask;
        j += 1;
    }
    let table = cont_lengths();
    let r = shuffle(table, high_nibbles);
    proof {
        assert forall|j: int| 0 <= j < 32 implies #[trigger] r[j] == lead_length(block[j]) by {
            lemma_high_nibble(block[j]);
            let n = high_nibbles[j] as int;
            assert(0 <= n < 16);
            if j < 16 {
                assert((0 + n) % 16 == n);
                assert(r[j] == table[n]);
            } else {
                assert((16 + n) % 16 == n);
                assert(r[j] == table[16 + n]);
            }
        }
    }
    r
}

/// The encoding length announced by every byte of `input`, classified 32
/// bytes at a time; the last, partial block is filled out with zeros.
fn lead_lengths(input: &[u8]) -> (out: Vec<i8>)
    ensures
        out@.len() == input@.len(),
        forall|k: int| 0 <= k < input@.len() ==> #[trigger] out@[k] == lead_length(input@[k]),
{
    let len = input.len();
    let mut out: Vec<i8> = Vec::new();
    let mut base: usize = 0;
    while len - base >= 32
        invariant
            base <= len,
            len == input.len(),
            out@.len() == base,
            forall|k: int| 0 <= k < base ==> #[trigger] out@[k] == lead_length(input@[k]),
        decreases len - base,
    {
        let mut block: [u8; 32] = [0u8; 32];
        let mut j: usize = 0;
        while j < 32
            invariant
                j <= 32,
                base + 32 <= len,
                len == input.len(),
                forall|k: int| 0 <= k < j ==> #[trigger] block[k] == input@[base + k],
            decreases 32 - j,
        {
            block[j] = input[base + j];
            j += 1;
        }
        let lens = block_lengths(&block);
        let mut j: usize = 0;
        while j < 32
            invariant
                j <= 32,
                base + 32 <= len,
                len == input.len(),
                out@.len() == base + j,
                forall|k: int| 0 <= k < 32 ==> #[trigger] block[k] == input@[base + k],
                forall|k: int| 0 <= k < 32 ==> #[trigger] lens[k] == lead_length(block[k]),
                forall|k: int| 0 <= k < base + j ==> #[trigger] out@[k] == lead_length(input@[k]),
            decreases 32 - j,
        {
            out.push(lens[j]);
            proof {
                assert(out@[base + j] == lead_length(input@[base + j]));
            }
            j += 1;
        }
        base += 32;
    }
    if base < len {
        let rest = len - base;
        let mut remain: [u8; 32] = [0u8; 32];
        let mut j: usize = 0;
        while j < rest
            invariant
                j <= rest,
                rest == len - base,
                rest < 32,
                len == input.len(),
                forall|k: int| 0 <= k < j ==> #[trigger] remain[k] == input@[base + k],
            decreases rest - j,
        {
            remain[j] = input[base + j];
            j += 1;
        }
        let lens = block_lengths(&remain);
        let mut j: usize = 0;
        while j < rest
            invariant
                j <= rest,
                rest == len - base,
                rest < 32,
                len == input.len(),
                out@.len() == base + j,
                forall|k: int| 0 <= k < rest ==> #[trigger] remain[k] == input@[base + k],
                forall|k: int| 0 <= k < 32 ==> #[trigger] lens[k] == lead_length(remain[k]),
                forall|k: int| 0 <= k < base + j ==> #[trigger] out@[k] == lead_length(input@[k]),
            decreases rest - j,
        {
            out.push(lens[j]);
            proof {
                assert(out@[base + j] == lead_length(input@[base + j]));
            }
            j += 1;
        }
    }
    out
}

/// Smallest second byte allowed after the lead byte `b0`: a higher bound
/// after `0xE0` and `0xF0` rules out overlong encodings.
pub open spec fn second_min(b0: u8) -> u8 {
    if b0 == 0xE0 {
        0xA0
    } else if b0 == 0xF0 {
        0x90
    } else {
        0x80
    }
}

/// Largest second byte allowed after the lead byte `b0`: a lower bound after
/// `0xED` rules out surrogates, and after `0xF4` values past `U+10FFFF`.
pub open spec fn second_max(b0: u8) -> u8 {
    if b0 == 0xED {
        0x9F
    } else if b0 == 0xF4 {
        0x8F
    } else {
        0xBF
    }
}

/// The checks made on the encoding that starts at `s[0]`: the lead byte's
/// range, the bounds on the second byte, and the continuation bytes.
pub open spec fn scalar_checks(s: Seq<u8>) -> bool {
    let b0 = s[0];
    if b0 < 0x80 {
        true
    } else if 0xC2 <= b0 <= 0xDF {
        s.len() >= 2 && is_continuation_byte(s[1])
    } else if 0xE0 <= b0 <= 0xEF {
        &&& s.len() >= 3
        &&& second_min(b0) <= s[1] <= second_max(b0)
        &&& is_continuation_byte(s[2])
    } else if 0xF0 <= b0 <= 0xF4 {
        &&& s.len() >= 4
        &&& second_min(b0) <= s[1] <= second_max(b0)
        &&& is_continuation_byte(s[2])
        &&& is_continuation_byte(s[3])
    } else {
        false
    }
}

proof fn lemma_width_2(b0: u8, b1: u8)
    by (bit_vector)
    requires
        0xc0 <= b0 <= 0xdf,
        0x80 <= b1 <= 0xbf,
    ensures
        codepoint_width_2(b0, b1) >= 0x80 <==> b0 >= 0xc2,
        codepoint_width_2(b0, b1) < 0x800,
{
}

proof fn lemma_width_3(b0: u8, b1: u8, b2: u8)
    by (bit_vector)
    requires
        0xe0 <= b0 <= 0xef,
        0x80 <= b1 <= 0xbf,
        0x80 <= b2 <= 0xbf,
    ensures
        (0x800 <= codepoint_width_3(b0, b1, b2) && !(0xD800 <= codepoint_width_3(b0, b1, b2)
            <= 0xDFFF)) <==> (second_min(b0) <= b1 && b1 <= second_max(b0)),
{
}

proof fn lemma_width_4(b0: u8, b1: u8, b2: u8, b3: u8)
    by (bit_vector)
    requires
        0xf0 <= b0 <= 0xf7,
        0x80 <= b1 <= 0xbf,
        0x80 <= b2 <= 0xbf,
        0x80 <= b3 <= 0xbf,
    ensures
        (0x10000 <= codepoint_width_4(b0, b1, b2, b3) <= 0x10ffff) <==> (b0 <= 0xf4
            && second_min(b0) <= b1 && b1 <= second_max(b0)),
{
}

proof fn lemma_second_bounds(b0: u8, b1: u8)
    requires
        second_min(b0) <= b1 <= second_max(b0),
    ensures
        is_continuation_byte(b1),
{
}

/// The checks made on an encoding decide exactly whether it is a well-formed
/// encoding of one scalar, and give its length.
proof fn lemma_scalar_checks(s: Seq<u8>)
    requires
        s.len() >= 1,
    ensures
        valid_first_scalar(s) <==> scalar_checks(s),
        valid_first_scalar(s) ==> length_of_first_scalar(s) == if s[0] < 0x80 {
            1int
        } else if s[0] <= 0xdf {
            2int
        } else if s[0] <= 0xef {
            3int
        } else {
            4int
        },
{
    let b0 = s[0];
    if 0xc0 <= b0 <= 0xdf && s.len() >= 2 && is_continuation_byte(s[1]) {
        lemma_width_2(b0, s[1]);
    }
    if 0xe0 <= b0 <= 0xef && s.len() >= 3 {
        if is_continuation_byte(s[1]) && is_continuation_byte(s[2]) {
            lemma_width_3(b0, s[1], s[2]);
        }
        if second_min(b0) <= s[1] <= second_max(b0) {
            lemma_second_bounds(b0, s[1]);
        }
    }
    if 0xf0 <= b0 <= 0xf7 && s.len() >= 4 {
        if is_continuation_byte(s[1]) && is_continuation_byte(s[2]) && is_continuation_byte(s[3]) {
            lemma_width_4(b0, s[1], s[2], s[3]);
        }
        if second_min(b0) <= s[1] <= second_max(b0) {
            lemma_second_bounds(b0, s[1]);
        }
    }
}

proof fn lemma_lead_length(b: u8)
    by (bit_vector)
    ensures
        (b >> 4u8) < 8 <==> b < 0x80,
        (8 <= (b >> 4u8) && (b >> 4u8) < 12) <==> (0x80 <= b && b <= 0xbf),
        (12 <= (b >> 4u8) && (b >> 4u8) < 14) <==> (0xc0 <= b && b <= 0xdf),
        (b >> 4u8) == 14 <==> (0xe0 <= b && b <= 0xef),
        (b >> 4u8) == 15 <==> 0xf0 <= b,
{
}

/// The bounds on the second byte after the lead byte `b0`.
fn second_bounds(b0: u8) -> (r: (u8, u8))
    ensures
        r.0 == second_min(b0),
        r.1 == second_max(b0),
{
    let lo: u8 = if b0 == 0xE0 {
        0xA0
    } else if b0 == 0xF0 {
        0x90
    } else {
        0x80
    };
    let hi: u8 = if b0 == 0xED {
        0x9F
    } else if b0 == 0xF4 {
        0x8F
    } else {
        0xBF
    };
    (lo, hi)
}

/// The length of the well-formed encoding of one scalar that starts at
/// `input[i]`, whose lead byte announces `n` bytes; `0` when no well-formed
/// encoding starts there.
fn first_scalar_len(input: &[u8], i: usize, n: i8) -> (step: usize)
    requires
        i < input.len(),
        n == lead_length(input@[i as int]),
    ensures
        step > 0 <==> valid_first_scalar(input@.subrange(i as int, input@.len() as int)),
        step > 0 ==> step == length_of_first_scalar(
            input@.subrange(i as int, input@.len() as int),
        ),
        step <= input.len() - i,
{
    let len = input.len();
    let ghost rest = input@.subrange(i as int, len as int);
    proof {
        lemma_scalar_checks(rest);
        lemma_lead_length(input@[i as int]);
        assert(rest[0] == input@[i as int]);
    }
    let b0 = input[i];
    if n == 1 {
        return 1;
    }
    if n == 0 {
        return 0;
    }
    if b0 < 0xC2 || b0 > 0xF4 {
        return 0;
    }
    let w = n as usize;
    if len - i < w {
        return 0;
    }
    let b1 = input[i + 1];
    let (lo, hi) = second_bounds(b0);
    proof {
        assert(rest[1] == b1);
    }
    if b1 < lo || b1 > hi {
        return 0;
    }
    let mut k: usize = 2;
    while k < w
        invariant
            2 <= k <= w <= 4,
            i + w <= len,
            len == input.len(),
            rest == input@.subrange(i as int, len as int),
            rest[0] == b0,
            0xC2 <= b0 <= 0xF4,
            w == if b0 <= 0xdf {
                2int
            } else if b0 <= 0xef {
                3int
            } else {
                4int
            },
            valid_first_scalar(rest) <==> scalar_checks(rest),
            forall|m: int| 2 <= m < k ==> #[trigger] is_continuation_byte(rest[m]),
        decreases w - k,
    {
        let c = input[i + k];
        proof {
            assert(rest[k as int] == c);
        }
        if c < 0x80 || c > 0xBF {
            return 0;
        }
        k += 1;
    }
    w
}

/// Checks that `input` is well-formed UTF-8: a sequence of encodings of
/// Unicode scalars, none of them overlong, a surrogate, or past `U+10FFFF`.
pub fn validate(input: &[u8]) -> (r: bool)
    ensures
        r == valid_utf8(input@),
{
    let lengths = lead_lengths(input);
    let len = input.len();
    let mut i: usize = 0;
    proof {
        assert(input@.subrange(0, 0).len() == 0);
    }
    while i < len
        invariant
            i <= len,
            len == input.len(),
            lengths@.len() == len,
            forall|k: int| 0 <= k < len ==> #[trigger] lengths@[k] == lead_length(input@[k]),
            valid_utf8(input@.subrange(0, i as int)),
        decreases len - i,
    {
        let step = first_scalar_len(input, i, lengths[i]);
        if step == 0 {
            proof {
                let rest = input@.subrange(i as int, len as int);
                assert(rest.len() > 0);
                assert(!valid_utf8(rest));
                partial_valid_partial_invalid_utf8(input@, i as int);
            }
            return false;
        }
        proof {
            partial_valid_utf8_extend(input@, i as int);
        }
        i += step;
    }
    proof {
        assert(input@.subrange(0, len as int) == input@);
    }
    true
}

} // verus!
