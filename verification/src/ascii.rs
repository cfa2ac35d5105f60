//! ASCII validation.
//!
//! Every validator here answers the same question, whether each byte of the
//! input has its high bit clear, and each is proved to answer it exactly.
//! They differ in the width of the lane register they accumulate into.
use vstd::prelude::*;

verus! {

/// Every byte of `bytes` is an ASCII byte, that is, below `0x80`.
pub open spec fn all_ascii(bytes: Seq<u8>) -> bool {
    forall|k: int| 0 <= k < bytes.len() ==> #[trigger] bytes[k] < 0x80
}

proof fn lemma_or_high_bit(a: u8, b: u8)
    by (bit_vector)
    ensures
        (a | b) < 0x80 <==> (a < 0x80 && b < 0x80),
{
}

proof fn lemma_and_high_bit(a: u8)
    by (bit_vector)
    ensures
        (a & 0x80) < 0x80 <==> a < 0x80,
        (a & 0x80) == 0 <==> a < 0x80,
{
}

/// ASCII-ness of a range splits at any point inside it.
pub proof fn lemma_all_ascii_split(s: Seq<u8>, lo: int, mid: int, hi: int)
    requires
        0 <= lo <= mid <= hi <= s.len(),
    ensures
        all_ascii(s.subrange(lo, hi)) <==> (all_ascii(s.subrange(lo, mid)) && all_ascii(
            s.subrange(mid, hi),
        )),
{
    let a = s.subrange(lo, mid);
    let b = s.subrange(mid, hi);
    let c = s.subrange(lo, hi);
    if all_ascii(a) && all_ascii(b) {
        assert forall|k: int| 0 <= k < c.len() implies #[trigger] c[k] < 0x80 by {
            if k < mid - lo {
                assert(c[k] == a[k]);
            } else {
                assert(c[k] == b[k - (mid - lo)]);
            }
        }
    }
    if all_ascii(c) {
        assert forall|k: int| 0 <= k < a.len() implies #[trigger] a[k] < 0x80 by {
            assert(a[k] == c[k]);
        }
        assert forall|k: int| 0 <= k < b.len() implies #[trigger] b[k] < 0x80 by {
            assert(b[k] == c[k + (mid - lo)]);
        }
    }
}

/// ORs `N` consecutive bytes of `input`, from `start` on, lane by lane into
/// the register `acc`.
fn or_load<const N: usize>(acc: &mut [u8; N], input: &[u8], start: usize)
    requires
        start + N <= input.len(),
    ensures
        forall|j: int| 0 <= j < N ==> #[trigger] final(acc)[j] == (old(acc)[j] | input@[start + j]),
        all_ascii(final(acc)@) <==> (all_ascii(old(acc)@) && all_ascii(
            input@.subrange(start as int, start + N),
        )),
{
    let ghost before = *acc;
    let mut j: usize = 0;
    while j < N
        invariant
            j <= N,
            start + N <= input.len(),
            forall|k: int| 0 <= k < j ==> #[trigger] acc[k] == (before[k] | input@[start + k]),
            forall|k: int| j <= k < N ==> #[trigger] acc[k] == before[k],
        decreases N - j,
    {
        acc[j] = acc[j] | input[start + j];
        j += 1;
    }
    proof {
        let chunk = input@.subrange(start as int, start + N);
        assert forall|k: int| 0 <= k < N implies (#[trigger] acc[k] < 0x80) <==> (before[k] < 0x80
            && chunk[k] < 0x80) by {
            lemma_or_high_bit(before[k], input@[start + k]);
        }
        if all_ascii(acc@) {
            assert forall|k: int| 0 <= k < before@.len() implies #[trigger] before@[k] < 0x80 by {
                assert(acc@[k] < 0x80);
            }
            assert forall|k: int| 0 <= k < chunk.len() implies #[trigger] chunk[k] < 0x80 by {
                assert(acc@[k] < 0x80);
            }
        }
        if all_ascii(before@) && all_ascii(chunk) {
            assert forall|k: int| 0 <= k < acc@.len() implies #[trigger] acc@[k] < 0x80 by {
                assert(before@[k] < 0x80);
                assert(chunk[k] < 0x80);
            }
        }
    }
}


/// The lane-wise AND of two registers.
fn and_lanes<const N: usize>(a: &[u8; N], m: &[u8; N]) -> (r: [u8; N])
    ensures
        forall|j: int| 0 <= j < N ==> #[trigger] r[j] == (a[j] & m[j]),
{
    let mut r: [u8; N] = *a;
    let mut j: usize = 0;
    while j < N
        invariant
            j <= N,
            forall|k: int| 0 <= k < j ==> #[trigger] r[k] == (a[k] & m[k]),
            forall|k: int| j <= k < N ==> #[trigger] r[k] == a[k],
        decreases N - j,
    {
        r[j] = r[j] & m[j];
        j += 1;
    }
    r
}

/// The largest lane of a register (`0` for a register without lanes).
fn max_element<const N: usize>(a: &[u8; N]) -> (r: u8)
    ensures
        forall|j: int| 0 <= j < N ==> #[trigger] a[j] <= r,
        N == 0 ==> r == 0,
        N > 0 ==> exists|j: int| 0 <= j < N && r == #[trigger] a[j],
{
    let mut r: u8 = 0;
    let mut j: usize = 0;
    while j < N
        invariant
            j <= N,
            forall|k: int| 0 <= k < j ==> #[trigger] a[k] <= r,
            j == 0 ==> r == 0,
            j > 0 ==> exists|k: int| 0 <= k < j && r == #[trigger] a[k],
        decreases N - j,
    {
        if j == 0 || a[j] > r {
            r = a[j];
        }
        j += 1;
    }
    r
}

/// A register masked with the high bit in every lane has its largest lane
/// below `0x80` exactly when every lane of the unmasked register is ASCII.
proof fn lemma_masked_max(err: [u8; 64], masked: [u8; 64], max: u8)
    requires
        forall|j: int| 0 <= j < 64 ==> #[trigger] masked[j] == (err[j] & 0x80u8),
        forall|j: int| 0 <= j < 64 ==> #[trigger] masked[j] <= max,
        exists|j: int| 0 <= j < 64 && max == #[trigger] masked[j],
    ensures
        (max < 0x80) <==> all_ascii(err@),
{
    if max < 0x80 {
        assert forall|k: int| 0 <= k < err@.len() implies #[trigger] err@[k] < 0x80 by {
            lemma_and_high_bit(err[k]);
            assert(masked[k] <= max);
        }
    }
    if all_ascii(err@) {
        let j = choose|j: int| 0 <= j < 64 && max == #[trigger] masked[j];
        lemma_and_high_bit(err[j]);
        assert(err@[j] < 0x80);
    }
}

/// Checks that every byte of `input` is ASCII, OR-ing 64-byte blocks into a
/// 64-lane register; when the input holds at least one full block, the bytes
/// past the last full block are covered by one more block that ends at the
/// end of the input.
pub fn validate(input: &[u8]) -> (r: bool)
    ensures
        r == all_ascii(input@),
{
    let len = input.len();
    let amax: [u8; 64] = [0x80u8; 64];
    let mut err: [u8; 64] = [0u8; 64];
    let mut i: usize = 0;
    proof {
        assert(input@.subrange(0, 0).len() == 0);
        assert(all_ascii(err@));
    }
    while len - i >= 64
        invariant
            i <= len,
            len == input.len(),
            all_ascii(err@) <==> all_ascii(input@.subrange(0, i as int)),
        decreases len - i,
    {
        or_load(&mut err, input, i);
        proof {
            lemma_all_ascii_split(input@, 0, i as int, i + 64);
        }
        i += 64;
    }
    if len >= 64 {
        or_load(&mut err, input, len - 64);
        let masked = and_lanes(&err, &amax);
        let max = max_element(&masked);
        proof {
            lemma_all_ascii_split(input@, 0, len - 64, i as int);
            lemma_all_ascii_split(input@, len - 64, i as int, len as int);
            lemma_all_ascii_split(input@, 0, i as int, len as int);
            lemma_masked_max(err, masked, max);
            assert(input@.subrange(0, len as int) == input@);
        }
        max < 0x80
    } else {
        let masked = and_lanes(&err, &amax);
        let max = max_element(&masked);
        proof {
            lemma_masked_max(err, masked, max);
        }
        let mut tail_has_char: u8 = 0;
        while i < len
            invariant
                i <= len,
                len == input.len(),
                (max < 0x80 && tail_has_char < 0x80) <==> all_ascii(input@.subrange(0, i as int)),
            decreases len - i,
        {
            proof {
                lemma_or_high_bit(tail_has_char, input@[i as int]);
                lemma_all_ascii_split(input@, 0, i as int, i + 1);
                assert(all_ascii(input@.subrange(i as int, i + 1)) <==> input@[i as int] < 0x80) by {
                    assert(input@.subrange(i as int, i + 1)[0] == input@[i as int]);
                }
            }
            tail_has_char = tail_has_char | input[i];
            i += 1;
        }
        proof {
            lemma_or_high_bit(max, tail_has_char);
            lemma_and_high_bit(max | tail_has_char);
            assert(input@.subrange(0, len as int) == input@);
        }
        (max | tail_has_char) & 0x80 == 0
    }
}

proof fn lemma_high_bit_flag(x: u8)
    by (bit_vector)
    ensures
        ((x >> 7u8) as u32) <= 1,
        ((x >> 7u8) as u32) == 1 <==> x >= 0x80,
{
}

proof fn lemma_movemask_step(r: u32, b: u32, j: u32)
    by (bit_vector)
    requires
        j < 32,
        b <= 1,
        r < (1u32 << j),
    ensures
        (r | (b << j)) == 0 <==> (r == 0 && b == 0),
        ((r | (b << j)) >> j) & 1 == b,
        j + 1 < 32 ==> (r | (b << j)) < (1u32 << (j + 1)),
{
}

proof fn lemma_movemask_keep(r: u32, b: u32, j: u32, k: u32)
    by (bit_vector)
    requires
        j < 32,
        k < j,
        b <= 1,
        r < (1u32 << j),
    ensures
        ((r | (b << j)) >> k) & 1 == (r >> k) & 1,
{
}

/// Gathers the high bit of each of the `N` lanes of a register into the low
/// `N` bits of a word, lane `j` giving bit `j`.
fn movemask<const N: usize>(a: &[u8; N]) -> (r: u32)
    requires
        N <= 32,
    ensures
        forall|j: int| 0 <= j < N ==> (((r >> j) & 1 == 1) <==> #[trigger] a[j] >= 0x80),
        (r == 0) <==> all_ascii(a@),
{
    let mut r: u32 = 0;
    let mut j: usize = 0;
    assert(0u32 < (1u32 << 0u32)) by (bit_vector);
    while j < N
        invariant
            j <= N <= 32,
            j < 32 ==> r < (1u32 << (j as u32)),
            forall|k: int| 0 <= k < j ==> (((r >> k) & 1 == 1) <==> #[trigger] a[k] >= 0x80),
            (r == 0) <==> all_ascii(a@.subrange(0, j as int)),
        decreases N - j,
    {
        let b = (a[j] >> 7u8) as u32;
        proof {
            lemma_high_bit_flag(a[j as int]);
            lemma_movemask_step(r, b, j as u32);
            assert forall|k: int| 0 <= k < j implies ((((r | (b << j)) >> k) & 1 == 1)
                <==> #[trigger] a[k] >= 0x80) by {
                lemma_movemask_keep(r, b, j as u32, k as u32);
            }
            lemma_all_ascii_split(a@, 0, j as int, j + 1);
            assert(all_ascii(a@.subrange(j as int, j + 1)) <==> a@[j as int] < 0x80) by {
                assert(a@.subrange(j as int, j + 1)[0] == a@[j as int]);
            }
        }
        r = r | (b << j);
        j += 1;
    }
    proof {
        assert(a@.subrange(0, N as int) == a@);
    }
    r
}

/// The bytes of `input` from `start` to its end, OR-ed together.
fn or_tail(input: &[u8], start: usize) -> (tail: u8)
    requires
        start <= input.len(),
    ensures
        tail < 0x80 <==> all_ascii(input@.subrange(start as int, input.len() as int)),
{
    let len = input.len();
    let mut tail: u8 = 0;
    let mut i = start;
    while i < len
        invariant
            start <= i <= len,
            len == input.len(),
            tail < 0x80 <==> all_ascii(input@.subrange(start as int, i as int)),
        decreases len - i,
    {
        proof {
            lemma_or_high_bit(tail, input@[i as int]);
            lemma_all_ascii_split(input@, start as int, i as int, i + 1);
            assert(all_ascii(input@.subrange(i as int, i + 1)) <==> input@[i as int] < 0x80) by {
                assert(input@.subrange(i as int, i + 1)[0] == input@[i as int]);
            }
        }
        tail = tail | input[i];
        i += 1;
    }
    tail
}

/// Checks that every byte of `input` is ASCII, OR-ing 16-byte blocks into a
/// 16-lane register, gathering its high bits into a mask, and OR-ing the bytes
/// past the last full block one at a time.
pub fn arch(input: &[u8]) -> (r: bool)
    ensures
        r == all_ascii(input@),
{
    let len = input.len();
    let mut i: usize = 0;
    let mut err: [u8; 16] = [0u8; 16];
    proof {
        assert(input@.subrange(0, 0).len() == 0);
        assert(all_ascii(err@));
    }
    while len - i >= 16
        invariant
            i <= len,
            len == input.len(),
            all_ascii(err@) <==> all_ascii(input@.subrange(0, i as int)),
        decreases len - i,
    {
        or_load(&mut err, input, i);
        proof {
            lemma_all_ascii_split(input@, 0, i as int, i + 16);
        }
        i += 16;
    }
    let err_mask = movemask(&err);
    let tail_err = or_tail(input, i);
    proof {
        lemma_and_high_bit(tail_err);
        lemma_all_ascii_split(input@, 0, i as int, len as int);
        assert(input@.subrange(0, len as int) == input@);
    }
    let err = err_mask | ((tail_err & 0x80) as u32);
    proof {
        lemma_or_zero(err_mask, (tail_err & 0x80) as u32);
    }
    err == 0
}

proof fn lemma_or_zero(a: u32, b: u32)
    by (bit_vector)
    ensures
        (a | b) == 0 <==> (a == 0 && b == 0),
{
}

/// Checks that every byte of `input` is ASCII, OR-ing 32-byte blocks into a
/// 32-lane register and gathering its high bits into a mask. An input of at
/// least 32 bytes has its remaining bytes covered by one more block that ends
/// at the end of the input; a shorter one has its bytes OR-ed one at a time.
pub fn super_arch(input: &[u8]) -> (r: bool)
    ensures
        r == all_ascii(input@),
{
    let len = input.len();
    let mut i: usize = 0;
    let mut err: [u8; 32] = [0u8; 32];
    proof {
        assert(input@.subrange(0, 0).len() == 0);
        assert(all_ascii(err@));
    }
    while len - i >= 32
        invariant
            i <= len,
            len == input.len(),
            all_ascii(err@) <==> all_ascii(input@.subrange(0, i as int)),
        decreases len - i,
    {
        or_load(&mut err, input, i);
        proof {
            lemma_all_ascii_split(input@, 0, i as int, i + 32);
        }
        i += 32;
    }
    if len >= 32 {
        or_load(&mut err, input, len - 32);
        proof {
            lemma_all_ascii_split(input@, 0, len - 32, i as int);
            lemma_all_ascii_split(input@, len - 32, i as int, len as int);
            lemma_all_ascii_split(input@, 0, i as int, len as int);
            assert(input@.subrange(0, len as int) == input@);
        }
        movemask(&err) == 0
    } else {
        let err_mask = movemask(&err);
        let tail_err = or_tail(input, i);
        proof {
            lemma_and_high_bit(tail_err);
            lemma_all_ascii_split(input@, 0, i as int, len as int);
            assert(input@.subrange(0, len as int) == input@);
        }
        let err = err_mask | ((tail_err & 0x80) as u32);
        proof {
            lemma_or_zero(err_mask, (tail_err & 0x80) as u32);
        }
        err == 0
    }
}

/// The last, partial vector of a lane iteration over `input[start..]`: the
/// remaining bytes sit right-aligned in the register and the lanes before
/// them hold the default value `0`.
fn load_right_aligned(input: &[u8], start: usize) -> (v: [u8; 16])
    requires
        start <= input.len(),
        input.len() - start < 16,
    ensures
        forall|j: int|
            0 <= j < 16 ==> #[trigger] v[j] == if j < 16 - (input.len() - start) {
                0u8
            } else {
                input@[start + j - (16 - (input.len() - start))]
            },
        all_ascii(v@) <==> all_ascii(input@.subrange(start as int, input.len() as int)),
{
    let rem = input.len() - start;
    let empty = 16 - rem;
    let mut v: [u8; 16] = [0u8; 16];
    let mut k: usize = 0;
    while k < rem
        invariant
            k <= rem,
            rem == input.len() - start,
            empty == 16 - rem,
            rem < 16,
            forall|j: int| 0 <= j < empty + k ==> #[trigger] v[j] == if j < empty {
                0u8
            } else {
                input@[start + j - empty]
            },
            forall|j: int| empty + k <= j < 16 ==> #[trigger] v[j] == 0u8,
        decreases rem - k,
    {
        v[empty + k] = input[start + k];
        k += 1;
    }
    proof {
        let tail = input@.subrange(start as int, input.len() as int);
        if all_ascii(tail) {
            assert forall|j: int| 0 <= j < v@.len() implies #[trigger] v@[j] < 0x80 by {
                if j >= empty {
                    assert(tail[j - empty] < 0x80);
                }
            }
        }
        if all_ascii(v@) {
            assert forall|j: int| 0 <= j < tail.len() implies #[trigger] tail[j] < 0x80 by {
                assert(v@[j + empty] < 0x80);
            }
        }
    }
    v
}

/// ORs the register `v` lane by lane into the register `acc`.
fn or_lanes<const N: usize>(acc: &mut [u8; N], v: &[u8; N])
    ensures
        forall|j: int| 0 <= j < N ==> #[trigger] final(acc)[j] == (old(acc)[j] | v[j]),
        all_ascii(final(acc)@) <==> (all_ascii(old(acc)@) && all_ascii(v@)),
{
    let ghost before = *acc;
    let mut j: usize = 0;
    while j < N
        invariant
            j <= N,
            forall|k: int| 0 <= k < j ==> #[trigger] acc[k] == (before[k] | v[k]),
            forall|k: int| j <= k < N ==> #[trigger] acc[k] == before[k],
        decreases N - j,
    {
        acc[j] = acc[j] | v[j];
        j += 1;
    }
    proof {
        assert forall|k: int| 0 <= k < N implies (#[trigger] acc[k] < 0x80) <==> (before[k] < 0x80
            && v[k] < 0x80) by {
            lemma_or_high_bit(before[k], v[k]);
        }
        if all_ascii(acc@) {
            assert forall|k: int| 0 <= k < before@.len() implies #[trigger] before@[k] < 0x80 by {
                assert(acc@[k] < 0x80);
            }
            assert forall|k: int| 0 <= k < v@.len() implies #[trigger] v@[k] < 0x80 by {
                assert(acc@[k] < 0x80);
            }
        }
        if all_ascii(before@) && all_ascii(v@) {
            assert forall|k: int| 0 <= k < acc@.len() implies #[trigger] acc@[k] < 0x80 by {
                assert(before@[k] < 0x80);
                assert(v@[k] < 0x80);
            }
        }
    }
}

/// Lane-wise `>=` of two registers, as a mask: `0xff` in the lanes where it
/// holds and `0` in the others.
fn ge_lanes<const N: usize>(a: &[u8; N], b: &[u8; N]) -> (r: [u8; N])
    ensures
        forall|j: int| 0 <= j < N ==> #[trigger] r[j] == if a[j] >= b[j] {
            0xffu8
        } else {
            0u8
        },
{
    let mut r: [u8; N] = [0u8; N];
    let mut j: usize = 0;
    while j < N
        invariant
            j <= N,
            forall|k: int| 0 <= k < j ==> #[trigger] r[k] == if a[k] >= b[k] {
                0xffu8
            } else {
                0u8
            },
        decreases N - j,
    {
        r[j] = if a[j] >= b[j] {
            0xffu8
        } else {
            0u8
        };
        j += 1;
    }
    r
}

/// Folds the lanes of a register with `acc && lane == 0`, starting from `true`.
fn all_lanes_zero<const N: usize>(a: &[u8; N]) -> (r: bool)
    ensures
        r <==> forall|j: int| 0 <= j < N ==> #[trigger] a[j] == 0,
{
    let mut acc = true;
    let mut j: usize = 0;
    while j < N
        invariant
            j <= N,
            acc <==> forall|k: int| 0 <= k < j ==> #[trigger] a[k] == 0,
        decreases N - j,
    {
        acc = acc && a[j] == 0;
        j += 1;
    }
    acc
}

/// Checks that every byte of `input` is ASCII by a lane reduction over
/// 16-byte vectors: the vectors, the last one right-aligned and filled out
/// with zeros, are OR-ed into one register, which is compared lane by lane
/// with `0x80`, and the comparison mask must be zero in every lane.
pub fn faster(input: &[u8]) -> (r: bool)
    ensures
        r == all_ascii(input@),
{
    let len = input.len();
    let amax: [u8; 16] = [0x80u8; 16];
    let mut acc: [u8; 16] = [0u8; 16];
    let mut pos: usize = 0;
    proof {
        assert(input@.subrange(0, 0).len() == 0);
        assert(all_ascii(acc@));
    }
    while len - pos >= 16
        invariant
            pos <= len,
            len == input.len(),
            all_ascii(acc@) <==> all_ascii(input@.subrange(0, pos as int)),
        decreases len - pos,
    {
        or_load(&mut acc, input, pos);
        proof {
            lemma_all_ascii_split(input@, 0, pos as int, pos + 16);
        }
        pos += 16;
    }
    if pos < len {
        let last = load_right_aligned(input, pos);
        or_lanes(&mut acc, &last);
        proof {
            lemma_all_ascii_split(input@, 0, pos as int, len as int);
        }
    }
    proof {
        assert(input@.subrange(0, len as int) == input@);
    }
    let high = ge_lanes(&acc, &amax);
    let r = all_lanes_zero(&high);
    proof {
        if r {
            assert forall|k: int| 0 <= k < acc@.len() implies #[trigger] acc@[k] < 0x80 by {
                assert(high[k] == 0);
            }
        }
        if all_ascii(acc@) {
            assert forall|k: int| 0 <= k < 16 implies #[trigger] high[k] == 0 by {
                assert(acc@[k] < 0x80);
            }
        }
    }
    r
}

} // verus!
