//! Patched Frame of Reference (PFOR) encoding for arrays of unsigned byte
//! values.
//!
//! The input is split into 256-value chunks (the last may be shorter). Each
//! chunk is independently encoded using four values:
//!
//! * `b1`: bits stored in the primary array for every normalized value
//! * `b2`: bits stored per exception value (a normalized value of > `b1` bits)
//! * `e`:  number of exceptions
//! * `m`:  chunk-local minimum, subtracted from all values to normalize
//!
//! Each chunk is stored as a 3-byte header (`b2<<4 | b1`, then `e`, then `m`),
//! the primary array (`b1 * n` bits, padded to a byte), the exception offsets
//! (`e` bytes), and the exception values (`e * b2` bits, padded to a byte).

use crate::bit_packing;
use crate::bits;
use vstd::arithmetic::div_mod::*;
use vstd::arithmetic::mul::*;
use vstd::arithmetic::power2::*;
use vstd::bits::*;
use vstd::prelude::*;

verus! {

/// Number of values in a full chunk. The final chunk may be shorter.
pub const CHUNK_SIZE: usize = 256;

/// Number of binary digits of `v` (0 for 0).
pub open spec fn bit_width(v: nat) -> nat
    decreases v,
{
    if v == 0 {
        0
    } else {
        1 + bit_width(v / 2)
    }
}

/// The least number of bits that every one of the values fits in.
pub open spec fn bits_needed(values: Seq<u32>) -> nat
    decreases values.len(),
{
    if values.len() == 0 {
        0
    } else {
        let rest = bits_needed(values.drop_last());
        let last = bit_width(values.last() as nat);
        if rest < last {
            last
        } else {
            rest
        }
    }
}

/// The least of the values (0 where there are none).
pub open spec fn least(values: Seq<u32>) -> u32
    decreases values.len(),
{
    if values.len() == 0 {
        0
    } else if values.len() == 1 {
        values[0]
    } else {
        let rest = least(values.drop_last());
        if rest < values.last() {
            rest
        } else {
            values.last()
        }
    }
}

/// The values with their minimum subtracted.
pub open spec fn normalized(values: Seq<u32>) -> Seq<u32> {
    Seq::new(values.len(), |i: int| (values[i] - least(values)) as u32)
}

/// The offsets of the values that do not fit in `b1` bits.
pub open spec fn exceptions(values: Seq<u32>, b1: nat) -> Seq<int> {
    bits::indices_where(|i: int| values[i] >= pow2(b1), 0, values.len() as int)
}

/// The offsets of the exceptions, as they are stored.
pub open spec fn exception_offsets(values: Seq<u32>, b1: nat) -> Seq<u32> {
    exceptions(values, b1).map_values(|i: int| i as u32)
}

/// The bits of the exceptions above the low `b1` ones.
pub open spec fn exception_values(values: Seq<u32>, b1: nat) -> Seq<u32> {
    exceptions(values, b1).map_values(|i: int| (values[i] as nat / pow2(b1)) as u32)
}

/// Encoded size of a chunk after its header when `b1` bits of each normalized
/// value are stored in the primary array.
pub open spec fn body_size(values: Seq<u32>, max_width: nat, b1: nat) -> int {
    let e = exceptions(values, b1).len() as int;
    bits::bytes_for((values.len() * b1) as int) + e + bits::bytes_for(e * (max_width - b1))
}

/// `b1` makes the chunk smallest, and no larger width makes it as small.
pub open spec fn is_best_width(values: Seq<u32>, max_width: nat, b1: nat) -> bool {
    &&& b1 <= max_width
    &&& forall|c: nat|
        c <= max_width ==> body_size(values, max_width, b1) <= #[trigger] body_size(
            values,
            max_width,
            c,
        )
    &&& forall|c: nat|
        b1 < c <= max_width ==> body_size(values, max_width, b1) < #[trigger] body_size(
            values,
            max_width,
            c,
        )
}

/// The width that makes the chunk smallest, the largest such width on ties.
pub open spec fn best_width(values: Seq<u32>, max_width: nat) -> nat {
    choose|b1: nat| is_best_width(values, max_width, b1)
}

/// A chunk header: the two widths, the exception count and the minimum.
pub open spec fn header(b1: nat, b2: nat, exc_count: nat, base: nat) -> Seq<u8> {
    seq![(16 * b2 + b1) as u8, exc_count as u8, base as u8]
}

/// The encoded form of a chunk. A chunk that needs all eight bits is stored as
/// raw bytes; any other as its normalized values, split at the best width.
pub open spec fn encoded_chunk(chunk: Seq<u32>) -> Seq<u8> {
    let values = normalized(chunk);
    let max_width = bits_needed(values);
    let b1 = best_width(values, max_width);
    let b2 = (max_width - b1) as nat;
    if b1 == 8 {
        header(8, 0, 0, 0) + bit_packing::packed(8, chunk)
    } else {
        header(b1, b2, exceptions(values, b1).len(), least(chunk) as nat) + bit_packing::packed(
            b1,
            values,
        ) + bit_packing::packed(8, exception_offsets(values, b1)) + bit_packing::packed(
            b2,
            exception_values(values, b1),
        )
    }
}

/// Length of the first chunk of `count` values.
pub open spec fn first_chunk(count: nat) -> nat {
    if count < CHUNK_SIZE {
        count
    } else {
        CHUNK_SIZE as nat
    }
}

/// The encoded form of an array: that of its chunks, one after the other.
pub open spec fn encoded(values: Seq<u32>) -> Seq<u8>
    decreases values.len(),
{
    if values.len() == 0 {
        Seq::empty()
    } else {
        let n = first_chunk(values.len()) as int;
        encoded_chunk(values.take(n)) + encoded(values.skip(n))
    }
}

/// Worst-case size of `count` encoded values: a header for each chunk and a
/// byte for each value.
pub open spec fn size_bound(count: nat) -> int {
    3 * ((count + CHUNK_SIZE - 1) / CHUNK_SIZE as int) + count
}

/// Primary bit width in a chunk header.
pub open spec fn header_b1(s: Seq<u8>) -> nat {
    (s[0] % 16) as nat
}

/// Exception bit width in a chunk header.
pub open spec fn header_b2(s: Seq<u8>) -> nat {
    (s[0] / 16) as nat
}

/// Where the exceptions of an encoded chunk begin.
pub open spec fn exceptions_start(s: Seq<u8>, count: nat) -> int {
    3 + bits::bytes_for((count * header_b1(s)) as int)
}

/// Size of an encoded chunk of `count` values at the front of `s`.
pub open spec fn chunk_size(s: Seq<u8>, count: nat) -> int {
    if s[1] == 0 {
        exceptions_start(s, count)
    } else {
        exceptions_start(s, count) + s[1] + bits::bytes_for((s[1] * header_b2(s)) as int)
    }
}

/// The primary array of an encoded chunk.
pub open spec fn chunk_primary(s: Seq<u8>, count: nat) -> Seq<u32> {
    bit_packing::unpacked(header_b1(s), s.subrange(3, exceptions_start(s, count)), count)
}

/// The exception offsets of an encoded chunk.
pub open spec fn chunk_offsets(s: Seq<u8>, count: nat) -> Seq<u32> {
    let start = exceptions_start(s, count);
    bit_packing::unpacked(8, s.subrange(start, start + s[1]), s[1] as nat)
}

/// The exception values of an encoded chunk.
pub open spec fn chunk_highs(s: Seq<u8>, count: nat) -> Seq<u32> {
    let start = exceptions_start(s, count) + s[1];
    bit_packing::unpacked(header_b2(s), s.subrange(start, chunk_size(s, count)), s[1] as nat)
}

/// `s` begins with a chunk of `count` values: its widths are at most 8, it is
/// complete, and its exceptions are at offsets below `count`.
pub open spec fn chunk_readable(s: Seq<u8>, count: nat) -> bool {
    &&& s.len() >= 3
    &&& header_b1(s) <= 8
    &&& s[1] > 0 ==> header_b2(s) <= 8
    &&& chunk_size(s, count) <= s.len()
    &&& s[1] > 0 ==> forall|i: int|
        0 <= i < s[1] ==> #[trigger] chunk_offsets(s, count)[i] < count
}

/// The primary values with the high bits of the exceptions put in.
pub open spec fn patched(
    primary: Seq<u32>,
    offsets: Seq<u32>,
    highs: Seq<u32>,
    b1: u32,
) -> Seq<u32>
    decreases offsets.len(),
{
    if offsets.len() == 0 {
        primary
    } else {
        let before = patched(primary, offsets.drop_last(), highs, b1);
        let at = offsets.last() as int;
        before.update(at, before[at] | (highs[offsets.len() - 1] << b1))
    }
}

/// The normalized values of an encoded chunk.
pub open spec fn chunk_normalized(s: Seq<u8>, count: nat) -> Seq<u32> {
    if s[1] == 0 {
        chunk_primary(s, count)
    } else {
        patched(
            chunk_primary(s, count),
            chunk_offsets(s, count),
            chunk_highs(s, count),
            header_b1(s) as u32,
        )
    }
}

/// The values of an encoded chunk.
pub open spec fn chunk_values(s: Seq<u8>, count: nat) -> Seq<u32> {
    Seq::new(count, |i: int| (chunk_normalized(s, count)[i] + s[2]) as u32)
}

/// `s` begins with an encoded array of `count` values.
pub open spec fn readable(s: Seq<u8>, count: nat) -> bool
    decreases count,
{
    let n = first_chunk(count);
    count == 0 || (chunk_readable(s, n) && readable(
        s.skip(chunk_size(s, n)),
        (count - n) as nat,
    ))
}

/// Size of an encoded array of `count` values at the front of `s`.
pub open spec fn encoded_size(s: Seq<u8>, count: nat) -> int
    decreases count,
{
    if count == 0 {
        0
    } else {
        let n = first_chunk(count);
        chunk_size(s, n) + encoded_size(s.skip(chunk_size(s, n)), (count - n) as nat)
    }
}

/// The values of an encoded array.
pub open spec fn decoded(s: Seq<u8>, count: nat) -> Seq<u32>
    decreases count,
{
    if count == 0 {
        Seq::empty()
    } else {
        let n = first_chunk(count);
        chunk_values(s, n) + decoded(s.skip(chunk_size(s, n)), (count - n) as nat)
    }
}

/// Digits and size: `v` has `w` binary digits when it is below `2^w` and not
/// below `2^(w-1)`.
proof fn lemma_bit_width_unique(v: nat, w: nat)
    requires
        v < pow2(w),
        w > 0 ==> v >= pow2((w - 1) as nat),
    ensures
        bit_width(v) == w,
    decreases w,
{
    lemma2_to64();
    if w > 0 {
        lemma_pow2_pos((w - 1) as nat);
        lemma_pow2_unfold(w);
        if w > 1 {
            lemma_pow2_unfold((w - 1) as nat);
            lemma_bit_width_unique(v / 2, (w - 1) as nat);
        } else {
            assert(v == 1);
            assert(bit_width(0) == 0);
        }
    }
}

/// A number is below two to the power of its width, and not below the power
/// before.
proof fn lemma_bit_width_bounds(v: nat)
    ensures
        v < pow2(bit_width(v)),
        v > 0 ==> v >= pow2((bit_width(v) - 1) as nat),
    decreases v,
{
    lemma2_to64();
    if v > 0 {
        lemma_bit_width_bounds(v / 2);
        lemma_pow2_unfold(bit_width(v));
        if v / 2 > 0 {
            lemma_pow2_unfold(bit_width(v / 2));
        } else {
            assert(bit_width(0) == 0);
        }
    }
}

/// Number of bits required to represent `value` (0 for `value == 0`).
pub fn width(value: u32) -> (r: u32)
    ensures
        r == bit_width(value as nat),
        value < pow2(r as nat),
        r > 0 ==> value >= pow2((r - 1) as nat),
{
    let zeros = value.leading_zeros();
    proof {
        vstd::std_specs::bits::axiom_u32_leading_zeros(value);
        let w = (32 - zeros) as u32;
        lemma2_to64();
        if w < 32 {
            lemma_u32_shr_is_div(value, w);
            lemma_pow2_pos(w as nat);
            lemma_div_non_zero_or_small(value as nat, pow2(w as nat));
        }
        if w > 0 {
            let t = (w - 1) as u32;
            lemma_u32_shr_is_div(value, t);
            lemma_pow2_pos(t as nat);
            assert(value >> t != 0) by {
                assert(0u32 & 1u32 == 0) by (bit_vector);
            }
            if value < pow2(t as nat) {
                lemma_basic_div(value as int, pow2(t as nat) as int);
            }
        }
        lemma_bit_width_unique(value as nat, w as nat);
        lemma_bit_width_bounds(value as nat);
    }
    u32::BITS - zeros
}

/// A quotient is zero only where the dividend is below the divisor.
proof fn lemma_div_non_zero_or_small(x: nat, d: nat)
    requires
        d > 0,
        x / d == 0,
    ensures
        x < d,
{
    if x >= d {
        lemma_div_non_zero(x as int, d as int);
    }
}

/// The width of a bitwise or is the larger of the two widths.
proof fn lemma_bit_width_or(a: u32, b: u32)
    ensures
        bit_width((a | b) as nat) == if bit_width(a as nat) < bit_width(b as nat) {
            bit_width(b as nat)
        } else {
            bit_width(a as nat)
        },
{
    let w = if bit_width(a as nat) < bit_width(b as nat) {
        bit_width(b as nat)
    } else {
        bit_width(a as nat)
    };
    lemma_bit_width_bounds(a as nat);
    lemma_bit_width_bounds(b as nat);
    assert(a | b >= a && a | b >= b) by (bit_vector);
    if bit_width(a as nat) < w {
        lemma_pow2_strictly_increases(bit_width(a as nat), w);
    }
    if bit_width(b as nat) < w {
        lemma_pow2_strictly_increases(bit_width(b as nat), w);
    }
    if w < 32 {
        lemma_u32_pow2_no_overflow(w);
        lemma_u32_shl_is_mul(1, w as u32);
        let s = w as u32;
        assert(a | b < 1u32 << s) by (bit_vector)
            requires
                a < 1u32 << s,
                b < 1u32 << s,
        ;
    } else {
        lemma2_to64();
        if w > 32 {
            lemma_pow2_strictly_increases(32, w);
        }
    }
    lemma_bit_width_unique((a | b) as nat, w);
}

/// The values fit in the bits they need; byte values need at most eight.
pub(crate) proof fn lemma_bits_needed(values: Seq<u32>)
    ensures
        forall|i: int| 0 <= i < values.len() ==> #[trigger] values[i] < pow2(bits_needed(values)),
        (forall|i: int| 0 <= i < values.len() ==> #[trigger] values[i] < 256) ==> bits_needed(
            values,
        ) <= 8,
    decreases values.len(),
{
    if values.len() > 0 {
        let rest = values.drop_last();
        lemma_bits_needed(rest);
        let last = values.last() as nat;
        lemma_bit_width_bounds(last);
        let w = bits_needed(values);
        if bits_needed(rest) < w {
            lemma_pow2_strictly_increases(bits_needed(rest), w);
        }
        if bit_width(last) < w {
            lemma_pow2_strictly_increases(bit_width(last), w);
        }
        assert forall|i: int| 0 <= i < values.len() implies #[trigger] values[i] < pow2(w) by {
            if i < values.len() - 1 {
                assert(values[i] == rest[i]);
            }
        }
        lemma2_to64();
        if bit_width(last) > 9 {
            lemma_pow2_strictly_increases(8, (bit_width(last) - 1) as nat);
        }
    }
}

/// One of the values needs all the bits.
pub(crate) proof fn lemma_bits_needed_tight(values: Seq<u32>)
    requires
        bits_needed(values) > 0,
    ensures
        exists|i: int|
            0 <= i < values.len() && #[trigger] values[i] >= pow2((bits_needed(values) - 1) as nat),
    decreases values.len(),
{
    let rest = values.drop_last();
    let last = values.last() as nat;
    if bits_needed(rest) < bit_width(last) {
        lemma_bit_width_bounds(last);
        assert(values[values.len() - 1] >= pow2((bits_needed(values) - 1) as nat));
    } else {
        lemma_bits_needed_tight(rest);
        let i = choose|i: int|
            0 <= i < rest.len() && #[trigger] rest[i] >= pow2((bits_needed(rest) - 1) as nat);
        assert(values[i] == rest[i]);
    }
}

/// The least value is not above any value, and it is one of them.
pub(crate) proof fn lemma_least(values: Seq<u32>)
    requires
        values.len() > 0,
    ensures
        forall|i: int| 0 <= i < values.len() ==> least(values) <= #[trigger] values[i],
        exists|i: int| 0 <= i < values.len() && #[trigger] values[i] == least(values),
    decreases values.len(),
{
    if values.len() == 1 {
        assert(values[0] == least(values));
    } else {
        let rest = values.drop_last();
        lemma_least(rest);
        let i = choose|i: int| 0 <= i < rest.len() && #[trigger] rest[i] == least(rest);
        assert(values[i] == rest[i]);
        assert(values[values.len() - 1] == values.last());
        assert forall|i: int| 0 <= i < values.len() implies least(values) <= #[trigger] values[i] by {
            if i < values.len() - 1 {
                assert(values[i] == rest[i]);
            }
        }
    }
}

/// Normalized byte values are byte values, and one of them is 0.
pub(crate) proof fn lemma_normalized(chunk: Seq<u32>)
    requires
        chunk.len() > 0,
        forall|i: int| 0 <= i < chunk.len() ==> #[trigger] chunk[i] < 256,
    ensures
        normalized(chunk).len() == chunk.len(),
        forall|i: int|
            0 <= i < chunk.len() ==> #[trigger] normalized(chunk)[i] == chunk[i] - least(chunk),
        forall|i: int| 0 <= i < chunk.len() ==> #[trigger] normalized(chunk)[i] < 256,
        exists|i: int| 0 <= i < chunk.len() && #[trigger] normalized(chunk)[i] == 0,
        bits_needed(normalized(chunk)) <= 8,
        least(chunk) < 256,
{
    lemma_least(chunk);
    let values = normalized(chunk);
    let k = choose|i: int| 0 <= i < chunk.len() && #[trigger] chunk[i] == least(chunk);
    assert(values[k] == 0);
    assert forall|i: int| 0 <= i < chunk.len() implies #[trigger] values[i] == chunk[i] - least(
        chunk,
    ) by {
        assert(least(chunk) <= chunk[i]);
    }
    assert forall|i: int| 0 <= i < chunk.len() implies #[trigger] values[i] < 256 by {
        assert(least(chunk) <= chunk[i]);
        assert(chunk[i] < 256);
    }
    lemma_bits_needed(values);
}

/// The best width is the only one of its kind.
pub proof fn best_width_is_unique(values: Seq<u32>, max_width: nat, b1: nat)
    requires
        is_best_width(values, max_width, b1),
    ensures
        best_width(values, max_width) == b1,
{
    let other = best_width(values, max_width);
    assert(is_best_width(values, max_width, other));
    if other < b1 {
        assert(body_size(values, max_width, other) < body_size(values, max_width, b1));
        assert(body_size(values, max_width, b1) <= body_size(values, max_width, other));
    }
    if b1 < other {
        assert(body_size(values, max_width, b1) < body_size(values, max_width, other));
        assert(body_size(values, max_width, other) <= body_size(values, max_width, b1));
    }
}

/// There is a best width among those up to `limit`.
proof fn lemma_best_width_up_to(values: Seq<u32>, max_width: nat, limit: nat) -> (b1: nat)
    requires
        limit <= max_width,
    ensures
        b1 <= limit,
        forall|c: nat|
            c <= limit ==> body_size(values, max_width, b1) <= #[trigger] body_size(
                values,
                max_width,
                c,
            ),
        forall|c: nat|
            b1 < c <= limit ==> body_size(values, max_width, b1) < #[trigger] body_size(
                values,
                max_width,
                c,
            ),
    decreases limit,
{
    if limit == 0 {
        0
    } else {
        let b = lemma_best_width_up_to(values, max_width, (limit - 1) as nat);
        if body_size(values, max_width, limit) <= body_size(values, max_width, b) {
            limit
        } else {
            b
        }
    }
}

/// Every chunk has a best width.
pub proof fn best_width_exists(values: Seq<u32>, max_width: nat)
    ensures
        is_best_width(values, max_width, best_width(values, max_width)),
{
    let b1 = lemma_best_width_up_to(values, max_width, max_width);
    assert(is_best_width(values, max_width, b1));
}

/// Counts the values that do not fit in `b1` bits.
fn count_exceptions(values: &[u32], b1: u32) -> (count: usize)
    requires
        b1 < 32,
    ensures
        count == exceptions(values@, b1 as nat).len(),
{
    proof {
        lemma_u32_pow2_no_overflow(b1 as nat);
        lemma_u32_shl_is_mul(1, b1);
    }
    let threshold: u32 = 1u32 << b1;
    let ghost f = |i: int| values@[i] >= pow2(b1 as nat);
    let mut count: usize = 0;
    let mut i: usize = 0;
    while i < values.len()
        invariant
            i <= values.len(),
            threshold == pow2(b1 as nat),
            f == (|i: int| values@[i] >= pow2(b1 as nat)),
            count == bits::indices_where(f, 0, i as int).len(),
            count <= i,
        decreases values.len() - i,
    {
        if values[i] >= threshold {
            count = count + 1;
        }
        i = i + 1;
    }
    count
}

/// Chooses the primary bit width `b1` that minimizes the encoded chunk size,
/// returning `(b1, exception_count)`. Larger widths are preferred on ties to
/// reduce the number of exceptions.
fn choose_bit_width(values: &[u32], max_width: u32) -> (r: (u32, usize))
    requires
        values.len() <= CHUNK_SIZE,
        max_width <= 8,
        forall|i: int| 0 <= i < values@.len() ==> #[trigger] values@[i] < 256,
    ensures
        is_best_width(values@, max_width as nat, r.0 as nat),
        r.1 == exceptions(values@, r.0 as nat).len(),
{
    let mut best_width: u32 = 0;
    let mut best_size: usize = usize::MAX;
    let mut best_exc_count: usize = 0;
    let mut candidate: u32 = 0;
    while candidate <= max_width
        invariant
            candidate <= max_width + 1,
            max_width <= 8,
            values.len() <= CHUNK_SIZE,
            forall|i: int| 0 <= i < values@.len() ==> #[trigger] values@[i] < 256,
            candidate == 0 ==> best_size == usize::MAX,
            candidate > 0 ==> {
                &&& best_width < candidate
                &&& best_size == body_size(values@, max_width as nat, best_width as nat)
                &&& best_exc_count == exceptions(values@, best_width as nat).len()
                &&& forall|c: nat|
                    c < candidate ==> best_size <= #[trigger] body_size(
                        values@,
                        max_width as nat,
                        c,
                    )
                &&& forall|c: nat|
                    best_width < c < candidate ==> best_size < #[trigger] body_size(
                        values@,
                        max_width as nat,
                        c,
                    )
            },
        decreases max_width + 1 - candidate,
    {
        let exc_count: usize = if candidate < 8 {
            count_exceptions(values, candidate)
        } else {
            proof {
                lemma2_to64();
                let f = |i: int| values@[i] >= pow2(candidate as nat);
                bits::lemma_indices_where_none(f, 0, values@.len() as int);
            }
            0
        };
        let b2: u32 = max_width - candidate;
        proof {
            let f = |i: int| values@[i] >= pow2(candidate as nat);
            bits::lemma_indices_where_len(f, 0, values@.len() as int);
            assert(values.len() * candidate <= 256 * 8) by (nonlinear_arith)
                requires
                    values.len() <= 256,
                    candidate <= 8,
            ;
            assert(exc_count * b2 <= 256 * 8) by (nonlinear_arith)
                requires
                    exc_count <= 256,
                    b2 <= 8,
            ;
        }
        let size: usize = bit_packing::byte_width(values.len() * candidate as usize) + exc_count
            + bit_packing::byte_width(exc_count * b2 as usize);
        if size <= best_size {
            best_size = size;
            best_width = candidate;
            best_exc_count = exc_count;
        }
        candidate = candidate + 1;
    }
    (best_width, best_exc_count)
}

/// Appends a chunk header: `b1` in the low nibble and `b2` in the high nibble
/// of the first byte, then the exception count, then the minimum.
fn write_header(out: &mut Vec<u8>, b1: u32, b2: u32, exc_count: usize, base: u32)
    requires
        b1 < 16,
        b2 < 16,
        exc_count < 256,
        base < 256,
    ensures
        final(out)@ == old(out)@ + header(b1 as nat, b2 as nat, exc_count as nat, base as nat),
{
    assert((b2 << 4) | (b1 & 0x0F) == 16 * b2 + b1) by (bit_vector)
        requires
            b1 < 16,
            b2 < 16,
    ;
    out.push(((b2 << 4) | (b1 & 0x0F)) as u8);
    out.push(exc_count as u8);
    out.push(base as u8);
    assert(out@ =~= old(out)@ + header(b1 as nat, b2 as nat, exc_count as nat, base as nat));
}

/// Finds the least value of a chunk.
fn chunk_min(chunk: &[u32]) -> (base: u32)
    ensures
        base == least(chunk@),
{
    if chunk.len() == 0 {
        return 0;
    }
    let mut base: u32 = chunk[0];
    let mut i: usize = 1;
    assert(chunk@.take(1)[0] == chunk@[0]);
    while i < chunk.len()
        invariant
            1 <= i <= chunk.len(),
            base == least(chunk@.take(i as int)),
        decreases chunk.len() - i,
    {
        proof {
            assert(chunk@.take(i + 1).drop_last() =~= chunk@.take(i as int));
        }
        if chunk[i] <= base {
            base = chunk[i];
        }
        i = i + 1;
    }
    assert(chunk@.take(chunk@.len() as int) =~= chunk@);
    base
}

/// Subtracts the minimum of a chunk from its values.
fn normalize(chunk: &[u32], base: u32) -> (values: Vec<u32>)
    requires
        base == least(chunk@),
    ensures
        values@ == normalized(chunk@),
{
    let mut values: Vec<u32> = Vec::with_capacity(chunk.len());
    let mut i: usize = 0;
    while i < chunk.len()
        invariant
            i <= chunk.len(),
            base == least(chunk@),
            values@ == normalized(chunk@).take(i as int),
        decreases chunk.len() - i,
    {
        proof {
            lemma_least(chunk@);
            assert(least(chunk@) <= chunk@[i as int]);
            assert(normalized(chunk@).take(i + 1) =~= normalized(chunk@).take(i as int).push(
                normalized(chunk@)[i as int],
            ));
        }
        values.push(chunk[i] - base);
        i = i + 1;
    }
    assert(normalized(chunk@).take(chunk@.len() as int) =~= normalized(chunk@));
    values
}

/// Finds the number of bits that every value fits in, from the bits that are
/// set in any of them.
fn widest(values: &[u32]) -> (r: u32)
    ensures
        r == bits_needed(values@),
{
    let mut set_bits: u32 = 0;
    let mut i: usize = 0;
    while i < values.len()
        invariant
            i <= values.len(),
            bit_width(set_bits as nat) == bits_needed(values@.take(i as int)),
        decreases values.len() - i,
    {
        proof {
            assert(values@.take(i + 1).drop_last() =~= values@.take(i as int));
            lemma_bit_width_or(set_bits, values[i as int]);
        }
        set_bits = set_bits | values[i];
        i = i + 1;
    }
    assert(values@.take(values@.len() as int) =~= values@);
    width(set_bits)
}

/// Fewer values than there are fail to fit where one of them is 0.
pub(crate) proof fn lemma_exception_count(values: Seq<u32>, b1: nat)
    requires
        exists|i: int| 0 <= i < values.len() && #[trigger] values[i] == 0,
    ensures
        exceptions(values, b1).len() < values.len(),
{
    let f = |i: int| values[i] >= pow2(b1);
    let k = choose|i: int| 0 <= i < values.len() && #[trigger] values[i] == 0;
    lemma_pow2_pos(b1);
    let n = values.len() as int;
    bits::lemma_indices_where_split(f, 0, k, n);
    bits::lemma_indices_where_split(f, k, k + 1, n);
    bits::lemma_indices_where_none(f, k, k + 1);
    bits::lemma_indices_where_len(f, 0, k);
    bits::lemma_indices_where_len(f, k + 1, n);
}

/// Appends the exception offsets (one byte per exception) and the remaining
/// high `b2` bits of each exception.
fn write_exceptions(values: &[u32], b1: u32, b2: u32, out: &mut Vec<u8>)
    requires
        values.len() <= CHUNK_SIZE,
        b1 < 8,
        b2 <= 8,
    ensures
        final(out)@ == old(out)@ + bit_packing::packed(
            8,
            exception_offsets(values@, b1 as nat),
        ) + bit_packing::packed(b2 as nat, exception_values(values@, b1 as nat)),
{
    proof {
        lemma_u32_pow2_no_overflow(b1 as nat);
        lemma_u32_shl_is_mul(1, b1);
    }
    let threshold: u32 = 1u32 << b1;
    let ghost f = |i: int| values@[i] >= pow2(b1 as nat);
    let mut exc_offsets: Vec<u32> = Vec::new();
    let mut exc_values: Vec<u32> = Vec::new();
    let mut i: usize = 0;
    assert(exc_offsets@ =~= bits::indices_where(f, 0, 0).map_values(|k: int| k as u32));
    assert(exc_values@ =~= bits::indices_where(f, 0, 0).map_values(
        |k: int| (values@[k] as nat / pow2(b1 as nat)) as u32,
    ));
    while i < values.len()
        invariant
            i <= values.len() <= CHUNK_SIZE,
            b1 < 8,
            threshold == pow2(b1 as nat),
            f == (|i: int| values@[i] >= pow2(b1 as nat)),
            exc_offsets@ == bits::indices_where(f, 0, i as int).map_values(|k: int| k as u32),
            exc_values@ == bits::indices_where(f, 0, i as int).map_values(
                |k: int| (values@[k] as nat / pow2(b1 as nat)) as u32,
            ),
        decreases values.len() - i,
    {
        let value: u32 = values[i];
        if value >= threshold {
            proof {
                lemma_u32_shr_is_div(value, b1);
            }
            exc_offsets.push(i as u32);
            exc_values.push(value >> b1);
        }
        assert(exc_offsets@ =~= bits::indices_where(f, 0, i + 1).map_values(|k: int| k as u32));
        assert(exc_values@ =~= bits::indices_where(f, 0, i + 1).map_values(
            |k: int| (values@[k] as nat / pow2(b1 as nat)) as u32,
        ));
        i = i + 1;
    }
    bit_packing::pack(8, exc_offsets.as_slice(), out);
    bit_packing::pack(b2, exc_values.as_slice(), out);
}

/// Appends the encoded form of a chunk.
pub(crate) fn encode_chunk(chunk: &[u32], out: &mut Vec<u8>)
    requires
        0 < chunk.len() <= CHUNK_SIZE,
        forall|i: int| 0 <= i < chunk@.len() ==> #[trigger] chunk@[i] < 256,
    ensures
        final(out)@ == old(out)@ + encoded_chunk(chunk@),
{
    let base = chunk_min(chunk);
    let values = normalize(chunk, base);
    proof {
        lemma_normalized(chunk@);
    }
    let max_width = widest(values.as_slice());
    let (b1, exc_count) = choose_bit_width(values.as_slice(), max_width);
    let b2: u32 = max_width - b1;
    proof {
        best_width_is_unique(values@, max_width as nat, b1 as nat);
        lemma_exception_count(values@, b1 as nat);
    }
    // A width of 8 stores the values before normalizing as raw bytes with b2, e, and m all
    // set to 0.
    if b1 == 8 {
        write_header(out, 8, 0, 0, 0);
        bit_packing::pack(8, chunk, out);
        assert(out@ =~= old(out)@ + encoded_chunk(chunk@));
        return ;
    }
    write_header(out, b1, b2, exc_count, base);
    // Primary array: low b1 bits of every normalized value.
    bit_packing::pack(b1, values.as_slice(), out);
    if exc_count > 0 {
        write_exceptions(values.as_slice(), b1, b2, out);
    }
    proof {
        let head = header(b1 as nat, b2 as nat, exc_count as nat, base as nat);
        let body = bit_packing::packed(b1 as nat, values@);
        let offsets = bit_packing::packed(8, exception_offsets(values@, b1 as nat));
        let highs = bit_packing::packed(b2 as nat, exception_values(values@, b1 as nat));
        assert(encoded_chunk(chunk@) == head + body + offsets + highs);
        if exc_count == 0 {
            assert(0 * b2 == 0);
            assert(offsets =~= Seq::<u8>::empty());
            assert(highs =~= Seq::<u8>::empty());
            assert(out@ == old(out)@ + head + body);
        } else {
            assert(out@ == old(out)@ + head + body + offsets + highs);
        }
        assert(out@ =~= old(out)@ + (head + body + offsets + highs));
    }
}

/// Worst-case number of bytes required to encode `value_count` values.
pub fn estimate_encoded_size(value_count: usize) -> (r: usize)
    requires
        size_bound(value_count as nat) <= usize::MAX,
    ensures
        r == size_bound(value_count as nat),
        r == value_count + 3 * ((value_count + 255) / 256),
{
    // Worst case per chunk is b1 = 8: 3-byte header + 1 byte per value.
    let num_chunks: usize = if value_count % CHUNK_SIZE == 0 {
        value_count / CHUNK_SIZE
    } else {
        value_count / CHUNK_SIZE + 1
    };
    3 * num_chunks + value_count
}

/// Encodes `values` using the Mumbling PFOR scheme.
pub fn encode(values: &[u32]) -> (out: Vec<u8>)
    requires
        size_bound(values@.len()) <= usize::MAX,
        forall|i: int| 0 <= i < values@.len() ==> #[trigger] values@[i] < 256,
    ensures
        out@ == encoded(values@),
{
    let mut out: Vec<u8> = Vec::with_capacity(estimate_encoded_size(values.len()));
    let mut start: usize = 0;
    assert(values@.skip(0) =~= values@);
    while start < values.len()
        invariant
            start <= values.len(),
            forall|i: int| 0 <= i < values@.len() ==> #[trigger] values@[i] < 256,
            out@ + encoded(values@.skip(start as int)) == encoded(values@),
        decreases values.len() - start,
    {
        let left: usize = values.len() - start;
        let len: usize = if left < CHUNK_SIZE {
            left
        } else {
            CHUNK_SIZE
        };
        let chunk = vstd::slice::slice_subrange(values, start, start + len);
        let ghost before = out@;
        encode_chunk(chunk, &mut out);
        proof {
            let rest = values@.skip(start as int);
            assert(rest.take(len as int) =~= chunk@);
            assert(rest.skip(len as int) =~= values@.skip(start + len));
            assert(before + (encoded_chunk(chunk@) + encoded(values@.skip(start + len)))
                =~= before + encoded_chunk(chunk@) + encoded(values@.skip(start + len)));
        }
        start = start + len;
    }
    assert(out@ + encoded(values@.skip(values@.len() as int)) =~= out@);
    out
}

/// Patched values stay below `2^16`.
pub(crate) proof fn lemma_patched(primary: Seq<u32>, offsets: Seq<u32>, highs: Seq<u32>, b1: u32)
    requires
        b1 <= 8,
        offsets.len() <= highs.len(),
        forall|i: int| 0 <= i < primary.len() ==> #[trigger] primary[i] < 256,
        forall|i: int| 0 <= i < highs.len() ==> #[trigger] highs[i] < 256,
        forall|i: int| 0 <= i < offsets.len() ==> #[trigger] offsets[i] < primary.len(),
    ensures
        patched(primary, offsets, highs, b1).len() == primary.len(),
        forall|i: int|
            0 <= i < primary.len() ==> #[trigger] patched(primary, offsets, highs, b1)[i] < 65536,
    decreases offsets.len(),
{
    if offsets.len() > 0 {
        lemma_patched(primary, offsets.drop_last(), highs, b1);
        let before = patched(primary, offsets.drop_last(), highs, b1);
        let old_value = before[offsets.last() as int];
        let high = highs[offsets.len() - 1];
        assert(old_value | (high << b1) < 65536) by (bit_vector)
            requires
                old_value < 65536,
                high < 256,
                b1 <= 8,
        ;
    }
}

/// Unpacked values are bytes.
proof fn lemma_unpacked_bytes(width: nat, bytes: Seq<u8>, count: nat)
    requires
        width <= 8,
    ensures
        forall|i: int|
            0 <= i < count ==> #[trigger] bit_packing::unpacked(width, bytes, count)[i] < 256,
{
    assert forall|i: int| 0 <= i < count implies #[trigger] bit_packing::unpacked(
        width,
        bytes,
        count,
    )[i] < 256 by {
        bit_packing::unpacked_values_fit(width, bytes, count, i);
        lemma2_to64();
        if width < 8 {
            lemma_pow2_strictly_increases(width, 8);
        }
    }
}

/// Decodes the chunk of `count` values at `cursor` and returns the position
/// after it.
pub(crate) fn decode_chunk(bytes: &[u8], cursor: usize, count: usize, out: &mut Vec<u32>) -> (end: usize)
    requires
        0 < count <= CHUNK_SIZE,
        cursor <= bytes.len(),
        chunk_readable(bytes@.skip(cursor as int), count as nat),
    ensures
        end == cursor + chunk_size(bytes@.skip(cursor as int), count as nat),
        final(out)@ == old(out)@ + chunk_values(bytes@.skip(cursor as int), count as nat),
        forall|chunk: Seq<u32>, before: Seq<u8>, after: Seq<u8>|
            {
                &&& chunk.len() == count
                &&& forall|i: int| 0 <= i < chunk.len() ==> #[trigger] chunk[i] < 256
                &&& before.len() == cursor
                &&& bytes@ == #[trigger] (before + encoded_chunk(chunk) + after)
            } ==> end == cursor + encoded_chunk(chunk).len() && final(out)@ == old(out)@ + chunk,
{
    let ghost s = bytes@.skip(cursor as int);
    let header: u8 = bytes[cursor];
    assert(header & 0x0F == header % 16 && (header >> 4) & 0x0F == header / 16) by (bit_vector);
    let b1: u32 = (header & 0x0F) as u32;
    let b2: u32 = ((header >> 4) & 0x0F) as u32;
    let exc_count: usize = bytes[cursor + 1] as usize;
    let base: u32 = bytes[cursor + 2] as u32;
    assert(0 <= count * b1 <= 256 * 8 && (b1 == 8 ==> count * b1 == 8 * count))
        by (nonlinear_arith)
        requires
            0 < count <= 256,
            b1 <= 8,
    ;
    assert(0 <= exc_count * b2 <= 255 * 15 && (b2 == 8 ==> exc_count * b2 == 8 * exc_count))
        by (nonlinear_arith)
        requires
            exc_count <= 255,
            b2 <= 15,
    ;
    // Primary array.
    let primary_bytes: usize = bit_packing::byte_width(count * b1 as usize);
    let primary_start: usize = cursor + 3;
    let exc_start: usize = primary_start + primary_bytes;
    let primary = vstd::slice::slice_subrange(bytes, primary_start, exc_start);
    let mut values: Vec<u32> = bit_packing::unpack(b1, primary, count);
    proof {
        assert(primary@ =~= s.subrange(3, exceptions_start(s, count as nat)));
        assert(values@ == chunk_primary(s, count as nat));
        lemma_unpacked_bytes(b1 as nat, primary@, count as nat);
    }
    let mut end: usize = exc_start;
    if exc_count > 0 {
        let high_start: usize = exc_start + exc_count;
        let offset_bytes = vstd::slice::slice_subrange(bytes, exc_start, high_start);
        let offsets: Vec<u32> = bit_packing::unpack(8, offset_bytes, exc_count);
        let exc_bytes: usize = bit_packing::byte_width(exc_count * b2 as usize);
        end = high_start + exc_bytes;
        let high_bytes = vstd::slice::slice_subrange(bytes, high_start, end);
        let highs: Vec<u32> = bit_packing::unpack(b2, high_bytes, exc_count);
        proof {
            let start = exceptions_start(s, count as nat);
            assert(offset_bytes@ =~= s.subrange(start, start + exc_count));
            assert(high_bytes@ =~= s.subrange(start + exc_count, chunk_size(s, count as nat)));
            assert(offsets@ == chunk_offsets(s, count as nat));
            assert(highs@ == chunk_highs(s, count as nat));
            lemma_unpacked_bytes(b2 as nat, high_bytes@, exc_count as nat);
            assert(offsets@.take(0) =~= Seq::<u32>::empty());
        }
        let ghost start_values = values@;
        let mut i: usize = 0;
        while i < offsets.len()
            invariant
                i <= offsets.len(),
                offsets.len() == highs.len(),
                b1 <= 8,
                start_values.len() == count,
                forall|k: int| 0 <= k < offsets@.len() ==> #[trigger] offsets@[k] < count,
                forall|k: int| 0 <= k < start_values.len() ==> #[trigger] start_values[k] < 256,
                forall|k: int| 0 <= k < highs@.len() ==> #[trigger] highs@[k] < 256,
                values@ == patched(start_values, offsets@.take(i as int), highs@, b1),
            decreases offsets.len() - i,
        {
            proof {
                lemma_patched(start_values, offsets@.take(i as int), highs@, b1);
                assert(offsets@.take(i + 1).drop_last() =~= offsets@.take(i as int));
                assert(offsets@[i as int] < count);
            }
            let at: usize = offsets[i] as usize;
            let value: u32 = values[at] | (highs[i] << b1);
            values[at] = value;
            i = i + 1;
        }
        proof {
            assert(offsets@.take(offsets@.len() as int) =~= offsets@);
            lemma_patched(start_values, offsets@, highs@, b1);
        }
    }
    let ghost done = chunk_values(s, count as nat);
    assert(values@ == chunk_normalized(s, count as nat));
    assert(old(out)@ + done.take(0) =~= old(out)@);
    let mut i: usize = 0;
    while i < values.len()
        invariant
            i <= values.len() == count,
            base == s[2],
            values@ == chunk_normalized(s, count as nat),
            done == chunk_values(s, count as nat),
            forall|k: int| 0 <= k < values@.len() ==> #[trigger] values@[k] < 65536,
            out@ == old(out)@ + done.take(i as int),
        decreases values.len() - i,
    {
        assert(values@[i as int] < 65536);
        out.push(values[i] + base);
        assert(done.take(i + 1) =~= done.take(i as int).push(done[i as int]));
        i = i + 1;
    }
    assert(done.take(count as int) =~= done);
    proof {
        assert forall|chunk: Seq<u32>, before: Seq<u8>, after: Seq<u8>|
            {
                &&& chunk.len() == count
                &&& forall|i: int| 0 <= i < chunk.len() ==> #[trigger] chunk[i] < 256
                &&& before.len() == cursor
                &&& bytes@ == #[trigger] (before + encoded_chunk(chunk) + after)
            } implies end == cursor + encoded_chunk(chunk).len() && out@ == old(out)@ + chunk by {
            decode_chunk_undoes_encode_chunk(chunk, before, after, old(out)@);
        }
    }
    end
}

/// Decodes `count` values and also returns the number of bytes consumed.
pub fn decode_len(bytes: &[u8], count: usize) -> (r: (Vec<u32>, usize))
    requires
        readable(bytes@, count as nat),
    ensures
        r.0@ == decoded(bytes@, count as nat),
        r.1 == encoded_size(bytes@, count as nat),
{
    let mut out: Vec<u32> = Vec::with_capacity(count);
    let mut cursor: usize = 0;
    assert(bytes@.skip(0) =~= bytes@);
    while out.len() < count
        invariant
            out.len() <= count,
            cursor <= bytes.len(),
            readable(bytes@.skip(cursor as int), (count - out.len()) as nat),
            cursor + encoded_size(bytes@.skip(cursor as int), (count - out.len()) as nat)
                == encoded_size(bytes@, count as nat),
            out@ + decoded(bytes@.skip(cursor as int), (count - out.len()) as nat) == decoded(
                bytes@,
                count as nat,
            ),
        decreases count - out.len(),
    {
        let left: usize = count - out.len();
        let chunk_len: usize = if left < CHUNK_SIZE {
            left
        } else {
            CHUNK_SIZE
        };
        let ghost before = out@;
        let ghost s = bytes@.skip(cursor as int);
        let ghost size = chunk_size(s, chunk_len as nat);
        cursor = decode_chunk(bytes, cursor, chunk_len, &mut out);
        proof {
            assert(s.skip(size) =~= bytes@.skip(cursor as int));
            assert(before + (chunk_values(s, chunk_len as nat) + decoded(
                s.skip(size),
                (left - chunk_len) as nat,
            )) =~= out@ + decoded(s.skip(size), (left - chunk_len) as nat));
        }
    }
    assert(out@ + decoded(bytes@.skip(cursor as int), 0) =~= out@);
    (out, cursor)
}

/// Decodes `count` values previously encoded with [`encode`].
pub fn decode(bytes: &[u8], count: usize) -> (values: Vec<u32>)
    requires
        readable(bytes@, count as nat),
    ensures
        values@ == decoded(bytes@, count as nat),
{
    decode_len(bytes, count).0
}

/// A value is its low bits with its high bits put back.
proof fn lemma_low_or_high(v: u32, b1: u32)
    requires
        b1 < 32,
    ensures
        ((v as nat % pow2(b1 as nat)) as u32) | (((v as nat / pow2(b1 as nat)) as u32) << b1) == v,
{
    lemma_u32_pow2_no_overflow(b1 as nat);
    lemma_u32_shl_is_mul(1, b1);
    lemma_u32_low_bits_mask_is_mod(v, b1 as nat);
    lemma_u32_shr_is_div(v, b1);
    let mask = ((1u32 << b1) - 1) as u32;
    assert((v & mask) | ((v >> b1) << b1) == v) by (bit_vector)
        requires
            b1 < 32,
            mask == (1u32 << b1) - 1,
    ;
}

/// Putting the high bits of the first `k` exceptions back restores the values
/// at their offsets and changes nothing else.
proof fn lemma_patched_prefix(values: Seq<u32>, primary: Seq<u32>, b1: u32, k: int)
    requires
        b1 < 32,
        values.len() <= 256,
        primary == Seq::new(
            values.len(),
            |i: int| (values[i] as nat % pow2(b1 as nat)) as u32,
        ),
        0 <= k <= exceptions(values, b1 as nat).len(),
    ensures
        ({
            let idx = exceptions(values, b1 as nat);
            let p = patched(
                primary,
                exception_offsets(values, b1 as nat).take(k),
                exception_values(values, b1 as nat),
                b1,
            );
            &&& p.len() == values.len()
            &&& forall|i: int|
                0 <= i < values.len() ==> #[trigger] p[i] == if exists|l: int|
                    0 <= l < k && #[trigger] idx[l] == i {
                    values[i]
                } else {
                    primary[i]
                }
        }),
    decreases k,
{
    let idx = exceptions(values, b1 as nat);
    let offsets = exception_offsets(values, b1 as nat);
    let highs = exception_values(values, b1 as nat);
    let f = |i: int| values[i] >= pow2(b1 as nat);
    bits::lemma_indices_where(f, 0, values.len() as int);
    let p = patched(primary, offsets.take(k), highs, b1);
    if k > 0 {
        lemma_patched_prefix(values, primary, b1, k - 1);
        assert(offsets.take(k).drop_last() =~= offsets.take(k - 1));
        let before = patched(primary, offsets.take(k - 1), highs, b1);
        let at = idx[k - 1];
        assert(offsets.take(k).last() as int == at);
        lemma_low_or_high(values[at], b1);
        assert(before[at] == primary[at]) by {
            assert(!exists|l: int| 0 <= l < k - 1 && #[trigger] idx[l] == at);
        }
        assert(p[at] == values[at]);
        assert forall|i: int| 0 <= i < values.len() implies #[trigger] p[i] == if exists|l: int|
            0 <= l < k && #[trigger] idx[l] == i {
            values[i]
        } else {
            primary[i]
        } by {
            if i == at {
                assert(idx[k - 1] == i);
            } else {
                assert(p[i] == before[i]);
                if exists|l: int| 0 <= l < k && #[trigger] idx[l] == i {
                    let l = choose|l: int| 0 <= l < k && #[trigger] idx[l] == i;
                    assert(0 <= l < k - 1 && idx[l] == i);
                }
            }
        }
    }
}

/// Putting the high bits of all exceptions back restores the values.
proof fn lemma_patched_restores(values: Seq<u32>, b1: u32)
    requires
        b1 < 32,
        values.len() <= 256,
    ensures
        patched(
            Seq::new(values.len(), |i: int| (values[i] as nat % pow2(b1 as nat)) as u32),
            exception_offsets(values, b1 as nat),
            exception_values(values, b1 as nat),
            b1,
        ) == values,
{
    let primary = Seq::new(values.len(), |i: int| (values[i] as nat % pow2(b1 as nat)) as u32);
    let idx = exceptions(values, b1 as nat);
    let offsets = exception_offsets(values, b1 as nat);
    let f = |i: int| values[i] >= pow2(b1 as nat);
    lemma_patched_prefix(values, primary, b1, idx.len() as int);
    assert(offsets.take(idx.len() as int) =~= offsets);
    let p = patched(primary, offsets, exception_values(values, b1 as nat), b1);
    assert forall|i: int| 0 <= i < values.len() implies p[i] == values[i] by {
        if f(i) {
            bits::lemma_indices_where_contains(f, 0, values.len() as int, i);
            let l = choose|l: int| 0 <= l < idx.len() && idx[l] == i;
            assert(idx[l] == i);
        } else {
            lemma_small_mod(values[i] as nat, pow2(b1 as nat));
        }
    }
    assert(p =~= values);
}

/// The high bits of an exception fit in the width that is left for them, and
/// its offset in a byte.
proof fn lemma_exceptions_fit(values: Seq<u32>, max_width: nat, b1: nat)
    requires
        values.len() <= 256,
        b1 <= max_width <= 8,
        forall|i: int| 0 <= i < values.len() ==> #[trigger] values[i] < pow2(max_width),
    ensures
        forall|k: int|
            0 <= k < exceptions(values, b1).len() ==> #[trigger] exception_offsets(values, b1)[k]
                < pow2(8),
        forall|k: int|
            0 <= k < exceptions(values, b1).len() ==> #[trigger] exception_values(values, b1)[k]
                < pow2((max_width - b1) as nat),
{
    let f = |i: int| values[i] >= pow2(b1);
    let idx = exceptions(values, b1);
    let b2 = (max_width - b1) as nat;
    bits::lemma_indices_where(f, 0, values.len() as int);
    lemma2_to64();
    lemma_pow2_adds(b1, b2);
    lemma_pow2_pos(b1);
    assert forall|k: int| 0 <= k < idx.len() implies #[trigger] exception_values(values, b1)[k]
        < pow2(b2) by {
        let v = values[idx[k]] as nat;
        assert(v < pow2(max_width));
        lemma_multiply_divide_lt(v as int, pow2(b1) as int, pow2(b2) as int);
    }
    assert forall|k: int| 0 <= k < idx.len() implies #[trigger] exception_offsets(values, b1)[k]
        < pow2(8) by {
        assert(0 <= idx[k] < values.len());
    }
}

/// A raw chunk is read back, whatever follows.
proof fn lemma_raw_chunk_round_trip(chunk: Seq<u32>, tail: Seq<u8>)
    requires
        0 < chunk.len() <= CHUNK_SIZE,
        forall|i: int| 0 <= i < chunk.len() ==> #[trigger] chunk[i] < 256,
    ensures
        ({
            let e = header(8, 0, 0, 0) + bit_packing::packed(8, chunk);
            &&& chunk_readable(e + tail, chunk.len())
            &&& chunk_size(e + tail, chunk.len()) == e.len()
            &&& chunk_values(e + tail, chunk.len()) == chunk
        }),
{
    let n = chunk.len();
    let body = bit_packing::packed(8, chunk);
    let s = header(8, 0, 0, 0) + body + tail;
    lemma2_to64();
    assert(s[0] == 8 && s[1] == 0 && s[2] == 0);
    assert(body.len() == n);
    assert(s.subrange(3, (3 + n) as int) =~= body);
    bit_packing::unpack_returns_fitting_values(8, chunk);
    assert(chunk_values(s, n) =~= chunk);
}

/// Where the parts of a split chunk are found in its encoded form.
proof fn lemma_split_chunk_parts(
    s: Seq<u8>,
    b1: nat,
    b2: nat,
    base: nat,
    values: Seq<u32>,
    offsets: Seq<u32>,
    highs: Seq<u32>,
    tail: Seq<u8>,
)
    requires
        b1 <= 8,
        b2 <= 8,
        base < 256,
        offsets.len() < 256,
        offsets.len() == highs.len(),
        s == header(b1, b2, offsets.len(), base) + bit_packing::packed(b1, values)
            + bit_packing::packed(8, offsets) + bit_packing::packed(b2, highs) + tail,
    ensures
        ({
            let n = values.len();
            &&& s.len() >= 3
            &&& s[1] == offsets.len()
            &&& s[2] == base
            &&& header_b1(s) == b1
            &&& header_b2(s) == b2
            &&& chunk_size(s, n) == s.len() - tail.len()
            &&& chunk_primary(s, n) == bit_packing::unpacked(
                b1,
                bit_packing::packed(b1, values),
                n,
            )
            &&& s[1] > 0 ==> chunk_offsets(s, n) == bit_packing::unpacked(
                8,
                bit_packing::packed(8, offsets),
                offsets.len(),
            )
            &&& s[1] > 0 ==> chunk_highs(s, n) == bit_packing::unpacked(
                b2,
                bit_packing::packed(b2, highs),
                highs.len(),
            )
        }),
{
    let n = values.len();
    let e = offsets.len();
    let body = bit_packing::packed(b1, values);
    let offset_body = bit_packing::packed(8, offsets);
    let high_body = bit_packing::packed(b2, highs);
    let head = header(b1, b2, e, base);
    assert(0 <= n * b1) by (nonlinear_arith);
    assert(0 <= e * b2 && (e == 0 ==> e * b2 == 0)) by (nonlinear_arith);
    assert(offset_body.len() == e);
    assert(s[0] == head[0] && s[1] == head[1] && s[2] == head[2]);
    let p = exceptions_start(s, n);
    assert(p == 3 + body.len());
    assert(s.subrange(3, p) =~= body);
    assert(high_body.len() == bits::bytes_for((e * b2) as int));
    assert(s.len() == p + e + high_body.len() + tail.len());
    if e > 0 {
        assert(s.subrange(p, p + e) =~= offset_body);
        assert(s.subrange(p + e, p + e + high_body.len()) =~= high_body);
    }
}

/// A split chunk is read back, whatever follows.
proof fn lemma_split_chunk_round_trip(chunk: Seq<u32>, b1: nat, tail: Seq<u8>)
    requires
        0 < chunk.len() <= CHUNK_SIZE,
        forall|i: int| 0 <= i < chunk.len() ==> #[trigger] chunk[i] < 256,
        b1 <= bits_needed(normalized(chunk)),
    ensures
        ({
            let values = normalized(chunk);
            let b2 = (bits_needed(values) - b1) as nat;
            let e = header(b1, b2, exceptions(values, b1).len(), least(chunk) as nat)
                + bit_packing::packed(b1, values) + bit_packing::packed(
                8,
                exception_offsets(values, b1),
            ) + bit_packing::packed(b2, exception_values(values, b1));
            &&& chunk_readable(e + tail, chunk.len())
            &&& chunk_size(e + tail, chunk.len()) == e.len()
            &&& chunk_values(e + tail, chunk.len()) == chunk
        }),
{
    let n = chunk.len();
    let values = normalized(chunk);
    let max_width = bits_needed(values);
    let b2 = (max_width - b1) as nat;
    let offsets = exception_offsets(values, b1);
    let highs = exception_values(values, b1);
    let s = header(b1, b2, offsets.len(), least(chunk) as nat) + bit_packing::packed(b1, values)
        + bit_packing::packed(8, offsets) + bit_packing::packed(b2, highs) + tail;
    lemma_normalized(chunk);
    lemma_bits_needed(values);
    lemma_exception_count(values, b1);
    lemma_split_chunk_parts(s, b1, b2, least(chunk) as nat, values, offsets, highs, tail);
    bit_packing::unpack_undoes_pack(b1, values);
    lemma_exceptions_fit(values, max_width, b1);
    let f = |i: int| values[i] >= pow2(b1);
    if offsets.len() == 0 {
        assert forall|i: int| 0 <= i < n implies #[trigger] values[i] < pow2(b1) by {
            if f(i) {
                bits::lemma_indices_where_contains(f, 0, n as int, i);
            }
        }
        bit_packing::unpack_returns_fitting_values(b1, values);
    } else {
        bit_packing::unpack_returns_fitting_values(8, offsets);
        bit_packing::unpack_returns_fitting_values(b2, highs);
        bits::lemma_indices_where(f, 0, n as int);
        assert forall|i: int| 0 <= i < s[1] implies #[trigger] chunk_offsets(s, n)[i] < n by {
            assert(0 <= exceptions(values, b1)[i] < n);
        }
        lemma_patched_restores(values, b1 as u32);
    }
    assert(chunk_normalized(s, n) == values);
    assert(chunk_values(s, n) =~= chunk);
}

/// A chunk is read back from its encoded form, whatever follows.
proof fn lemma_chunk_round_trip(chunk: Seq<u32>, tail: Seq<u8>)
    requires
        0 < chunk.len() <= CHUNK_SIZE,
        forall|i: int| 0 <= i < chunk.len() ==> #[trigger] chunk[i] < 256,
    ensures
        chunk_readable(encoded_chunk(chunk) + tail, chunk.len()),
        chunk_size(encoded_chunk(chunk) + tail, chunk.len()) == encoded_chunk(chunk).len(),
        chunk_values(encoded_chunk(chunk) + tail, chunk.len()) == chunk,
{
    let values = normalized(chunk);
    let max_width = bits_needed(values);
    best_width_exists(values, max_width);
    let b1 = best_width(values, max_width);
    if b1 == 8 {
        lemma_raw_chunk_round_trip(chunk, tail);
    } else {
        lemma_split_chunk_round_trip(chunk, b1, tail);
    }
}

/// Decoding what was encoded gives the values back and consumes exactly the
/// encoded bytes, whatever follows them.
pub proof fn decode_undoes_encode(values: Seq<u32>, tail: Seq<u8>)
    requires
        forall|i: int| 0 <= i < values.len() ==> #[trigger] values[i] < 256,
    ensures
        readable(encoded(values) + tail, values.len()),
        decoded(encoded(values) + tail, values.len()) == values,
        encoded_size(encoded(values) + tail, values.len()) == encoded(values).len(),
    decreases values.len(),
{
    if values.len() > 0 {
        let n = first_chunk(values.len()) as int;
        let chunk = values.take(n);
        let rest = values.skip(n);
        let s = encoded(values) + tail;
        let after = encoded(rest) + tail;
        assert(s =~= encoded_chunk(chunk) + after);
        assert forall|i: int| 0 <= i < rest.len() implies #[trigger] rest[i] < 256 by {
            assert(values[n + i] < 256);
        }
        lemma_chunk_round_trip(chunk, after);
        assert(s.skip(encoded_chunk(chunk).len() as int) =~= after);
        decode_undoes_encode(rest, tail);
        assert(chunk + rest =~= values);
    }
    assert(decoded(encoded(values) + tail, values.len()) =~= values);
}

/// An encoded chunk is at most its header and one byte per value.
proof fn lemma_chunk_len(chunk: Seq<u32>)
    requires
        0 < chunk.len() <= CHUNK_SIZE,
        forall|i: int| 0 <= i < chunk.len() ==> #[trigger] chunk[i] < 256,
    ensures
        encoded_chunk(chunk).len() <= 3 + chunk.len(),
{
    let values = normalized(chunk);
    let max_width = bits_needed(values);
    lemma_normalized(chunk);
    lemma_bits_needed(values);
    best_width_exists(values, max_width);
    let b1 = best_width(values, max_width);
    if b1 != 8 {
        let f = |i: int| values[i] >= pow2(max_width);
        bits::lemma_indices_where_none(f, 0, values.len() as int);
        assert(values.len() * max_width <= 8 * values.len()) by (nonlinear_arith)
            requires
                max_width <= 8,
        ;
        assert(body_size(values, max_width, max_width) <= values.len());
        assert(body_size(values, max_width, b1) <= body_size(values, max_width, max_width));
        let e = exceptions(values, b1).len();
        assert(0 <= values.len() * b1) by (nonlinear_arith);
        assert(0 <= e * (max_width - b1)) by (nonlinear_arith)
            requires
                b1 <= max_width,
        ;
        assert(encoded_chunk(chunk).len() == 3 + body_size(values, max_width, b1));
    }
}

/// Encoded arrays never exceed the estimated size.
pub proof fn encoded_within_estimate(values: Seq<u32>)
    requires
        forall|i: int| 0 <= i < values.len() ==> #[trigger] values[i] < 256,
    ensures
        encoded(values).len() <= size_bound(values.len()),
    decreases values.len(),
{
    if values.len() > 0 {
        let n = first_chunk(values.len()) as int;
        let rest = values.skip(n);
        assert forall|i: int| 0 <= i < rest.len() implies #[trigger] rest[i] < 256 by {
            assert(values[n + i] < 256);
        }
        lemma_chunk_len(values.take(n));
        encoded_within_estimate(rest);
    }
}

/// Decoding a chunk is the inverse of encoding it, at any place: whatever stands
/// before and after the encoded chunk, its values are appended to what was
/// decoded before, and the position returned is that after its last byte.
pub proof fn decode_chunk_undoes_encode_chunk(
    chunk: Seq<u32>,
    before: Seq<u8>,
    after: Seq<u8>,
    out: Seq<u32>,
)
    requires
        0 < chunk.len() <= CHUNK_SIZE,
        forall|i: int| 0 <= i < chunk.len() ==> #[trigger] chunk[i] < 256,
    ensures
        ({
            let s = (before + encoded_chunk(chunk) + after).skip(before.len() as int);
            &&& chunk_readable(s, chunk.len())
            &&& before.len() + chunk_size(s, chunk.len()) == (before + encoded_chunk(chunk)).len()
            &&& out + chunk_values(s, chunk.len()) == out + chunk
        }),
{
    assert((before + encoded_chunk(chunk) + after).skip(before.len() as int) =~= encoded_chunk(
        chunk,
    ) + after);
    lemma_chunk_round_trip(chunk, after);
}

} // verus!
