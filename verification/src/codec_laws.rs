//! What packed and encoded arrays are, in terms of their bytes and of the
//! arithmetic of machine numbers.

use crate::bit_packing;
use crate::bits;
use crate::pfor;
use vstd::arithmetic::power2::*;
use vstd::prelude::*;

verus! {

/// Bit `j` of a byte string, the most significant bit of its first byte being
/// bit 0, is found by shifting.
pub proof fn byte_bit_by_shifting(bytes: Seq<u8>, j: int)
    requires
        0 <= j < 8 * bytes.len(),
    ensures
        bits::byte_bit(bytes, j) <==> (bytes[j / 8] >> (7 - j % 8)) & 1 == 1,
{
    bits::lemma_u8_bit(bytes[j / 8], (7 - j % 8) as u8);
}

/// Packing puts value after value, each with its low `width` bits, the most
/// significant first, into bytes filled from their most significant bit; the
/// bits after the last value are zero, and there are fewer than eight of them.
pub proof fn packed_bits(width: nat, values: Seq<u32>, j: int)
    requires
        width <= 8,
        0 <= j < 8 * bit_packing::packed(width, values).len(),
    ensures
        8 * bit_packing::packed(width, values).len() - 8 < values.len() * width <= 8
            * bit_packing::packed(width, values).len(),
        ((bit_packing::packed(width, values)[j / 8] >> (7 - j % 8)) & 1 == 1) <==> j < values.len()
            * width && (values[j / width as int] >> (width - 1 - j % width as int)) & 1 == 1,
{
    let bytes = bit_packing::packed(width, values);
    bit_packing::packed_stream_is_value_stream(width, values, j);
    byte_bit_by_shifting(bytes, j);
    if j < values.len() * width {
        assert(width > 0) by {
            if width == 0 {
                assert(values.len() * width == 0) by (nonlinear_arith)
                    requires
                        width == 0,
                ;
            }
        }
        let i = j / width as int;
        let t = j % width as int;
        assert(0 <= t < width && 0 <= i < values.len()) by (nonlinear_arith)
            requires
                0 <= j < values.len() * width,
                width > 0,
                i == j / width as int,
                t == j % width as int,
        ;
        bits::lemma_u32_bit(values[i], (width - 1 - t) as u32);
    }
}

/// Packing needs as many bytes as hold all bits, and no more.
pub proof fn packed_len(width: nat, values: Seq<u32>)
    ensures
        8 * bit_packing::packed(width, values).len() >= values.len() * width,
        8 * bit_packing::packed(width, values).len() < values.len() * width + 8,
{
    assert(values.len() * width >= 0) by (nonlinear_arith);
}

/// Unpacking reads numbers of `width` bits, one after the other, the most
/// significant bit first, from bytes read from their most significant bit.
pub proof fn unpacked_bits(width: nat, bytes: Seq<u8>, count: nat, i: int, t: int)
    requires
        width <= 8,
        count * width <= 8 * bytes.len(),
        0 <= i < count,
        0 <= t < width,
    ensures
        bit_packing::unpacked(width, bytes, count).len() == count,
        ((bit_packing::unpacked(width, bytes, count)[i] >> (width - 1 - t)) & 1 == 1) <==> (bytes[(i
            * width + t) / 8] >> (7 - (i * width + t) % 8)) & 1 == 1,
{
    let f = bits::byte_stream(bytes);
    let j = i * width + t;
    assert(0 <= j < count * width) by (nonlinear_arith)
        requires
            0 <= i < count,
            0 <= t < width,
            j == i * width + t,
    ;
    bits::lemma_bit_of_bits_value(f, i * width, width, (width - 1 - t) as nat);
    bits::lemma_bits_value_bound(f, i * width, width);
    lemma2_to64();
    if width < 8 {
        lemma_pow2_strictly_increases(width, 8);
    }
    bits::lemma_u32_bit(bit_packing::unpacked(width, bytes, count)[i], (width - 1 - t) as u32);
    byte_bit_by_shifting(bytes, j);
}

/// Numbers of `width` bits have no further bits.
pub proof fn unpacked_has_no_other_bits(width: nat, bytes: Seq<u8>, count: nat, i: int)
    requires
        width <= 8,
        0 <= i < count,
    ensures
        bit_packing::unpacked(width, bytes, count)[i] < pow2(width),
{
    bit_packing::unpacked_values_fit(width, bytes, count, i);
}

/// Arrays are encoded in chunks of 256 values: what comes after a whole number of
/// chunks is encoded by itself.
pub proof fn encoded_by_chunks(a: Seq<u32>, b: Seq<u32>)
    requires
        a.len() % 256 == 0,
    ensures
        pfor::encoded(a + b) == pfor::encoded(a) + pfor::encoded(b),
    decreases a.len(),
{
    if a.len() == 0 {
        assert(a + b =~= b);
        assert(pfor::encoded(a) + pfor::encoded(b) =~= pfor::encoded(b));
    } else {
        let first = a.take(256);
        let rest = a.skip(256);
        encoded_by_chunks(rest, b);
        assert((a + b).take(256) =~= first);
        assert((a + b).skip(256) =~= rest + b);
        assert(pfor::encoded(a + b) =~= pfor::encoded(a) + pfor::encoded(b));
    }
}

/// Nothing is encoded as nothing, and up to 256 values as one chunk.
pub proof fn encoded_chunk_alone(values: Seq<u32>)
    ensures
        values.len() == 0 ==> pfor::encoded(values) == Seq::<u8>::empty(),
        0 < values.len() <= 256 ==> pfor::encoded(values) == pfor::encoded_chunk(values),
{
    if 0 < values.len() <= 256 {
        assert(values.take(values.len() as int) =~= values);
        let none = values.skip(values.len() as int);
        assert(pfor::encoded(none) =~= Seq::<u8>::empty());
        assert(pfor::encoded(values) =~= pfor::encoded_chunk(values));
    }
}

/// Arrays are decoded in chunks of 256 values: those after a first chunk are
/// decoded from the bytes after it.
pub proof fn decoded_by_chunks(s: Seq<u8>, n: nat)
    ensures
        pfor::decoded(s, 256 + n) == pfor::decoded(s, 256) + pfor::decoded(
            s.skip(pfor::encoded_size(s, 256)),
            n,
        ),
        pfor::encoded_size(s, 256 + n) == pfor::encoded_size(s, 256) + pfor::encoded_size(
            s.skip(pfor::encoded_size(s, 256)),
            n,
        ),
        pfor::readable(s, 256 + n) == (pfor::readable(s, 256) && pfor::readable(
            s.skip(pfor::encoded_size(s, 256)),
            n,
        )),
{
    let size = pfor::chunk_size(s, 256);
    assert(pfor::encoded_size(s.skip(size), 0) == 0);
    assert(pfor::decoded(s.skip(size), 0) =~= Seq::<u32>::empty());
    assert(pfor::encoded_size(s, 256) == size);
    assert(pfor::decoded(s, 256) =~= pfor::chunk_values(s, 256));
    assert(pfor::readable(s.skip(size), 0));
}

/// A chunk of 256 values and what follows it are decoded one after the other.
pub proof fn decoded_after_chunk(a: Seq<u32>, s: Seq<u8>, n: nat)
    requires
        a.len() == 256,
        forall|i: int| 0 <= i < a.len() ==> #[trigger] a[i] < 256,
    ensures
        pfor::decoded(pfor::encoded_chunk(a) + s, 256 + n) == a + pfor::decoded(s, n),
{
    let all = pfor::encoded_chunk(a) + s;
    decoded_by_chunks(all, n);
    encoded_chunk_alone(a);
    pfor::decode_undoes_encode(a, s);
    assert(all.skip(pfor::encoded_chunk(a).len() as int) =~= s);
}

/// As many indices are listed as values satisfy the condition.
proof fn lemma_listed_count(s: Seq<u32>, f: spec_fn(int) -> bool, g: spec_fn(u32) -> bool, n: int)
    requires
        0 <= n <= s.len(),
        forall|i: int| 0 <= i < n ==> #[trigger] f(i) == g(s[i]),
    ensures
        bits::indices_where(f, 0, n).len() == s.take(n).filter(g).len(),
    decreases n,
{
    reveal(Seq::filter);
    if n > 0 {
        lemma_listed_count(s, f, g, n - 1);
        assert(s.take(n).drop_last() =~= s.take(n - 1));
        assert(f(n - 1) == g(s[n - 1]));
    }
}

/// The parts of an encoded chunk.
proof fn lemma_chunk_shape(chunk: Seq<u32>) -> (r: (nat, nat))
    requires
        0 < chunk.len() <= 256,
        forall|i: int| 0 <= i < chunk.len() ==> #[trigger] chunk[i] < 256,
    ensures
        ({
            let (b1, w) = r;
            let e = pfor::encoded_chunk(chunk);
            let values = pfor::normalized(chunk);
            let exc = pfor::exceptions(values, b1);
            &&& b1 <= w <= 8
            &&& w == pfor::bits_needed(values)
            &&& b1 == pfor::best_width(values, w)
            &&& pfor::is_best_width(values, w, b1)
            &&& e.len() >= 3
            &&& e[0] % 16 == b1
            &&& exc.len() < 256
            &&& b1 == 8 ==> e == seq![8u8, 0u8, 0u8] + bit_packing::packed(8, chunk)
            &&& b1 < 8 ==> {
                &&& e[0] / 16 == w - b1
                &&& e[1] == exc.len()
                &&& e[2] == pfor::least(chunk)
                &&& e == seq![e[0], e[1], e[2]] + bit_packing::packed(b1, values)
                    + bit_packing::packed(8, pfor::exception_offsets(values, b1))
                    + bit_packing::packed((w - b1) as nat, pfor::exception_values(values, b1))
            }
        }),
{
    let values = pfor::normalized(chunk);
    let w = pfor::bits_needed(values);
    pfor::lemma_normalized(chunk);
    pfor::best_width_exists(values, w);
    let b1 = pfor::best_width(values, w);
    pfor::lemma_exception_count(values, b1);
    let e = pfor::encoded_chunk(chunk);
    if b1 == 8 {
        assert(e[0] == 8);
        assert(pfor::header(8, 0, 0, 0) =~= seq![8u8, 0u8, 0u8]);
    } else {
        let h = pfor::header(
            b1,
            (w - b1) as nat,
            pfor::exceptions(values, b1).len(),
            pfor::least(chunk) as nat,
        );
        assert(e[0] == h[0] && e[1] == h[1] && e[2] == h[2]);
        assert(h =~= seq![e[0], e[1], e[2]]);
    }
    (b1, w)
}

/// At width 8 packing copies the low byte of each value.
pub proof fn packed_raw(values: Seq<u32>, i: int)
    requires
        0 <= i < values.len(),
    ensures
        bit_packing::packed(8, values).len() == values.len(),
        bit_packing::packed(8, values)[i] == values[i] % 256,
{
    let raw = bit_packing::packed(8, values);
    lemma2_to64();
    bit_packing::unpack_undoes_pack(8, values);
    bits::lemma_byte_in_stream(raw, i);
    assert(bit_packing::unpacked(8, raw, values.len())[i] == values[i] as nat % 256);
}

/// An encoded chunk whose first byte has 8 in its low four bits holds the values
/// as raw bytes, with nothing else in its header.
pub proof fn encoded_chunk_raw(chunk: Seq<u32>)
    requires
        0 < chunk.len() <= 256,
        forall|i: int| 0 <= i < chunk.len() ==> #[trigger] chunk[i] < 256,
    ensures
        pfor::encoded_chunk(chunk).len() >= 3,
        pfor::encoded_chunk(chunk)[0] % 16 <= 8,
        pfor::encoded_chunk(chunk)[0] % 16 == 8 ==> {
            &&& pfor::encoded_chunk(chunk).take(3) == seq![8u8, 0u8, 0u8]
            &&& pfor::encoded_chunk(chunk).len() == 3 + chunk.len()
            &&& forall|i: int|
                0 <= i < chunk.len() ==> pfor::encoded_chunk(chunk)[3 + i] == #[trigger] chunk[i]
        },
{
    let (b1, w) = lemma_chunk_shape(chunk);
    let e = pfor::encoded_chunk(chunk);
    if b1 == 8 {
        let raw = bit_packing::packed(8, chunk);
        assert(raw.len() == chunk.len());
        assert(e.take(3) =~= seq![8u8, 0u8, 0u8]);
        assert forall|i: int| 0 <= i < chunk.len() implies e[3 + i] == #[trigger] chunk[i] by {
            packed_raw(chunk, i);
            assert(e[3 + i] == raw[i]);
        }
    }
}

/// The header of an encoded chunk whose first byte has less than 8 in its low
/// four bits: so many bits of each value the primary array holds. The high four
/// bits tell how many more bits the widest value needs above the minimum, and
/// the third byte is the minimum.
pub proof fn encoded_chunk_header(chunk: Seq<u32>)
    requires
        0 < chunk.len() <= 256,
        forall|i: int| 0 <= i < chunk.len() ==> #[trigger] chunk[i] < 256,
        pfor::encoded_chunk(chunk)[0] % 16 < 8,
    ensures
        ({
            let e = pfor::encoded_chunk(chunk);
            let w = (e[0] % 16 + e[0] / 16) as nat;
            &&& forall|i: int| 0 <= i < chunk.len() ==> #[trigger] chunk[i] >= e[2]
            &&& exists|i: int| 0 <= i < chunk.len() && #[trigger] chunk[i] == e[2]
            &&& forall|i: int| 0 <= i < chunk.len() ==> #[trigger] chunk[i] - e[2] < pow2(w)
            &&& w > 0 ==> exists|i: int|
                0 <= i < chunk.len() && #[trigger] chunk[i] - e[2] >= pow2((w - 1) as nat)
        }),
{
    let (b1, w) = lemma_chunk_shape(chunk);
    let e = pfor::encoded_chunk(chunk);
    let values = pfor::normalized(chunk);
    pfor::lemma_normalized(chunk);
    pfor::lemma_least(chunk);
    pfor::lemma_bits_needed(values);
    assert(e[0] % 16 + e[0] / 16 == w);
    assert forall|i: int| 0 <= i < chunk.len() implies #[trigger] chunk[i] - e[2] < pow2(w) by {
        assert(values[i] < pow2(w));
    }
    if w > 0 {
        pfor::lemma_bits_needed_tight(values);
        let i = choose|i: int|
            0 <= i < values.len() && #[trigger] values[i] >= pow2((w - 1) as nat);
        assert(chunk[i] - e[2] >= pow2((w - 1) as nat));
    }
}

/// The second byte of such a header counts the values that need more bits than
/// the primary array holds, and the chunk consists of the header, the primary
/// array, a byte for each of these values and their further bits.
pub proof fn encoded_chunk_len(chunk: Seq<u32>)
    requires
        0 < chunk.len() <= 256,
        forall|i: int| 0 <= i < chunk.len() ==> #[trigger] chunk[i] < 256,
        pfor::encoded_chunk(chunk)[0] % 16 < 8,
    ensures
        ({
            let e = pfor::encoded_chunk(chunk);
            let b1 = (e[0] % 16) as nat;
            let b2 = (e[0] / 16) as nat;
            &&& e[1] == chunk.filter(|v: u32| v - e[2] >= pow2(b1)).len()
            &&& e.len() == 3 + (chunk.len() * b1 + 7) / 8 + e[1] + (e[1] * b2 + 7) / 8
        }),
{
    let (b1, w) = lemma_chunk_shape(chunk);
    let e = pfor::encoded_chunk(chunk);
    let values = pfor::normalized(chunk);
    let n = chunk.len() as int;
    pfor::lemma_normalized(chunk);
    assert((e[0] % 16) as nat == b1);
    let g = |v: u32| v - e[2] >= pow2((e[0] % 16) as nat);
    let f = |i: int| values[i] >= pow2(b1);
    assert forall|i: int| 0 <= i < n implies #[trigger] f(i) == g(chunk[i]) by {
        assert(values[i] == chunk[i] - e[2]);
    }
    lemma_listed_count(chunk, f, g, n);
    assert(chunk.take(n) =~= chunk);
    assert(n * b1 >= 0) by (nonlinear_arith)
        requires
            n >= 0,
    ;
    assert(bit_packing::packed(b1, values).len() == (chunk.len() * b1 + 7) / 8);
    let offsets = pfor::exception_offsets(values, b1);
    let highs = pfor::exception_values(values, b1);
    assert(bit_packing::packed(8, offsets).len() == e[1]);
    assert(e[1] * (w - b1) >= 0) by (nonlinear_arith)
        requires
            b1 <= w,
            e[1] >= 0,
    ;
    assert(bit_packing::packed((w - b1) as nat, highs).len() == (e[1] * (w - b1) + 7) / 8);
}

/// Where the parts of a split chunk stand.
proof fn lemma_chunk_places(chunk: Seq<u32>)
    requires
        0 < chunk.len() <= 256,
        forall|i: int| 0 <= i < chunk.len() ==> #[trigger] chunk[i] < 256,
        pfor::encoded_chunk(chunk)[0] % 16 < 8,
    ensures
        ({
            let e = pfor::encoded_chunk(chunk);
            let b1 = (e[0] % 16) as nat;
            let b2 = (e[0] / 16) as nat;
            let values = pfor::normalized(chunk);
            let p = (chunk.len() * b1 + 7) / 8;
            let primary = bit_packing::packed(b1, values);
            let offsets = bit_packing::packed(8, pfor::exception_offsets(values, b1));
            let highs = bit_packing::packed(b2, pfor::exception_values(values, b1));
            &&& primary.len() == p
            &&& offsets.len() == e[1]
            &&& pfor::exceptions(values, b1).len() == e[1]
            &&& forall|j: int| 0 <= j < p ==> e[3 + j] == #[trigger] primary[j]
            &&& forall|j: int| 0 <= j < e[1] ==> e[3 + p + j] == #[trigger] offsets[j]
            &&& forall|j: int|
                0 <= j < highs.len() ==> e[3 + p + e[1] + j] == #[trigger] highs[j]
            &&& forall|i: int|
                0 <= i < chunk.len() ==> #[trigger] values[i] == chunk[i] - e[2] && values[i] < 256
        }),
{
    let (b1, w) = lemma_chunk_shape(chunk);
    let e = pfor::encoded_chunk(chunk);
    let values = pfor::normalized(chunk);
    pfor::lemma_normalized(chunk);
    assert((e[0] % 16) as nat == b1 && (e[0] / 16) as nat == w - b1);
    assert(chunk.len() * b1 >= 0) by (nonlinear_arith);
    let p = (chunk.len() * b1 + 7) / 8;
    let primary = bit_packing::packed(b1, values);
    let offsets = bit_packing::packed(8, pfor::exception_offsets(values, b1));
    let highs = bit_packing::packed((w - b1) as nat, pfor::exception_values(values, b1));
    assert(primary.len() == p && offsets.len() == e[1]);
    let head = seq![e[0], e[1], e[2]];
    lemma_four_parts(head, primary, offsets, highs);
}

/// Four parts are found one after the other.
proof fn lemma_four_parts(a: Seq<u8>, b: Seq<u8>, c: Seq<u8>, d: Seq<u8>)
    ensures
        forall|j: int| 0 <= j < b.len() ==> (a + b + c + d)[a.len() + j] == #[trigger] b[j],
        forall|j: int|
            0 <= j < c.len() ==> (a + b + c + d)[a.len() + b.len() + j] == #[trigger] c[j],
        forall|j: int|
            0 <= j < d.len() ==> (a + b + c + d)[a.len() + b.len() + c.len() + j]
                == #[trigger] d[j],
{
}

/// The primary array of an encoded chunk holds the low bits of every value above
/// the minimum, value after value, the most significant bit first, and zeros
/// after the last one.
pub proof fn encoded_chunk_primary(chunk: Seq<u32>, j: int)
    requires
        0 < chunk.len() <= 256,
        forall|i: int| 0 <= i < chunk.len() ==> #[trigger] chunk[i] < 256,
        pfor::encoded_chunk(chunk)[0] % 16 < 8,
        0 <= j < 8 * ((chunk.len() * (pfor::encoded_chunk(chunk)[0] % 16) as nat + 7) / 8),
    ensures
        ({
            let e = pfor::encoded_chunk(chunk);
            let b1 = (e[0] % 16) as int;
            ((e[3 + j / 8] >> (7 - j % 8)) & 1 == 1) <==> j < chunk.len() * b1 && (((chunk[j / b1]
                - e[2]) as u32) >> (b1 - 1 - j % b1)) & 1 == 1
        }),
{
    let e = pfor::encoded_chunk(chunk);
    let b1 = (e[0] % 16) as nat;
    let values = pfor::normalized(chunk);
    lemma_chunk_places(chunk);
    let primary = bit_packing::packed(b1, values);
    assert(e[3 + j / 8] == primary[j / 8]);
    packed_bits(b1, values, j);
    if j < chunk.len() * b1 {
        let i = j / b1 as int;
        assert(0 <= i < chunk.len()) by (nonlinear_arith)
            requires
                0 <= j < chunk.len() * b1,
                i == j / b1 as int,
                b1 > 0,
        ;
        assert(values[i] == chunk[i] - e[2]);
    }
}

/// After the primary array come the offsets of the values that need more bits,
/// in ascending order.
pub proof fn encoded_chunk_offsets(chunk: Seq<u32>, k: int)
    requires
        0 < chunk.len() <= 256,
        forall|i: int| 0 <= i < chunk.len() ==> #[trigger] chunk[i] < 256,
        pfor::encoded_chunk(chunk)[0] % 16 < 8,
        0 <= k < pfor::encoded_chunk(chunk)[1],
    ensures
        ({
            let e = pfor::encoded_chunk(chunk);
            let b1 = (e[0] % 16) as nat;
            let start = 3 + (chunk.len() * b1 + 7) / 8;
            &&& e[start + k] < chunk.len()
            &&& chunk[e[start + k] as int] - e[2] >= pow2(b1)
            &&& k > 0 ==> e[start + k - 1] < e[start + k]
        }),
{
    let e = pfor::encoded_chunk(chunk);
    let b1 = (e[0] % 16) as nat;
    let values = pfor::normalized(chunk);
    lemma_chunk_places(chunk);
    lemma_offset_at(chunk, k);
    let f = |i: int| values[i] >= pow2(b1);
    bits::lemma_indices_where(f, 0, values.len() as int);
    let idx = pfor::exceptions(values, b1);
    assert(f(idx[k]));
    assert(values[idx[k]] == chunk[idx[k]] - e[2]);
    if k > 0 {
        lemma_offset_at(chunk, k - 1);
        assert(idx[k - 1] < idx[k]);
    }
}

/// An offset as it is stored.
proof fn lemma_offset_at(chunk: Seq<u32>, k: int)
    requires
        0 < chunk.len() <= 256,
        forall|i: int| 0 <= i < chunk.len() ==> #[trigger] chunk[i] < 256,
        pfor::encoded_chunk(chunk)[0] % 16 < 8,
        0 <= k < pfor::encoded_chunk(chunk)[1],
    ensures
        ({
            let e = pfor::encoded_chunk(chunk);
            let b1 = (e[0] % 16) as nat;
            let start = 3 + (chunk.len() * b1 + 7) / 8;
            &&& e[start + k] == pfor::exceptions(pfor::normalized(chunk), b1)[k]
            &&& 0 <= pfor::exceptions(pfor::normalized(chunk), b1)[k] < chunk.len()
        }),
{
    let e = pfor::encoded_chunk(chunk);
    let b1 = (e[0] % 16) as nat;
    let values = pfor::normalized(chunk);
    lemma_chunk_places(chunk);
    let f = |i: int| values[i] >= pow2(b1);
    bits::lemma_indices_where(f, 0, values.len() as int);
    let idx = pfor::exceptions(values, b1);
    let offsets = pfor::exception_offsets(values, b1);
    packed_raw(offsets, k);
    assert(0 <= idx[k] < 256);
    assert(e[3 + (chunk.len() * b1 + 7) / 8 + k] == bit_packing::packed(8, offsets)[k]);
}

/// Bits above the low `b` ones are the bits of the quotient.
proof fn lemma_high_bit(v: u32, b: nat, u: nat)
    requires
        b + u < 32,
    ensures
        bits::bit_at(v as nat / pow2(b), u) == ((v >> (b + u)) & 1 == 1),
{
    lemma_pow2_adds(b, u);
    lemma_pow2_pos(b);
    lemma_pow2_pos(u);
    vstd::arithmetic::div_mod::lemma_div_denominator(v as int, pow2(b) as int, pow2(u) as int);
    bits::lemma_u32_bit(v, (b + u) as u32);
}

/// After the offsets come the further bits of these values, the most significant
/// first, and zeros after the last one.
pub proof fn encoded_chunk_exceptions(chunk: Seq<u32>, j: int)
    requires
        0 < chunk.len() <= 256,
        forall|i: int| 0 <= i < chunk.len() ==> #[trigger] chunk[i] < 256,
        pfor::encoded_chunk(chunk)[0] % 16 < 8,
        0 <= j < 8 * ((pfor::encoded_chunk(chunk)[1] * (pfor::encoded_chunk(chunk)[0] / 16) + 7)
            / 8),
    ensures
        ({
            let e = pfor::encoded_chunk(chunk);
            let b1 = (e[0] % 16) as int;
            let b2 = (e[0] / 16) as int;
            let start = 3 + (chunk.len() * b1 + 7) / 8;
            ((e[start + e[1] + j / 8] >> (7 - j % 8)) & 1 == 1) <==> j < e[1] * b2 && (((chunk[
            e[start + j / b2] as int] - e[2]) as u32) >> (b1 + b2 - 1 - j % b2)) & 1 == 1
        }),
{
    let e = pfor::encoded_chunk(chunk);
    let b1 = (e[0] % 16) as nat;
    let b2 = (e[0] / 16) as nat;
    let values = pfor::normalized(chunk);
    let (x, w) = lemma_chunk_shape(chunk);
    lemma_chunk_places(chunk);
    let highs = pfor::exception_values(values, b1);
    assert(b2 == w - b1);
    assert(e[1] * b2 >= 0) by (nonlinear_arith)
        requires
            e[1] >= 0,
    ;
    assert(bit_packing::packed(b2, highs).len() == (e[1] * b2 + 7) / 8);
    packed_bits(b2, highs, j);
    if j < e[1] * b2 {
        let k = j / b2 as int;
        let t = j % b2 as int;
        assert(b2 > 0) by {
            if b2 == 0 {
                assert(e[1] * b2 == 0) by (nonlinear_arith)
                    requires
                        b2 == 0,
                ;
            }
        }
        assert(0 <= k < e[1] && 0 <= t < b2) by (nonlinear_arith)
            requires
                0 <= j < e[1] * b2,
                k == j / b2 as int,
                t == j % b2 as int,
                b2 > 0,
        ;
        lemma_offset_at(chunk, k);
        let at = pfor::exceptions(values, b1)[k];
        let v = values[at];
        assert(v == chunk[at] - e[2]);
        let u = (b2 - 1 - t) as nat;
        lemma_high_bit(v, b1, u);
        bits::lemma_u32_bit(highs[k], u as u32);
        lemma_pow2_pos(b1);
        assert(v as nat / pow2(b1) <= v) by (nonlinear_arith)
            requires
                pow2(b1) > 0,
        ;
        assert(highs[k] == v as nat / pow2(b1));
    }
}

/// No other split of the bits makes a chunk smaller, and no larger primary array
/// makes it as small.
pub proof fn encoded_chunk_is_smallest(chunk: Seq<u32>, m: u32, w: nat, c: nat)
    requires
        0 < chunk.len() <= 256,
        forall|i: int| 0 <= i < chunk.len() ==> #[trigger] chunk[i] < 256,
        forall|i: int| 0 <= i < chunk.len() ==> m <= #[trigger] chunk[i] < m + pow2(w),
        exists|i: int| 0 <= i < chunk.len() && #[trigger] chunk[i] == m,
        w > 0 ==> exists|i: int|
            0 <= i < chunk.len() && #[trigger] chunk[i] >= m + pow2((w - 1) as nat),
        c <= w,
    ensures
        ({
            let e = pfor::encoded_chunk(chunk);
            let more = chunk.filter(|v: u32| v - m >= pow2(c)).len();
            let size = 3 + (chunk.len() * c + 7) / 8 + more + (more * (w - c) + 7) / 8;
            &&& e[0] % 16 <= w
            &&& e.len() <= size
            &&& c > e[0] % 16 ==> e.len() < size
        }),
{
    let (b1, width) = lemma_chunk_shape(chunk);
    let e = pfor::encoded_chunk(chunk);
    let values = pfor::normalized(chunk);
    let n = chunk.len() as int;
    pfor::lemma_normalized(chunk);
    pfor::lemma_least(chunk);
    pfor::lemma_bits_needed(values);
    assert(pfor::least(chunk) == m);
    if w > 0 {
        let i = choose|i: int|
            0 <= i < chunk.len() && #[trigger] chunk[i] >= m + pow2((w - 1) as nat);
        assert(values[i] >= pow2((w - 1) as nat));
    }
    lemma_same_width(values, w);
    let g = |v: u32| v - m >= pow2(c);
    let f = |i: int| values[i] >= pow2(c);
    assert forall|i: int| 0 <= i < n implies #[trigger] f(i) == g(chunk[i]) by {
        assert(values[i] == chunk[i] - m);
    }
    lemma_listed_count(chunk, f, g, n);
    assert(chunk.take(n) =~= chunk);
    assert(pfor::body_size(values, w, b1) <= pfor::body_size(values, w, c));
    if c > b1 {
        assert(pfor::body_size(values, w, b1) < pfor::body_size(values, w, c));
    }
    if b1 == 8 {
        encoded_chunk_raw(chunk);
        let none = |i: int| values[i] >= pow2(8);
        lemma2_to64();
        bits::lemma_indices_where_none(none, 0, n);
        assert(pfor::body_size(values, w, 8) == n);
    } else {
        encoded_chunk_len(chunk);
        lemma_chunk_places(chunk);
    }
}

/// The width that all values fit in, and one of them needs, is the least one.
proof fn lemma_same_width(values: Seq<u32>, w: nat)
    requires
        forall|i: int| 0 <= i < values.len() ==> #[trigger] values[i] < pow2(w),
        w > 0 ==> exists|i: int|
            0 <= i < values.len() && #[trigger] values[i] >= pow2((w - 1) as nat),
    ensures
        pfor::bits_needed(values) == w,
{
    let b = pfor::bits_needed(values);
    pfor::lemma_bits_needed(values);
    if b > w {
        pfor::lemma_bits_needed_tight(values);
        let i = choose|i: int|
            0 <= i < values.len() && #[trigger] values[i] >= pow2((b - 1) as nat);
        if w < b - 1 {
            lemma_pow2_strictly_increases(w, (b - 1) as nat);
        }
    } else if b < w {
        let i = choose|i: int|
            0 <= i < values.len() && #[trigger] values[i] >= pow2((w - 1) as nat);
        if b < w - 1 {
            lemma_pow2_strictly_increases(b, (w - 1) as nat);
        }
    }
}

/// How much of a byte string an encoded chunk takes, from its header: the primary
/// array, and where there are exceptions their offsets and further bits.
pub proof fn encoded_size_of_chunk(s: Seq<u8>, n: nat)
    requires
        0 < n <= 256,
    ensures
        s[1] == 0 ==> pfor::encoded_size(s, n) == 3 + (n * (s[0] % 16) as nat + 7) / 8,
        s[1] > 0 ==> pfor::encoded_size(s, n) == 3 + (n * (s[0] % 16) as nat + 7) / 8 + s[1] + (s[1]
            * (s[0] / 16) + 7) / 8,
        pfor::encoded_size(s, 0) == 0,
        pfor::decoded(s, 0) == Seq::<u32>::empty(),
{
    let size = pfor::chunk_size(s, n);
    assert(pfor::encoded_size(s.skip(size), 0) == 0);
}

/// A chunk can be read where its two widths are at most 8, all its parts are
/// there and its exceptions are at offsets of the chunk, and only there.
pub proof fn chunk_is_readable(s: Seq<u8>, n: nat)
    requires
        0 < n <= 256,
    ensures
        pfor::readable(s, 0),
        pfor::readable(s, n) <==> {
            let p = (n * (s[0] % 16) as nat + 7) / 8;
            &&& s.len() >= 3
            &&& s[0] % 16 <= 8
            &&& s[1] == 0 ==> 3 + p <= s.len()
            &&& s[1] > 0 ==> {
                &&& s[0] / 16 <= 8
                &&& 3 + p + s[1] + (s[1] * (s[0] / 16) + 7) / 8 <= s.len()
                &&& forall|k: int| 3 + p <= k < 3 + p + s[1] ==> #[trigger] s[k] < n
            }
        },
{
    let size = pfor::chunk_size(s, n);
    let p = (n * (s[0] % 16) as nat + 7) / 8;
    assert(pfor::readable(s.skip(size), 0));
    assert(n * (s[0] % 16) as nat >= 0) by (nonlinear_arith);
    if s[1] > 0 && s.len() >= 3 && s[0] % 16 <= 8 && 3 + p + s[1] <= s.len() {
        let part = s.subrange((3 + p) as int, 3 + p + s[1]);
        let offsets = pfor::chunk_offsets(s, n);
        assert forall|i: int| 0 <= i < s[1] implies #[trigger] offsets[i] == s[3 + p + i] by {
            bits::lemma_byte_in_stream(part, i);
        }
        if pfor::chunk_readable(s, n) {
            assert forall|k: int| 3 + p <= k < 3 + p + s[1] implies #[trigger] s[k] < n by {
                assert(offsets[k - (3 + p)] < n);
            }
        }
    }
    assert(s[1] * (s[0] / 16) >= 0) by (nonlinear_arith)
        requires
            s[1] >= 0,
            s[0] / 16 >= 0,
    ;
}

/// Bit `t` of a patched value is set where it is in the primary value or in the
/// high bits, shifted by `b1`, of an exception at its offset.
proof fn lemma_patched_bit(
    primary: Seq<u32>,
    offsets: Seq<u32>,
    highs: Seq<u32>,
    b1: u32,
    i: int,
    t: u32,
)
    requires
        b1 <= 8,
        t < 16,
        offsets.len() <= highs.len(),
        0 <= i < primary.len(),
        forall|k: int| 0 <= k < offsets.len() ==> #[trigger] offsets[k] < primary.len(),
        forall|k: int| 0 <= k < highs.len() ==> #[trigger] highs[k] < 256,
    ensures
        pfor::patched(primary, offsets, highs, b1).len() == primary.len(),
        (pfor::patched(primary, offsets, highs, b1)[i] >> t) & 1 == 1 <==> {
            ||| (primary[i] >> t) & 1 == 1
            ||| t >= b1 && exists|k: int|
                0 <= k < offsets.len() && #[trigger] offsets[k] == i && (highs[k] >> (t - b1)) & 1
                    == 1
        },
    decreases offsets.len(),
{
    if offsets.len() > 0 {
        let n = offsets.len() - 1;
        let shorter = offsets.drop_last();
        assert forall|k: int| 0 <= k < shorter.len() implies #[trigger] shorter[k]
            < primary.len() by {
            assert(shorter[k] == offsets[k]);
        }
        lemma_patched_bit(primary, shorter, highs, b1, i, t);
        let before = pfor::patched(primary, shorter, highs, b1)[i];
        let h = highs[n];
        assert(offsets[n] < primary.len());
        let after = before | (h << b1);
        assert((after >> t) & 1 == 1 <==> (before >> t) & 1 == 1 || (t >= b1 && (h >> ((t - b1) as u32))
            & 1 == 1)) by (bit_vector)
            requires
                after == before | (h << b1),
                b1 <= 8,
                t < 16,
                h < 256,
        ;
        if t >= b1 {
            if exists|k: int|
                0 <= k < shorter.len() && #[trigger] shorter[k] == i && (highs[k] >> (t - b1)) & 1
                    == 1 {
                let k = choose|k: int|
                    0 <= k < shorter.len() && #[trigger] shorter[k] == i && (highs[k] >> (t - b1))
                        & 1 == 1;
                assert(offsets[k] == i);
            }
            if exists|k: int|
                0 <= k < offsets.len() && #[trigger] offsets[k] == i && (highs[k] >> (t - b1)) & 1
                    == 1 {
                let k = choose|k: int|
                    0 <= k < offsets.len() && #[trigger] offsets[k] == i && (highs[k] >> (t - b1))
                        & 1 == 1;
                if k < n {
                    assert(shorter[k] == i);
                }
            }
        }
    }
}

/// A bit of an unpacked number, low bits counted from 0: it is read from the
/// bytes, and beyond the width there is none.
proof fn lemma_unpacked_bit(width: nat, bytes: Seq<u8>, count: nat, i: int, t: nat)
    requires
        width <= 8,
        count * width <= 8 * bytes.len(),
        0 <= i < count,
        t < 16,
    ensures
        bit_packing::unpacked(width, bytes, count)[i] < 256,
        (bit_packing::unpacked(width, bytes, count)[i] >> t) & 1 == 1 <==> t < width && (bytes[(i
            * width + width - 1 - t) / 8] >> (7 - (i * width + width - 1 - t) % 8)) & 1 == 1,
{
    let v = bit_packing::unpacked(width, bytes, count)[i];
    unpacked_has_no_other_bits(width, bytes, count, i);
    lemma2_to64();
    if width < 8 {
        lemma_pow2_strictly_increases(width, 8);
    }
    if t < width {
        unpacked_bits(width, bytes, count, i, width - 1 - t);
    } else {
        bits::lemma_u32_bit(v, t as u32);
        if width < t {
            lemma_pow2_strictly_increases(width, t);
        }
        vstd::arithmetic::div_mod::lemma_basic_div(v as int, pow2(t) as int);
    }
}

/// Bit `t` of the values of a chunk before its minimum is added.
proof fn lemma_normalized_bit(s: Seq<u8>, n: nat, i: int, t: u32)
    requires
        0 < n <= 256,
        pfor::chunk_readable(s, n),
        0 <= i < n,
        t < 16,
    ensures
        ({
            let b1 = (s[0] % 16) as int;
            let b2 = (s[0] / 16) as int;
            let first = 3 + (n * b1 + 7) / 8;
            let last = first + s[1];
            let v = pfor::chunk_normalized(s, n)[i];
            &&& v < 65536
            &&& (v >> t) & 1 == 1 <==> if t < b1 {
                (s[3 + (i * b1 + b1 - 1 - t) / 8] >> (7 - (i * b1 + b1 - 1 - t) % 8)) & 1 == 1
            } else {
                t < b1 + b2 && exists|k: int|
                    first <= k < last && #[trigger] s[k] == i && (s[last + ((k - first) * b2 + b2
                        - 1 - (t - b1)) / 8] >> (7 - ((k - first) * b2 + b2 - 1 - (t - b1)) % 8))
                        & 1 == 1
            }
        }),
{
    let b1 = (s[0] % 16) as nat;
    let b2 = (s[0] / 16) as nat;
    let e = s[1] as nat;
    assert(n * b1 >= 0 && e * b2 >= 0) by (nonlinear_arith);
    let first = 3 + (n * b1 + 7) / 8;
    let last = first + e;
    let body = s.subrange(3, first as int);
    let primary = pfor::chunk_primary(s, n);
    assert(pfor::exceptions_start(s, n) == first);
    lemma_unpacked_bit(b1, body, n, i, t as nat);
    if t < b1 {
        let j = i * b1 + b1 - 1 - t;
        assert(0 <= j < n * b1) by (nonlinear_arith)
            requires
                0 <= i < n,
                0 <= t < b1,
                j == i * b1 + b1 - 1 - t,
        ;
        assert(body[j / 8] == s[3 + j / 8]);
    }
    if e > 0 {
        let offset_bytes = s.subrange(first as int, last as int);
        let high_bytes = s.subrange(last as int, pfor::chunk_size(s, n));
        let offsets = pfor::chunk_offsets(s, n);
        let highs = pfor::chunk_highs(s, n);
        assert(high_bytes.len() == (e * b2 + 7) / 8);
        assert forall|k: int| 0 <= k < e implies #[trigger] highs[k] < 256 by {
            lemma_unpacked_bit(b2, high_bytes, e, k, 0);
        }
        assert forall|k: int| 0 <= k < e implies #[trigger] offsets[k] == s[first + k] by {
            bits::lemma_byte_in_stream(offset_bytes, k);
        }
        lemma_patched_bit(primary, offsets, highs, b1 as u32, i, t);
        assert forall|k: int| 0 <= k < n implies #[trigger] primary[k] < 256 by {
            lemma_unpacked_bit(b1, body, n, k, 0);
        }
        pfor::lemma_patched(primary, offsets, highs, b1 as u32);
        if t >= b1 {
            let u = (t - b1) as nat;
            assert forall|k: int| 0 <= k < e implies ((#[trigger] highs[k] >> u) & 1 == 1 <==> u
                < b2 && (s[last + (k * b2 + b2 - 1 - u) / 8] >> (7 - (k * b2 + b2 - 1 - u) % 8)) & 1
                == 1) by {
                lemma_unpacked_bit(b2, high_bytes, e, k, u);
                if u < b2 {
                    let j = k * b2 + b2 - 1 - u;
                    assert(0 <= j < e * b2) by (nonlinear_arith)
                        requires
                            0 <= k < e,
                            0 <= u < b2,
                            j == k * b2 + b2 - 1 - u,
                    ;
                    assert(high_bytes[j / 8] == s[last + j / 8]);
                }
            }
            lemma_found_either_way(s, offsets, highs, first as int, e as int, b2 as int, u as int, i);
        }
    } else {
        lemma_unpacked_bit(b1, body, n, i, t as nat);
    }
}

/// An exception at an offset is found in the list of offsets or in the bytes.
proof fn lemma_found_either_way(
    s: Seq<u8>,
    offsets: Seq<u32>,
    highs: Seq<u32>,
    first: int,
    e: int,
    b2: int,
    u: int,
    i: int,
)
    requires
        offsets.len() == e,
        forall|k: int| 0 <= k < e ==> #[trigger] offsets[k] == s[first + k],
        forall|k: int|
            0 <= k < e ==> ((#[trigger] highs[k] >> u) & 1 == 1 <==> u < b2 && (s[first + e + (k * b2
                + b2 - 1 - u) / 8] >> (7 - (k * b2 + b2 - 1 - u) % 8)) & 1 == 1),
    ensures
        (exists|k: int|
            0 <= k < offsets.len() && #[trigger] offsets[k] == i && (highs[k] >> u) & 1 == 1) == (u
            < b2 && exists|k: int|
            first <= k < first + e && #[trigger] s[k] == i && (s[first + e + ((k - first) * b2 + b2
                - 1 - u) / 8] >> (7 - ((k - first) * b2 + b2 - 1 - u) % 8)) & 1 == 1),
{
    if exists|k: int|
        0 <= k < offsets.len() && #[trigger] offsets[k] == i && (highs[k] >> u) & 1 == 1 {
        let k = choose|k: int|
            0 <= k < offsets.len() && #[trigger] offsets[k] == i && (highs[k] >> u) & 1 == 1;
        assert(s[first + k] == i);
        assert(first + k - first == k);
    }
    if exists|k: int|
        first <= k < first + e && #[trigger] s[k] == i && (s[first + e + ((k - first) * b2 + b2 - 1
            - u) / 8] >> (7 - ((k - first) * b2 + b2 - 1 - u) % 8)) & 1 == 1 {
        let k = choose|k: int|
            first <= k < first + e && #[trigger] s[k] == i && (s[first + e + ((k - first) * b2 + b2
                - 1 - u) / 8] >> (7 - ((k - first) * b2 + b2 - 1 - u) % 8)) & 1 == 1;
        assert(offsets[k - first] == s[first + (k - first)]);
        assert(highs[k - first] == highs[k - first]);
    }
}

/// What the values of a chunk are, read from its bytes: each is at least the
/// minimum, the third byte. Above the minimum, its low bits are its part of the
/// primary array, and a further bit is set where one of the exceptions at its
/// offset has it.
pub proof fn decoded_chunk_bits(s: Seq<u8>, n: nat, i: int, t: u32)
    requires
        0 < n <= 256,
        pfor::readable(s, n),
        0 <= i < n,
        t < 16,
    ensures
        ({
            let b1 = (s[0] % 16) as int;
            let b2 = (s[0] / 16) as int;
            let first = 3 + (n * b1 + 7) / 8;
            let last = first + s[1];
            let v = pfor::decoded(s, n)[i] - s[2];
            &&& pfor::decoded(s, n).len() == n
            &&& 0 <= v < 65536
            &&& ((v as u32) >> t) & 1 == 1 <==> if t < b1 {
                (s[3 + (i * b1 + b1 - 1 - t) / 8] >> (7 - (i * b1 + b1 - 1 - t) % 8)) & 1 == 1
            } else {
                t < b1 + b2 && exists|k: int|
                    first <= k < last && #[trigger] s[k] == i && (s[last + ((k - first) * b2 + b2
                        - 1 - (t - b1)) / 8] >> (7 - ((k - first) * b2 + b2 - 1 - (t - b1)) % 8))
                        & 1 == 1
            }
        }),
{
    lemma_normalized_bit(s, n, i, t);
    let size = pfor::chunk_size(s, n);
    assert(pfor::decoded(s.skip(size), 0) =~= Seq::<u32>::empty());
    assert(pfor::decoded(s, n) =~= pfor::chunk_values(s, n));
    assert(pfor::decoded(s, n)[i] == pfor::chunk_normalized(s, n)[i] + s[2]);
}

} // verus!
