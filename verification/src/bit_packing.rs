//! Bit packing and unpacking for values of 0-8 bits.
//!
//! The least-significant bits of each value are packed with the first value
//! occupying the most significant bits of the output; output is padded to the
//! next byte boundary with zeros. For example, packing `[0b11, 0b10, 0b01]` at
//! width 2 produces `0b11100100`.
//!
//! Values of 1-7 bits are processed eight at a time: eight values of `width`
//! bits occupy exactly `width` bytes, so groups never straddle a byte boundary.

use crate::bits;
use vstd::arithmetic::div_mod::*;
use vstd::arithmetic::mul::*;
use vstd::arithmetic::power2::*;
use vstd::bits::*;
use vstd::prelude::*;

verus! {

/// Bit `j` of the stream made of the low `width` bits of each value, most
/// significant bit first. Past the last value the stream is all zeros.
pub open spec fn value_bit(width: nat, values: Seq<u32>, j: int) -> bool {
    0 <= j < values.len() * width && bits::bit_at(
        values[j / width as int] as nat,
        (width - 1 - j % width as int) as nat,
    )
}

/// The stream of the low `width` bits of each value.
pub open spec fn value_stream(width: nat, values: Seq<u32>) -> spec_fn(int) -> bool {
    |j: int| value_bit(width, values, j)
}

/// The bytes that hold the stream of the low `width` bits of each value, zero
/// padded to a whole number of bytes.
pub open spec fn packed(width: nat, values: Seq<u32>) -> Seq<u8> {
    Seq::new(
        bits::bytes_for((values.len() * width) as int) as nat,
        |k: int| bits::bits_value(value_stream(width, values), 8 * k, 8) as u8,
    )
}

/// The first `count` numbers of `width` bits that the stream of `bytes` holds.
pub open spec fn unpacked(width: nat, bytes: Seq<u8>, count: nat) -> Seq<u32> {
    Seq::new(count, |i: int| bits::bits_value(bits::byte_stream(bytes), i * width, width) as u32)
}

/// How many values `unpack` returns. At width 8 the values are the bytes
/// themselves, as many as there are.
pub open spec fn unpacked_count(width: nat, bytes: Seq<u8>, count: nat) -> nat {
    if width == 8 && bytes.len() < count {
        bytes.len()
    } else {
        count
    }
}

/// The low `width` bits of each value.
pub open spec fn masked(width: u32, values: Seq<u32>) -> Seq<u32> {
    values.map_values(|v: u32| v & ((1u32 << width) - 1) as u32)
}

/// Number of bytes needed to hold `bits` bits.
pub fn byte_width(bits: usize) -> (r: usize)
    ensures
        r == bits::bytes_for(bits as int),
        bits <= 8 * r < bits + 8,
{
    if bits % 8 == 0 {
        bits / 8
    } else {
        bits / 8 + 1
    }
}

/// The part of a packed stream that value `i` occupies holds that value's low
/// bits.
proof fn lemma_value_in_stream(width: nat, values: Seq<u32>, i: int)
    requires
        width > 0,
        0 <= i < values.len(),
    ensures
        bits::bits_value(value_stream(width, values), i * width, width) == values[i] as nat % pow2(
            width,
        ),
{
    let f = value_stream(width, values);
    assert forall|t: int| 0 <= t < width implies #[trigger] f(i * width + t) == bits::bit_at(
        values[i] as nat,
        (width - 1 - t) as nat,
    ) by {
        let j = i * width + t;
        lemma_fundamental_div_mod_converse(j, width as int, i, t);
        assert(i * width + width <= values.len() * width) by (nonlinear_arith)
            requires
                i + 1 <= values.len(),
        ;
        assert(0 <= i * width) by (nonlinear_arith)
            requires
                0 <= i,
        ;
    }
    bits::lemma_bits_value_of_digits(f, i * width, values[i] as nat, width);
}

/// Joins the low `W` bits of up to eight values into the top bits of a word of
/// `8 * W` bits. The first value occupies the most significant bits.
fn join_values<const W: usize>(values: &[u32], start: usize, len: usize) -> (word: u64)
    requires
        1 <= W <= 7,
        len <= 8,
        start + len <= values@.len(),
        len == 8 || start + len == values@.len(),
    ensures
        word == bits::bits_value(value_stream(W as nat, values@), start * W, 8 * W as nat),
{
    let total_bits: usize = 8 * W;
    proof {
        bits::lemma_mask_is_mod(0, W as u64);
    }
    let mask: u64 = (1u64 << W) - 1;
    let ghost f = value_stream(W as nat, values@);
    let ghost s = start * W;
    let mut word: u64 = 0;
    let mut i: usize = 0;
    assert(0 * pow2(total_bits as nat) == 0);
    while i < len
        invariant
            1 <= W <= 7,
            i <= len <= 8,
            start + len <= values.len(),
            total_bits == 8 * W,
            mask == ((1u64 << (W as u64)) - 1) as u64,
            f == value_stream(W as nat, values@),
            s == start * W,
            i * W <= total_bits,
            word == bits::bits_value(f, s, (i * W) as nat) * pow2((total_bits - i * W) as nat),
        decreases len - i,
    {
        assert(i * W + W == (i + 1) * W && (i + 1) * W <= 8 * W) by (nonlinear_arith)
            requires
                0 <= i < 8,
        ;
        let shift: usize = total_bits - (i + 1) * W;
        let low: u64 = values[start + i] as u64 & mask;
        proof {
            let done = bits::bits_value(f, s, (i * W) as nat);
            bits::lemma_mask_is_mod(values[start + i] as u64, W as u64);
            lemma_value_in_stream(W as nat, values@, start + i);
            assert((start + i) * W == s + i * W) by (nonlinear_arith)
                requires
                    s == start * W,
            ;
            bits::lemma_bits_value_split(f, s, (i * W) as nat, W as nat);
            lemma_pow2_adds(W as nat, shift as nat);
            lemma_pow2_pos(W as nat);
            lemma_pow2_pos(shift as nat);
            lemma_mod_bound(values[start + i] as int, pow2(W as nat) as int);
            let t = (total_bits - i * W) as nat;
            assert(low * pow2(shift as nat) < pow2(W as nat) * pow2(shift as nat))
                by (nonlinear_arith)
                requires
                    low < pow2(W as nat),
                    pow2(shift as nat) > 0,
            ;
            lemma2_to64();
            lemma2_to64_rest();
            if t < 63 {
                lemma_pow2_strictly_increases(t, 63);
            }
            lemma_u64_shl_is_mul(low, shift as u64);
            bits::lemma_or_is_add(word, done, low << shift, t as u64);
            assert(done * pow2(t) + low * pow2(shift as nat) == (done * pow2(W as nat) + low)
                * pow2(shift as nat)) by (nonlinear_arith)
                requires
                    pow2(t) == pow2(W as nat) * pow2(shift as nat),
            ;
        }
        word = word | (low << shift);
        i = i + 1;
    }
    proof {
        let n = (len * W) as nat;
        let c = (total_bits - len * W) as nat;
        assert forall|t: int| n <= t < n + c implies !#[trigger] f(s + t) by {
            assert(len < 8);
            assert(s + len * W == values@.len() * W) by (nonlinear_arith)
                requires
                    s == start * W,
                    start + len == values@.len(),
            ;
        }
        bits::lemma_bits_value_pad(f, s, n, f, c);
    }
    word
}

/// Appends the first `count` bytes of a word of `total_bits` bits, most
/// significant byte first.
fn push_bytes(word: u64, total_bits: usize, count: usize, out: &mut Vec<u8>)
    requires
        8 * count <= total_bits <= 64,
    ensures
        final(out)@ == old(out)@ + Seq::new(
            count as nat,
            |k: int| ((word as nat / pow2((total_bits - 8 - 8 * k) as nat)) % pow2(8)) as u8,
        ),
{
    let ghost all = Seq::new(
        count as nat,
        |k: int| ((word as nat / pow2((total_bits - 8 - 8 * k) as nat)) % pow2(8)) as u8,
    );
    let mut k: usize = 0;
    while k < count
        invariant
            k <= count,
            8 * count <= total_bits <= 64,
            all == Seq::new(
                count as nat,
                |k: int| ((word as nat / pow2((total_bits - 8 - 8 * k) as nat)) % pow2(8)) as u8,
            ),
            out@ == old(out)@ + all.take(k as int),
        decreases count - k,
    {
        let shift: usize = total_bits - 8 - 8 * k;
        proof {
            lemma_u64_shr_is_div(word, shift as u64);
            bits::lemma_low_byte(word >> shift);
        }
        out.push((word >> shift) as u8);
        proof {
            assert(all.take(k + 1) =~= all.take(k as int).push(all[k as int]));
        }
        k = k + 1;
    }
    proof {
        assert(all.take(count as int) =~= all);
    }
}

/// Packs a group of up to eight values that starts at a byte boundary.
fn pack_group<const W: usize>(values: &[u32], group: usize, len: usize, out: &mut Vec<u8>)
    requires
        1 <= W <= 7,
        len <= 8,
        8 * group + len <= values.len(),
        len == 8 || 8 * group + len == values.len(),
        bits::bytes_for(len * W) <= W,
    ensures
        final(out)@ == old(out)@ + packed(W as nat, values@).subrange(
            group * W,
            group * W + bits::bytes_for(len * W),
        ),
{
    assert(len * W <= 8 * W) by (nonlinear_arith)
        requires
            len <= 8,
    ;
    let word = join_values::<W>(values, 8 * group, len);
    let byte_count = byte_width(len * W);
    push_bytes(word, 8 * W, byte_count, out);
    proof {
        let f = value_stream(W as nat, values@);
        let all = packed(W as nat, values@);
        let s = (8 * group) * W;
        assert(s == 8 * (group * W)) by (nonlinear_arith)
            requires
                s == (8 * group) * W,
        ;
        assert((8 * group + len) * W == s + len * W) by (nonlinear_arith)
            requires
                s == (8 * group) * W,
        ;
        assert((8 * group + len) * W <= values@.len() * W) by (nonlinear_arith)
            requires
                8 * group + len <= values@.len(),
        ;
        assert(group * W + byte_count <= all.len());
        assert(0 <= group * W);
        let part = all.subrange(group * W, group * W + byte_count);
        let pushed = Seq::new(
            byte_count as nat,
            |k: int| ((word as nat / pow2((8 * W - 8 - 8 * k) as nat)) % pow2(8)) as u8,
        );
        assert forall|k: int| 0 <= k < byte_count implies pushed[k] == part[k] by {
            bits::lemma_bits_value_extract(f, s, (8 * k) as nat, 8, (8 * W - 8 - 8 * k) as nat);
        }
        assert(pushed =~= part);
    }
}

/// Packs values at a compile-time-known width `W` (1-7), eight values per group
/// into exactly `W` bytes. The first value of each group occupies the most
/// significant bits.
pub(crate) fn pack_width<const W: usize>(values: &[u32], out: &mut Vec<u8>)
    requires
        1 <= W <= 7,
    ensures
        final(out)@ == old(out)@ + packed(W as nat, values@),
{
    let groups: usize = values.len() / 8;
    let rest: usize = values.len() % 8;
    let ghost all = packed(W as nat, values@);
    let mut g: usize = 0;
    proof {
        assert(all.take(0) =~= Seq::<u8>::empty());
        assert(old(out)@ + all.take(0) =~= old(out)@);
        assert(values@.len() * W == 8 * (groups * W) + rest * W) by (nonlinear_arith)
            requires
                values@.len() == 8 * groups + rest,
        ;
    }
    while g < groups
        invariant
            1 <= W <= 7,
            g <= groups,
            8 * groups <= values.len(),
            all == packed(W as nat, values@),
            all.len() >= groups * W,
            g * W <= groups * W,
            0 <= g * W,
            out@ == old(out)@ + all.take(g * W),
        decreases groups - g,
    {
        assert(g * W + W == (g + 1) * W && (g + 1) * W <= groups * W) by (nonlinear_arith)
            requires
                0 <= g < groups,
        ;
        pack_group::<W>(values, g, 8, out);
        assert(all.take(g * W) + all.subrange(g * W, g * W + W) =~= all.take((g + 1) * W));
        g = g + 1;
    }
    if rest > 0 {
        assert(rest * W <= 7 * W) by (nonlinear_arith)
            requires
                rest <= 7,
        ;
        pack_group::<W>(values, groups, rest, out);
        assert(all.take(groups * W) + all.subrange(groups * W, all.len() as int) =~= all);
    } else {
        assert(all.take(groups * W) =~= all);
    }
}

/// Loads `count` bytes from `pos` on into the top bits of a word of `8 * W`
/// bits, most significant byte first.
fn load_bytes<const W: usize>(bytes: &[u8], pos: usize, count: usize) -> (word: u64)
    requires
        1 <= W <= 7,
        count <= W,
        pos + count <= bytes.len(),
    ensures
        word == bits::bits_value(bits::byte_stream(bytes@), 8 * pos, 8 * count as nat) * pow2(
            (8 * W - 8 * count) as nat,
        ),
{
    let total_bits: usize = 8 * W;
    let ghost f = bits::byte_stream(bytes@);
    let ghost s = 8 * pos as int;
    let mut word: u64 = 0;
    let mut k: usize = 0;
    assert(0 * pow2(total_bits as nat) == 0);
    while k < count
        invariant
            1 <= W <= 7,
            k <= count <= W,
            pos + count <= bytes.len(),
            total_bits == 8 * W,
            f == bits::byte_stream(bytes@),
            s == 8 * pos,
            word == bits::bits_value(f, s, (8 * k) as nat) * pow2((total_bits - 8 * k) as nat),
        decreases count - k,
    {
        let shift: usize = total_bits - 8 - 8 * k;
        let byte: u64 = bytes[pos + k] as u64;
        proof {
            let done = bits::bits_value(f, s, (8 * k) as nat);
            let t = (total_bits - 8 * k) as nat;
            bits::lemma_byte_in_stream(bytes@, pos + k);
            bits::lemma_bits_value_split(f, s, (8 * k) as nat, 8);
            lemma_pow2_adds(8, shift as nat);
            lemma_pow2_pos(shift as nat);
            lemma2_to64();
            lemma2_to64_rest();
            assert(byte * pow2(shift as nat) < 256 * pow2(shift as nat)) by (nonlinear_arith)
                requires
                    byte < 256,
                    pow2(shift as nat) > 0,
            ;
            if t < 63 {
                lemma_pow2_strictly_increases(t, 63);
            }
            lemma_u64_shl_is_mul(byte, shift as u64);
            bits::lemma_or_is_add(word, done, byte << shift, t as u64);
            assert(done * pow2(t) + byte * pow2(shift as nat) == (done * 256 + byte) * pow2(
                shift as nat,
            )) by (nonlinear_arith)
                requires
                    pow2(t) == 256 * pow2(shift as nat),
            ;
        }
        word = word | (byte << shift);
        k = k + 1;
    }
    word
}

/// Unpacks a group of up to eight values that starts at a byte boundary.
fn unpack_group<const W: usize>(bytes: &[u8], group: usize, len: usize, out: &mut Vec<u32>)
    requires
        1 <= W <= 7,
        len <= 8,
        group * W + bits::bytes_for(len * W) <= bytes.len(),
        bits::bytes_for(len * W) <= W,
    ensures
        final(out)@ == old(out)@ + unpacked(W as nat, bytes@, (8 * group + len) as nat).skip(
            8 * group,
        ),
{
    let total_bits: usize = 8 * W;
    proof {
        assert(len * W <= 8 * W) by (nonlinear_arith)
            requires
                len <= 8,
        ;
        assert(0 <= group * W) by (nonlinear_arith);
        bits::lemma_mask_is_mod(0, W as u64);
    }
    let pos: usize = group * W;
    let mask: u64 = (1u64 << W) - 1;
    let byte_count = byte_width(len * W);
    let word = load_bytes::<W>(bytes, pos, byte_count);
    let ghost f = bits::byte_stream(bytes@);
    let ghost s = 8 * pos as int;
    let ghost g = |j: int| j < s + 8 * byte_count && f(j);
    proof {
        bits::lemma_bits_value_pad(
            f,
            s,
            (8 * byte_count) as nat,
            g,
            (total_bits - 8 * byte_count) as nat,
        );
    }
    let ghost all = unpacked(W as nat, bytes@, (8 * group + len) as nat).skip(8 * group);
    let mut i: usize = 0;
    assert(old(out)@ + all.take(0) =~= old(out)@);
    while i < len
        invariant
            1 <= W <= 7,
            i <= len <= 8,
            len * W <= 8 * byte_count <= 8 * W,
            total_bits == 8 * W,
            mask == ((1u64 << (W as u64)) - 1) as u64,
            pos == group * W,
            s == 8 * pos,
            f == bits::byte_stream(bytes@),
            g == (|j: int| j < s + 8 * byte_count && f(j)),
            word == bits::bits_value(g, s, total_bits as nat),
            all == unpacked(W as nat, bytes@, (8 * group + len) as nat).skip(8 * group),
            out@ == old(out)@ + all.take(i as int),
        decreases len - i,
    {
        assert(i * W + W == (i + 1) * W && (i + 1) * W <= len * W) by (nonlinear_arith)
            requires
                0 <= i < len,
        ;
        assert(0 <= i * W) by (nonlinear_arith);
        let shift: usize = total_bits - (i + 1) * W;
        let value: u64 = (word >> shift) & mask;
        proof {
            lemma_u64_shr_is_div(word, shift as u64);
            bits::lemma_mask_is_mod(word >> shift, W as u64);
            bits::lemma_bits_value_extract(g, s, (i * W) as nat, W as nat, shift as nat);
            assert((8 * group + i) * W == s + i * W) by (nonlinear_arith)
                requires
                    s == 8 * (group * W),
            ;
            bits::lemma_bits_value_congruence(g, s + i * W, f, s + i * W, W as nat);
            bits::lemma_bits_value_bound(f, s + i * W, W as nat);
            lemma2_to64();
            assert(pow2(W as nat) <= 128) by {
                if W < 7 {
                    lemma_pow2_strictly_increases(W as nat, 7);
                }
            }
        }
        out.push(value as u32);
        proof {
            assert(all[i as int] == value as u32);
            assert(all.take(i + 1) =~= all.take(i as int).push(all[i as int]));
        }
        i = i + 1;
    }
    assert(all.take(len as int) =~= all);
}

/// Unpacks `count` values at a compile-time-known width `W` (1-7). The inverse
/// of [`pack_width`].
pub(crate) fn unpack_width<const W: usize>(bytes: &[u8], count: usize, out: &mut Vec<u32>)
    requires
        1 <= W <= 7,
        bits::bytes_for(count * W) <= bytes.len(),
    ensures
        final(out)@ == old(out)@ + unpacked(W as nat, bytes@, count as nat),
        forall|values: Seq<u32>|
            values.len() == count && bytes@ == #[trigger] packed(W as nat, values) ==> final(out)@
                == old(out)@ + masked(W as u32, values),
{
    let groups: usize = count / 8;
    let rest: usize = count % 8;
    let ghost all = unpacked(W as nat, bytes@, count as nat);
    proof {
        assert(old(out)@ + all.take(0) =~= old(out)@);
        assert(count * W == 8 * (groups * W) + rest * W) by (nonlinear_arith)
            requires
                count == 8 * groups + rest,
        ;
        assert(rest * W >= 0) by (nonlinear_arith);
    }
    let mut g: usize = 0;
    while g < groups
        invariant
            1 <= W <= 7,
            g <= groups,
            8 * groups <= count,
            groups * W <= bytes.len(),
            all == unpacked(W as nat, bytes@, count as nat),
            out@ == old(out)@ + all.take(8 * g),
        decreases groups - g,
    {
        assert(g * W + W == (g + 1) * W && (g + 1) * W <= groups * W) by (nonlinear_arith)
            requires
                0 <= g < groups,
        ;
        unpack_group::<W>(bytes, g, 8, out);
        proof {
            let part = unpacked(W as nat, bytes@, (8 * g + 8) as nat).skip(8 * g as int);
            assert(all.take(8 * g) + part =~= all.take(8 * (g + 1)));
        }
        g = g + 1;
    }
    if rest > 0 {
        assert(rest * W <= 7 * W) by (nonlinear_arith)
            requires
                rest <= 7,
        ;
        unpack_group::<W>(bytes, groups, rest, out);
        proof {
            let part = unpacked(W as nat, bytes@, count as nat).skip(8 * groups as int);
            assert(all.take(8 * groups) + part =~= all);
        }
    } else {
        assert(all.take(8 * groups) =~= all);
    }
    proof {
        assert forall|values: Seq<u32>|
            values.len() == count && bytes@ == #[trigger] packed(W as nat, values) implies out@
            == old(out)@ + masked(W as u32, values) by {
            unpacking_appends_masked_values(W as u32, values, old(out)@);
        }
    }
}

/// Packs the low `width` bits of each value, MSB-first, padding the final byte
/// with zeros. A width of 0 emits nothing; a width of 8 copies raw bytes.
pub fn pack(width: u32, values: &[u32], out: &mut Vec<u8>)
    requires
        width <= 8,
    ensures
        final(out)@ == old(out)@ + packed(width as nat, values@),
{
    match width {
        0 => {
            assert(old(out)@ + packed(0, values@) =~= old(out)@);
        },
        1 => pack_width::<1>(values, out),
        2 => pack_width::<2>(values, out),
        3 => pack_width::<3>(values, out),
        4 => pack_width::<4>(values, out),
        5 => pack_width::<5>(values, out),
        6 => pack_width::<6>(values, out),
        7 => pack_width::<7>(values, out),
        _ => pack_raw(values, out),
    }
}

/// Appends the low byte of each value.
fn pack_raw(values: &[u32], out: &mut Vec<u8>)
    ensures
        final(out)@ == old(out)@ + packed(8, values@),
{
    let ghost all = packed(8, values@);
    assert(old(out)@ + all.take(0) =~= old(out)@);
    let mut i: usize = 0;
    while i < values.len()
        invariant
            i <= values.len(),
            all == packed(8, values@),
            out@ == old(out)@ + all.take(i as int),
        decreases values.len() - i,
    {
        proof {
            bits::lemma_low_byte(values[i as int] as u64);
            lemma_value_in_stream(8, values@, i as int);
        }
        out.push(values[i] as u8);
        assert(all.take(i + 1) =~= all.take(i as int).push(all[i as int]));
        i = i + 1;
    }
    assert(all.take(values.len() as int) =~= all);
}

/// Appends the first `count` bytes as values, as many as there are.
fn unpack_raw(bytes: &[u8], count: usize, out: &mut Vec<u32>)
    ensures
        final(out)@ == old(out)@ + unpacked(8, bytes@, unpacked_count(8, bytes@, count as nat)),
{
    let len: usize = if bytes.len() < count {
        bytes.len()
    } else {
        count
    };
    let ghost all = unpacked(8, bytes@, len as nat);
    assert(old(out)@ + all.take(0) =~= old(out)@);
    let mut i: usize = 0;
    while i < len
        invariant
            i <= len <= bytes.len(),
            all == unpacked(8, bytes@, len as nat),
            out@ == old(out)@ + all.take(i as int),
        decreases len - i,
    {
        proof {
            bits::lemma_byte_in_stream(bytes@, i as int);
        }
        out.push(bytes[i] as u32);
        assert(all.take(i + 1) =~= all.take(i as int).push(all[i as int]));
        i = i + 1;
    }
    assert(all.take(len as int) =~= all);
}

/// Unpacks `count` values of `width` bits each from `bytes`. Unused bits in the
/// final byte are ignored.
pub fn unpack(width: u32, bytes: &[u8], count: usize) -> (values: Vec<u32>)
    requires
        width <= 8,
        width < 8 ==> bits::bytes_for(count * width) <= bytes.len(),
    ensures
        values@ == unpacked(
            width as nat,
            bytes@,
            unpacked_count(width as nat, bytes@, count as nat),
        ),
        values@.len() == if width == 8 && bytes@.len() < count {
            bytes@.len()
        } else {
            count as nat
        },
{
    let mut values: Vec<u32> = Vec::with_capacity(count);
    match width {
        0 => {
            values.resize(count, 0);
            assert(values@ =~= unpacked(0, bytes@, count as nat));
        },
        1 => unpack_width::<1>(bytes, count, &mut values),
        2 => unpack_width::<2>(bytes, count, &mut values),
        3 => unpack_width::<3>(bytes, count, &mut values),
        4 => unpack_width::<4>(bytes, count, &mut values),
        5 => unpack_width::<5>(bytes, count, &mut values),
        6 => unpack_width::<6>(bytes, count, &mut values),
        7 => unpack_width::<7>(bytes, count, &mut values),
        _ => unpack_raw(bytes, count, &mut values),
    }
    assert(values@ =~= unpacked(
        width as nat,
        bytes@,
        unpacked_count(width as nat, bytes@, count as nat),
    ));
    values
}

/// The stream of the packed bytes is the stream of the values, zero padded.
pub proof fn packed_stream_is_value_stream(width: nat, values: Seq<u32>, j: int)
    requires
        0 <= j < 8 * packed(width, values).len(),
    ensures
        bits::byte_bit(packed(width, values), j) == value_bit(width, values, j),
{
    let f = value_stream(width, values);
    let k = j / 8;
    let t = j % 8;
    bits::lemma_bits_value_bound(f, 8 * k, 8);
    lemma2_to64();
    bits::lemma_bit_of_bits_value(f, 8 * k, 8, (7 - t) as nat);
}

/// Unpacking what was packed gives the low `width` bits of every value back.
pub proof fn unpack_undoes_pack(width: nat, values: Seq<u32>)
    requires
        width <= 8,
    ensures
        unpacked(width, packed(width, values), values.len()) == Seq::new(
            values.len(),
            |i: int| (values[i] as nat % pow2(width)) as u32,
        ),
{
    let bytes = packed(width, values);
    let f = bits::byte_stream(bytes);
    let g = value_stream(width, values);
    assert forall|i: int| 0 <= i < values.len() implies bits::bits_value(f, i * width, width)
        == values[i] as nat % pow2(width) by {
        if width == 0 {
            lemma2_to64();
        } else {
            assert(0 <= i * width && i * width + width <= values.len() * width) by (nonlinear_arith)
                requires
                    0 <= i < values.len(),
            ;
            assert forall|t: int| 0 <= t < width implies #[trigger] f(i * width + t) == g(
                i * width + t,
            ) by {
                packed_stream_is_value_stream(width, values, i * width + t);
            }
            bits::lemma_bits_value_congruence(f, i * width, g, i * width, width);
            lemma_value_in_stream(width, values, i);
        }
    }
    assert(unpacked(width, bytes, values.len()) =~= Seq::new(
        values.len(),
        |i: int| (values[i] as nat % pow2(width)) as u32,
    ));
}

/// Values that fit in `width` bits are unpacked as they were packed.
pub proof fn unpack_returns_fitting_values(width: nat, values: Seq<u32>)
    requires
        width <= 8,
        forall|i: int| 0 <= i < values.len() ==> #[trigger] values[i] < pow2(width),
    ensures
        unpacked(width, packed(width, values), values.len()) == values,
{
    unpack_undoes_pack(width, values);
    assert forall|i: int| 0 <= i < values.len() implies (values[i] as nat % pow2(width)) as u32
        == values[i] by {
        lemma_small_mod(values[i] as nat, pow2(width));
    }
    assert(unpacked(width, packed(width, values), values.len()) =~= values);
}

/// Unpacking reads the first `count * width` bits and nothing else: unused bits
/// of the final byte, and bytes after it, do not matter.
pub proof fn unpack_ignores_unused_bits(width: nat, a: Seq<u8>, b: Seq<u8>, count: nat)
    requires
        forall|j: int|
            0 <= j < count * width ==> #[trigger] bits::byte_bit(a, j) == bits::byte_bit(b, j),
    ensures
        unpacked(width, a, count) == unpacked(width, b, count),
{
    let f = bits::byte_stream(a);
    let g = bits::byte_stream(b);
    assert forall|i: int| 0 <= i < count implies #[trigger] unpacked(width, a, count)[i]
        == unpacked(width, b, count)[i] by {
        assert(0 <= i * width && i * width + width <= count * width) by (nonlinear_arith)
            requires
                0 <= i < count,
        ;
        bits::lemma_bits_value_congruence(f, i * width, g, i * width, width);
    }
    assert(unpacked(width, a, count) =~= unpacked(width, b, count));
}

/// Every unpacked value fits in `width` bits.
pub proof fn unpacked_values_fit(width: nat, bytes: Seq<u8>, count: nat, i: int)
    requires
        width <= 8,
        0 <= i < count,
    ensures
        unpacked(width, bytes, count)[i] < pow2(width),
{
    bits::lemma_bits_value_bound(bits::byte_stream(bytes), i * width, width);
    lemma2_to64();
    if width < 8 {
        lemma_pow2_strictly_increases(width, 8);
    }
}

/// Unpacking at widths 1 to 7 what was packed at that width appends the low bits
/// of every value, as masking gives them, to what was unpacked before.
pub proof fn unpacking_appends_masked_values(width: u32, values: Seq<u32>, before: Seq<u32>)
    requires
        1 <= width <= 7,
    ensures
        bits::bytes_for((values.len() * width) as int) == packed(width as nat, values).len(),
        before + unpacked(width as nat, packed(width as nat, values), values.len()) == before
            + masked(width, values),
{
    unpack_undoes_pack(width as nat, values);
    let low = masked(width, values);
    assert forall|i: int| 0 <= i < values.len() implies low[i] == values[i] as nat % pow2(
        width as nat,
    ) by {
        let v = values[i];
        bits::lemma_mask_is_mod(v as u64, width as u64);
        assert((v as u64) & (((1u64 << (width as u64)) - 1) as u64) == v & (((1u32 << width)
            - 1) as u32)) by (bit_vector)
            requires
                1 <= width <= 7,
        ;
    }
    assert(unpacked(width as nat, packed(width as nat, values), values.len()) =~= low);
}

} // verus!
