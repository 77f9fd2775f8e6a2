//! Bit streams: sequences of bits read most significant first.
//!
//! Packed arrays and dense containers are both read as streams of bits, the
//! most significant bit of the first byte coming first. This module gives such
//! streams a mathematical meaning and relates them to machine words.

use vstd::arithmetic::div_mod::*;
use vstd::arithmetic::mul::*;
use vstd::arithmetic::power2::*;
use vstd::bits::*;
use vstd::prelude::*;

verus! {

/// A bit as a number.
pub open spec fn bit_value(b: bool) -> nat {
    if b {
        1
    } else {
        0
    }
}

/// Bit `i` of `x`, bit 0 being the least significant one.
pub open spec fn bit_at(x: nat, i: nat) -> bool {
    (x / pow2(i)) % 2 == 1
}

/// The number whose binary digits are the `n` bits of `f` from `start` on, the
/// first of them being the most significant digit.
pub open spec fn bits_value(f: spec_fn(int) -> bool, start: int, n: nat) -> nat
    decreases n,
{
    if n == 0 {
        0
    } else {
        2 * bits_value(f, start, (n - 1) as nat) + bit_value(f(start + n - 1))
    }
}

/// Bit `j` of a byte string: the most significant bit of byte 0 is bit 0.
pub open spec fn byte_bit(bytes: Seq<u8>, j: int) -> bool {
    bit_at(bytes[j / 8] as nat, (7 - j % 8) as nat)
}

/// The bit stream held by a byte string.
pub open spec fn byte_stream(bytes: Seq<u8>) -> spec_fn(int) -> bool {
    |j: int| byte_bit(bytes, j)
}

/// Number of bytes needed to hold `bits` bits.
pub open spec fn bytes_for(bits: int) -> int {
    (bits + 7) / 8
}

/// A number made of `n` bits is below `2^n`.
pub(crate) proof fn lemma_bits_value_bound(f: spec_fn(int) -> bool, start: int, n: nat)
    ensures
        bits_value(f, start, n) < pow2(n),
    decreases n,
{
    if n == 0 {
        lemma2_to64();
    } else {
        lemma_bits_value_bound(f, start, (n - 1) as nat);
        lemma_pow2_unfold(n);
    }
}

/// Reading `a + b` bits is reading `a` bits and then `b` bits.
pub(crate) proof fn lemma_bits_value_split(f: spec_fn(int) -> bool, start: int, a: nat, b: nat)
    ensures
        bits_value(f, start, a + b) == bits_value(f, start, a) * pow2(b) + bits_value(
            f,
            start + a,
            b,
        ),
    decreases b,
{
    if b == 0 {
        lemma2_to64();
        assert(bits_value(f, start, a) * 1 == bits_value(f, start, a));
    } else {
        let c = (b - 1) as nat;
        lemma_bits_value_split(f, start, a, c);
        lemma_pow2_unfold(b);
        let x = bits_value(f, start, a);
        assert((a + b - 1) as nat == a + c);
        assert(2 * (x * pow2(c)) == x * (2 * pow2(c))) by (nonlinear_arith);
    }
}

/// The bits `a..a + b` of a number of `a + b + c` bits.
pub(crate) proof fn lemma_bits_value_extract(
    f: spec_fn(int) -> bool,
    start: int,
    a: nat,
    b: nat,
    c: nat,
)
    ensures
        (bits_value(f, start, a + b + c) / pow2(c)) % pow2(b) == bits_value(f, start + a, b),
        bits_value(f, start, a + b + c) / pow2(c) == bits_value(f, start, a + b),
{
    lemma_bits_value_split(f, start, a + b, c);
    lemma_bits_value_split(f, start, a, b);
    lemma_bits_value_bound(f, start + a + b, c);
    lemma_bits_value_bound(f, start + a, b);
    lemma_pow2_pos(b);
    lemma_pow2_pos(c);
    let x = bits_value(f, start, a + b);
    let y = bits_value(f, start, a);
    lemma_fundamental_div_mod_converse(
        bits_value(f, start, a + b + c) as int,
        pow2(c) as int,
        x as int,
        bits_value(f, start + a + b, c) as int,
    );
    lemma_fundamental_div_mod_converse(
        x as int,
        pow2(b) as int,
        y as int,
        bits_value(f, start + a, b) as int,
    );
}

/// A number depends only on the bits that it is made of.
pub(crate) proof fn lemma_bits_value_congruence(
    f: spec_fn(int) -> bool,
    s: int,
    g: spec_fn(int) -> bool,
    t: int,
    n: nat,
)
    requires
        forall|i: int| 0 <= i < n ==> #[trigger] f(s + i) == g(t + i),
    ensures
        bits_value(f, s, n) == bits_value(g, t, n),
    decreases n,
{
    if n > 0 {
        lemma_bits_value_congruence(f, s, g, t, (n - 1) as nat);
        assert(f(s + (n - 1)) == g(t + (n - 1)));
    }
}

/// Bits that are all zero make zero.
proof fn lemma_bits_value_zero(f: spec_fn(int) -> bool, s: int, n: nat)
    requires
        forall|i: int| 0 <= i < n ==> !#[trigger] f(s + i),
    ensures
        bits_value(f, s, n) == 0,
    decreases n,
{
    if n > 0 {
        lemma_bits_value_zero(f, s, (n - 1) as nat);
        assert(!f(s + (n - 1)));
    }
}

/// Bit `i` of a number of `n` bits is the `i`-th bit from the end.
pub(crate) proof fn lemma_bit_of_bits_value(f: spec_fn(int) -> bool, s: int, n: nat, i: nat)
    requires
        i < n,
    ensures
        bit_at(bits_value(f, s, n), i) == f(s + n - 1 - i),
{
    let a = (n - 1 - i) as nat;
    lemma_bits_value_extract(f, s, a, 1, i);
    lemma2_to64();
    assert(a + 1 + i == n);
    assert(bits_value(f, s + a, 1) == bit_value(f(s + a))) by {
        reveal_with_fuel(bits_value, 2);
    }
}

/// Halving drops the last bit.
proof fn lemma_bit_at_half(x: nat, i: nat)
    ensures
        bit_at(x, i + 1) == bit_at(x / 2, i),
{
    lemma_pow2_unfold(i + 1);
    lemma_pow2_pos(i);
    lemma_div_denominator(x as int, 2, pow2(i) as int);
}

/// The last `n` binary digits of `x`, read as a stream, make `x mod 2^n`.
pub(crate) proof fn lemma_bits_value_of_digits(f: spec_fn(int) -> bool, s: int, x: nat, n: nat)
    requires
        forall|i: int| 0 <= i < n ==> #[trigger] f(s + i) == bit_at(x, (n - 1 - i) as nat),
    ensures
        bits_value(f, s, n) == x % pow2(n),
    decreases n,
{
    if n == 0 {
        lemma2_to64();
    } else {
        let m = (n - 1) as nat;
        assert forall|i: int| 0 <= i < m implies #[trigger] f(s + i) == bit_at(
            x / 2,
            (m - 1 - i) as nat,
        ) by {
            lemma_bit_at_half(x, (m - 1 - i) as nat);
            assert(((m - 1 - i) as nat) + 1 == (n - 1 - i) as nat);
        }
        lemma_bits_value_of_digits(f, s, x / 2, m);
        assert(f(s + m) == bit_at(x, 0));
        lemma2_to64();
        assert(x / 1 == x);
        lemma_pow2_unfold(n);
        lemma_pow2_pos(m);
        lemma_mod_breakdown(x as int, 2, pow2(m) as int);
        assert(x % pow2(n) == 2 * ((x / 2) % pow2(m)) + x % 2);
    }
}

/// A number followed by zero bits is that number shifted left.
pub(crate) proof fn lemma_bits_value_pad(
    f: spec_fn(int) -> bool,
    s: int,
    n: nat,
    g: spec_fn(int) -> bool,
    c: nat,
)
    requires
        forall|i: int| 0 <= i < n ==> #[trigger] f(s + i) == g(s + i),
        forall|i: int| n <= i < n + c ==> !#[trigger] g(s + i),
    ensures
        bits_value(g, s, n + c) == bits_value(f, s, n) * pow2(c),
{
    lemma_bits_value_split(g, s, n, c);
    lemma_bits_value_congruence(f, s, g, s, n);
    assert forall|i: int| 0 <= i < c implies !#[trigger] g((s + n) + i) by {
        assert(!g(s + (n + i)));
        assert(s + (n + i) == (s + n) + i);
    }
    lemma_bits_value_zero(g, s + n, c);
}

/// Writing bits below the low end of a word by `|` is adding them.
pub(crate) proof fn lemma_or_is_add(a: u64, q: nat, b: u64, t: u64)
    requires
        t < 64,
        a == q * pow2(t as nat),
        b < pow2(t as nat),
    ensures
        a | b == a + b,
{
    lemma_u64_shr_is_div(a, t);
    lemma_pow2_pos(t as nat);
    lemma_div_multiples_vanish(q as int, pow2(t as nat) as int);
    lemma_mul_is_commutative(q as int, pow2(t as nat) as int);
    lemma_u64_shl_is_mul(a >> t, t);
    lemma_u64_pow2_no_overflow(t as nat);
    lemma_u64_shl_is_mul(1, t);
    assert(a | b == a + b) by (bit_vector)
        requires
            t < 64,
            (a >> t) << t == a,
            b < 1u64 << t,
    ;
}

/// The mask of the low `w` bits keeps a number modulo `2^w`.
pub(crate) proof fn lemma_mask_is_mod(x: u64, w: u64)
    requires
        w < 64,
    ensures
        1u64 << w >= 1,
        x & (((1u64 << w) - 1) as u64) == x as nat % pow2(w as nat),
{
    lemma_u64_pow2_no_overflow(w as nat);
    lemma_u64_shl_is_mul(1, w);
    lemma_u64_low_bits_mask_is_mod(x, w as nat);
}

/// Narrowing to a byte keeps a number modulo 256.
pub(crate) proof fn lemma_low_byte(x: u64)
    ensures
        x as u8 == x as nat % pow2(8),
{
    lemma2_to64();
    assert(x as u8 == x % 256) by (bit_vector);
}

/// The eight bits of a byte make that byte.
pub(crate) proof fn lemma_byte_in_stream(bytes: Seq<u8>, k: int)
    requires
        0 <= k < bytes.len(),
    ensures
        bits_value(byte_stream(bytes), 8 * k, 8) == bytes[k],
{
    let f = byte_stream(bytes);
    assert forall|t: int| 0 <= t < 8 implies #[trigger] f(8 * k + t) == bit_at(
        bytes[k] as nat,
        (8 - 1 - t) as nat,
    ) by {
        assert((8 * k + t) / 8 == k && (8 * k + t) % 8 == t);
    }
    lemma_bits_value_of_digits(f, 8 * k, bytes[k] as nat, 8);
    lemma2_to64();
}

/// The indices in `lo..hi` at which `f` holds, in ascending order.
pub open spec fn indices_where(f: spec_fn(int) -> bool, lo: int, hi: int) -> Seq<int>
    decreases hi - lo,
{
    if hi <= lo {
        Seq::empty()
    } else if f(hi - 1) {
        indices_where(f, lo, hi - 1).push(hi - 1)
    } else {
        indices_where(f, lo, hi - 1)
    }
}

/// The indices are in range, satisfy `f` and ascend.
pub(crate) proof fn lemma_indices_where(f: spec_fn(int) -> bool, lo: int, hi: int)
    ensures
        forall|k: int|
            0 <= k < indices_where(f, lo, hi).len() ==> lo <= #[trigger] indices_where(f, lo, hi)[k]
                < hi && f(indices_where(f, lo, hi)[k]),
        forall|k: int, l: int|
            0 <= k < l < indices_where(f, lo, hi).len() ==> #[trigger] indices_where(f, lo, hi)[k]
                < #[trigger] indices_where(f, lo, hi)[l],
    decreases hi - lo,
{
    let all = indices_where(f, lo, hi);
    if lo < hi {
        lemma_indices_where(f, lo, hi - 1);
        let before = indices_where(f, lo, hi - 1);
        assert forall|k: int| 0 <= k < all.len() implies lo <= #[trigger] all[k] < hi && f(
            all[k],
        ) by {
            if k < before.len() {
                assert(all[k] == before[k]);
            }
        }
        assert forall|k: int, l: int| 0 <= k < l < all.len() implies #[trigger] all[k]
            < #[trigger] all[l] by {
            assert(all[k] == before[k]);
            if l < before.len() {
                assert(all[l] == before[l]);
            }
        }
    }
}

/// Every index in range that satisfies `f` is listed.
pub(crate) proof fn lemma_indices_where_contains(f: spec_fn(int) -> bool, lo: int, hi: int, i: int)
    requires
        lo <= i < hi,
        f(i),
    ensures
        indices_where(f, lo, hi).contains(i),
    decreases hi - lo,
{
    let all = indices_where(f, lo, hi);
    if i == hi - 1 {
        assert(all[all.len() - 1] == i);
    } else {
        lemma_indices_where_contains(f, lo, hi - 1, i);
        let before = indices_where(f, lo, hi - 1);
        let k = choose|k: int| 0 <= k < before.len() && before[k] == i;
        assert(all[k] == i);
    }
}

/// The list over a range is the list over a first part and then over the rest.
pub(crate) proof fn lemma_indices_where_split(f: spec_fn(int) -> bool, lo: int, mid: int, hi: int)
    requires
        lo <= mid <= hi,
    ensures
        indices_where(f, lo, hi) == indices_where(f, lo, mid) + indices_where(f, mid, hi),
    decreases hi - mid,
{
    if mid < hi {
        lemma_indices_where_split(f, lo, mid, hi - 1);
    }
    assert(indices_where(f, lo, hi) =~= indices_where(f, lo, mid) + indices_where(f, mid, hi));
}

/// The list depends only on what `f` says about the range.
pub(crate) proof fn lemma_indices_where_congruence(
    f: spec_fn(int) -> bool,
    g: spec_fn(int) -> bool,
    lo: int,
    hi: int,
)
    requires
        forall|i: int| lo <= i < hi ==> #[trigger] f(i) == g(i),
    ensures
        indices_where(f, lo, hi) == indices_where(g, lo, hi),
    decreases hi - lo,
{
    if lo < hi {
        lemma_indices_where_congruence(f, g, lo, hi - 1);
        assert(f(hi - 1) == g(hi - 1));
    }
}

/// There are at most as many indices as the range is long.
pub(crate) proof fn lemma_indices_where_len(f: spec_fn(int) -> bool, lo: int, hi: int)
    requires
        lo <= hi,
    ensures
        indices_where(f, lo, hi).len() <= hi - lo,
    decreases hi - lo,
{
    if lo < hi {
        lemma_indices_where_len(f, lo, hi - 1);
    }
}

/// Where nothing in the range satisfies `f`, nothing is listed.
pub(crate) proof fn lemma_indices_where_none(f: spec_fn(int) -> bool, lo: int, hi: int)
    requires
        forall|i: int| lo <= i < hi ==> !#[trigger] f(i),
    ensures
        indices_where(f, lo, hi) == Seq::<int>::empty(),
    decreases hi - lo,
{
    if lo < hi {
        lemma_indices_where_none(f, lo, hi - 1);
        assert(!f(hi - 1));
    }
}

/// Bits of a byte, by shifting.
pub(crate) proof fn lemma_u8_bit(x: u8, i: u8)
    requires
        i < 8,
    ensures
        bit_at(x as nat, i as nat) == ((x >> i) & 1 == 1),
{
    lemma_u8_shr_is_div(x, i);
    let y = x >> i;
    assert(y & 1 == y % 2) by (bit_vector);
}

/// Bits of a value, by shifting.
pub(crate) proof fn lemma_u32_bit(x: u32, i: u32)
    requires
        i < 32,
    ensures
        bit_at(x as nat, i as nat) == ((x >> i) & 1 == 1),
{
    lemma_u32_shr_is_div(x, i);
    let y = x >> i;
    assert(y & 1 == y % 2) by (bit_vector);
}

/// Bits of a word, by shifting.
proof fn lemma_u64_bit(x: u64, i: u64)
    requires
        i < 64,
    ensures
        bit_at(x as nat, i as nat) == ((x >> i) & 1 == 1),
{
    lemma_u64_shr_is_div(x, i);
    let y = x >> i;
    assert(y & 1 == y % 2) by (bit_vector);
}

/// Setting bit `s` of a byte sets that bit and no other.
pub(crate) proof fn lemma_u8_set_bit(x: u8, s: u8, i: u8)
    requires
        s < 8,
        i < 8,
    ensures
        bit_at((x | (1u8 << s)) as nat, i as nat) == (i == s || bit_at(x as nat, i as nat)),
{
    lemma_u8_bit(x, i);
    lemma_u8_bit(x | (1u8 << s), i);
    assert((((x | (1u8 << s)) >> i) & 1 == 1) == (i == s || (x >> i) & 1 == 1)) by (bit_vector)
        requires
            s < 8,
            i < 8,
    ;
}

/// Where the bit of a position is in a dense container.
pub(crate) proof fn lemma_position_split(pos: u8)
    ensures
        pos >> 3 == pos / 8,
        pos & 7 == pos % 8,
        pos / 8 < 32,
{
    assert(pos >> 3 == pos / 8) by (bit_vector);
    assert(pos & 7 == pos % 8) by (bit_vector);
}

/// One more index that satisfies `g` makes the list one longer.
pub(crate) proof fn lemma_indices_where_add(
    f: spec_fn(int) -> bool,
    g: spec_fn(int) -> bool,
    lo: int,
    p: int,
    hi: int,
)
    requires
        lo <= p < hi,
        !f(p),
        forall|i: int| lo <= i < hi ==> #[trigger] g(i) == (i == p || f(i)),
    ensures
        indices_where(g, lo, hi).len() == indices_where(f, lo, hi).len() + 1,
{
    lemma_indices_where_split(f, lo, p, hi);
    lemma_indices_where_split(f, p, p + 1, hi);
    lemma_indices_where_split(g, lo, p, hi);
    lemma_indices_where_split(g, p, p + 1, hi);
    lemma_indices_where_congruence(f, g, lo, p);
    lemma_indices_where_congruence(f, g, p + 1, hi);
    reveal_with_fuel(indices_where, 2);
    assert(g(p));
}

/// Zero has no bits.
pub(crate) proof fn lemma_zero_bit(i: nat)
    ensures
        !bit_at(0, i),
{
    lemma_pow2_pos(i);
    lemma_div_of0(pow2(i) as int);
}

/// Byte strings with the same bits are the same.
pub(crate) proof fn lemma_same_bits(a: Seq<u8>, b: Seq<u8>)
    requires
        a.len() == b.len(),
        forall|j: int| 0 <= j < 8 * a.len() ==> #[trigger] byte_bit(a, j) == byte_bit(b, j),
    ensures
        a == b,
{
    let f = byte_stream(a);
    let g = byte_stream(b);
    assert forall|k: int| 0 <= k < a.len() implies a[k] == b[k] by {
        lemma_byte_in_stream(a, k);
        lemma_byte_in_stream(b, k);
        lemma_bits_value_congruence(f, 8 * k, g, 8 * k, 8);
    }
    assert(a =~= b);
}

/// The list starts with the first index that satisfies `f`, and goes on with
/// what is listed once that index is taken out.
pub(crate) proof fn lemma_indices_where_first(
    f: spec_fn(int) -> bool,
    g: spec_fn(int) -> bool,
    lo: int,
    p: int,
    hi: int,
)
    requires
        lo <= p < hi,
        f(p),
        forall|i: int| lo <= i < p ==> !#[trigger] f(i),
        forall|i: int| lo <= i < hi ==> #[trigger] g(i) == (i != p && f(i)),
    ensures
        indices_where(f, lo, hi) == seq![p] + indices_where(g, lo, hi),
{
    lemma_indices_where_split(f, lo, p, hi);
    lemma_indices_where_split(f, p, p + 1, hi);
    lemma_indices_where_split(g, lo, p + 1, hi);
    lemma_indices_where_none(f, lo, p);
    lemma_indices_where_none(g, lo, p + 1);
    lemma_indices_where_congruence(f, g, p + 1, hi);
    reveal_with_fuel(indices_where, 2);
    assert(indices_where(f, p, p + 1) =~= seq![p]);
    assert(indices_where(f, lo, hi) =~= seq![p] + indices_where(g, lo, hi));
}

/// The first set bit of a byte, and the byte without it.
pub(crate) proof fn lemma_u8_first_bit(x: u8, zeros: u8, i: u8)
    requires
        x != 0,
        zeros == vstd::std_specs::bits::u8_leading_zeros(x),
        i < 8,
    ensures
        zeros < 8,
        bit_at(x as nat, (7 - zeros) as nat),
        i > 7 - zeros ==> !bit_at(x as nat, i as nat),
        bit_at((x & !(0x80u8 >> zeros)) as nat, i as nat) == (i != 7 - zeros && bit_at(
            x as nat,
            i as nat,
        )),
{
    vstd::std_specs::bits::axiom_u8_leading_zeros(x);
    let top = (7 - zeros) as u8;
    let y = x & !(0x80u8 >> zeros);
    lemma_u8_bit(x, top);
    lemma_u8_bit(x, i);
    lemma_u8_bit(y, i);
    assert((x >> top) & 1 != 0 ==> (x >> top) & 1 == 1) by (bit_vector);
    assert(((y >> i) & 1 == 1) == (i != 7 - zeros && (x >> i) & 1 == 1)) by (bit_vector)
        requires
            y == x & !(0x80u8 >> zeros),
            zeros < 8,
            i < 8,
    ;
}

/// The first set bit of a word, and the word without it.
pub(crate) proof fn lemma_u64_first_bit(x: u64, zeros: u64, i: u64)
    requires
        x != 0,
        zeros == vstd::std_specs::bits::u64_leading_zeros(x),
        i < 64,
    ensures
        zeros < 64,
        bit_at(x as nat, (63 - zeros) as nat),
        i > 63 - zeros ==> !bit_at(x as nat, i as nat),
        bit_at((x & !(1u64 << ((63 - zeros) as u64))) as nat, i as nat) == (i != 63 - zeros
            && bit_at(x as nat, i as nat)),
{
    vstd::std_specs::bits::axiom_u64_leading_zeros(x);
    let top = (63 - zeros) as u64;
    let y = x & !(1u64 << top);
    lemma_u64_bit(x, top);
    lemma_u64_bit(x, i);
    lemma_u64_bit(y, i);
    assert((x >> top) & 1 != 0 ==> (x >> top) & 1 == 1) by (bit_vector);
    assert(((y >> i) & 1 == 1) == (i != top && (x >> i) & 1 == 1)) by (bit_vector)
        requires
            y == x & !(1u64 << top),
            top < 64,
            i < 64,
    ;
}

} // verus!
