//! The payload of a single container.

use crate::bits;
use crate::model;
use vstd::prelude::*;

verus! {

/// The payload of a single 256-bit container.
#[derive(Debug)]
pub(crate) enum Store {
    /// Sorted set positions (0-255), fewer than 32 of them.
    Sparse(Vec<u8>),
    /// A 32-byte bitset, most significant bit first: the MSB of byte 0 is
    /// position 0, the LSB of byte 31 is position 255. This is identical to the
    /// serialized form, so decode and encode are plain copies.
    Dense(Box<[u8; 32]>),
}

impl Store {
    /// What the container represents.
    pub(crate) open spec fn payload(&self) -> model::Payload {
        match self {
            Store::Sparse(positions) => model::Payload::Sparse(positions@),
            Store::Dense(bytes) => model::Payload::Dense(bytes@),
        }
    }
}

/// Looks for a position by bisection. Where it is absent from a sorted list, the
/// error holds the index at which it belongs.
pub(crate) fn search(positions: &[u8], pos: u8) -> (r: Result<usize, usize>)
    ensures
        match r {
            Ok(i) => i < positions@.len() && positions@[i as int] == pos,
            Err(i) => {
                &&& i <= positions@.len()
                &&& model::nondescending(positions@) ==> {
                    &&& forall|j: int| 0 <= j < i ==> #[trigger] positions@[j] < pos
                    &&& forall|j: int| i <= j < positions@.len() ==> #[trigger] positions@[j] > pos
                }
            },
        },
{
    let mut lo: usize = 0;
    let mut hi: usize = positions.len();
    while lo < hi
        invariant
            lo <= hi <= positions.len(),
            model::nondescending(positions@) ==> {
                &&& forall|j: int| 0 <= j < lo ==> #[trigger] positions@[j] < pos
                &&& forall|j: int| hi <= j < positions@.len() ==> #[trigger] positions@[j] > pos
            },
        decreases hi - lo,
    {
        let mid: usize = lo + (hi - lo) / 2;
        let found: u8 = positions[mid];
        if found == pos {
            return Ok(mid);
        } else if found < pos {
            lo = mid + 1;
        } else {
            hi = mid;
        }
    }
    Err(lo)
}

/// Sets the bit of a position.
fn set_dense_bit(bytes: &mut [u8; 32], pos: u8)
    ensures
        forall|p: int|
            0 <= p < 256 ==> #[trigger] bits::byte_bit(final(bytes)@, p) == (p == pos
                || bits::byte_bit(old(bytes)@, p)),
{
    proof {
        bits::lemma_position_split(pos);
    }
    let byte_index: usize = (pos >> 3) as usize;
    let bit_shift: u8 = 7 - (pos & 0b111);
    bytes[byte_index] = bytes[byte_index] | (1u8 << bit_shift);
    proof {
        assert forall|p: int| 0 <= p < 256 implies #[trigger] bits::byte_bit(bytes@, p) == (p == pos
            || bits::byte_bit(old(bytes)@, p)) by {
            if p / 8 == byte_index {
                bits::lemma_u8_set_bit(
                    old(bytes)@[byte_index as int],
                    bit_shift,
                    (7 - p % 8) as u8,
                );
            }
        }
    }
}

/// Returns `true` if the bit of a position is set.
fn self_dense_contains(bytes: &[u8; 32], pos: u8) -> (r: bool)
    ensures
        r == bits::byte_bit(bytes@, pos as int),
{
    proof {
        bits::lemma_position_split(pos);
        bits::lemma_u8_bit(bytes@[pos as int / 8], (7 - pos % 8) as u8);
    }
    let byte: u8 = bytes[(pos >> 3) as usize];
    let shift: u8 = 7 - (pos & 0b111);
    (byte >> shift) & 1 == 1
}

/// Builds the bitset of a list of positions.
pub(crate) fn dense_from(positions: &[u8]) -> (dense: Box<[u8; 32]>)
    ensures
        forall|p: int|
            0 <= p < 256 ==> #[trigger] bits::byte_bit(dense@, p) == positions@.contains(p as u8),
        model::ascending(model::Payload::Sparse(positions@).offsets()) ==> model::Payload::Dense(
            dense@,
        ).offsets() == model::Payload::Sparse(positions@).offsets(),
{
    let mut dense: Box<[u8; 32]> = Box::new([0u8; 32]);
    proof {
        assert forall|p: int| 0 <= p < 256 implies !#[trigger] bits::byte_bit(dense@, p) by {
            bits::lemma_zero_bit((7 - p % 8) as nat);
        }
    }
    let mut i: usize = 0;
    while i < positions.len()
        invariant
            i <= positions.len(),
            forall|p: int|
                0 <= p < 256 ==> #[trigger] bits::byte_bit(dense@, p) == positions@.take(
                    i as int,
                ).contains(p as u8),
        decreases positions.len() - i,
    {
        let existing: u8 = positions[i];
        set_dense_bit(&mut dense, existing);
        proof {
            let done = positions@.take(i as int);
            let more = positions@.take(i + 1);
            assert(more =~= done.push(existing));
            assert forall|p: int| 0 <= p < 256 implies #[trigger] bits::byte_bit(dense@, p)
                == more.contains(p as u8) by {
                if done.contains(p as u8) {
                    let k = choose|k: int| 0 <= k < done.len() && done[k] == p as u8;
                    assert(more[k] == p as u8);
                }
                if more.contains(p as u8) && p != existing {
                    let k = choose|k: int| 0 <= k < more.len() && more[k] == p as u8;
                    assert(done[k] == p as u8);
                }
                assert(more[i as int] == existing);
            }
        }
        i = i + 1;
    }
    proof {
        assert(positions@.take(positions@.len() as int) =~= positions@);
        let sparse = model::Payload::Sparse(positions@);
        let full = model::Payload::Dense(dense@);
        if model::ascending(sparse.offsets()) {
            model::lemma_dense_ascending(dense@);
            assert forall|o: int| #[trigger] full.offsets().contains(o)
                == sparse.offsets().contains(o) by {
                model::lemma_dense_has(dense@, o);
                model::lemma_offsets_range(sparse);
                assert(sparse.holds(o) == sparse.offsets().contains(o));
                assert(full.holds(o) == full.offsets().contains(o));
                if 0 <= o < 256 {
                    model::lemma_sparse_has(positions@, o as u8);
                }
            }
            model::lemma_ascending_unique(full.offsets(), sparse.offsets());
        }
    }
    dense
}

/// Copies the 32 bytes of a dense container.
pub(crate) fn dense_copy(payload: &[u8]) -> (dense: Box<[u8; 32]>)
    requires
        payload@.len() == 32,
    ensures
        dense@ == payload@,
{
    let mut dense: Box<[u8; 32]> = Box::new([0u8; 32]);
    let mut i: usize = 0;
    while i < 32
        invariant
            i <= 32,
            payload@.len() == 32,
            forall|k: int| 0 <= k < i ==> dense@[k] == payload@[k],
        decreases 32 - i,
    {
        dense[i] = payload[i];
        i = i + 1;
    }
    assert(dense@ =~= payload@);
    dense
}

/// Two byte strings are the same.
fn same_bytes(a: &[u8], b: &[u8]) -> (r: bool)
    ensures
        r == (a@ == b@),
{
    if a.len() != b.len() {
        return false;
    }
    let mut i: usize = 0;
    while i < a.len()
        invariant
            i <= a.len() == b.len(),
            forall|k: int| 0 <= k < i ==> a@[k] == b@[k],
        decreases a.len() - i,
    {
        if a[i] != b[i] {
            return false;
        }
        i = i + 1;
    }
    assert(a@ =~= b@);
    true
}

impl Store {
    /// A copy of the container.
    pub(crate) fn duplicate(&self) -> (store: Self)
        ensures
            store.payload() == self.payload(),
    {
        match self {
            Store::Sparse(positions) => {
                Store::Sparse(vstd::slice::slice_to_vec(positions.as_slice()))
            },
            Store::Dense(bytes) => Store::Dense(Box::new(**bytes)),
        }
    }

    /// Two containers are the same.
    pub(crate) fn same(&self, other: &Store) -> (r: bool)
        ensures
            r == (self.payload() == other.payload()),
    {
        match (self, other) {
            (Store::Sparse(a), Store::Sparse(b)) => same_bytes(a.as_slice(), b.as_slice()),
            (Store::Dense(a), Store::Dense(b)) => same_bytes(a.as_slice(), b.as_slice()),
            _ => false,
        }
    }

    /// Number of positions that are set.
    pub(crate) fn len(&self) -> (r: usize)
        ensures
            r == self.payload().offsets().len(),
    {
        match self {
            Store::Sparse(positions) => positions.len(),
            Store::Dense(bytes) => {
                let mut count: usize = 0;
                let mut p: u16 = 0;
                while p < 256
                    invariant
                        p <= 256,
                        count <= p,
                        count == bits::indices_where(bits::byte_stream(bytes@), 0, p as int).len(),
                    decreases 256 - p,
                {
                    if self_dense_contains(bytes, p as u8) {
                        count = count + 1;
                    }
                    p = p + 1;
                }
                count
            },
        }
    }

    /// Returns `true` if `pos` is set.
    pub(crate) fn contains(&self, pos: u8) -> (r: bool)
        ensures
            r ==> self.payload().holds(pos as int),
            self.payload().sorted() ==> r == self.payload().holds(pos as int),
    {
        match self {
            Store::Sparse(positions) => {
                let r = match search(positions.as_slice(), pos) {
                    Ok(_) => true,
                    Err(_) => false,
                };
                proof {
                    model::lemma_sparse_has(positions@, pos);
                }
                r
            },
            Store::Dense(bytes) => {
                proof {
                    model::lemma_dense_has(bytes@, pos as int);
                }
                self_dense_contains(bytes, pos)
            },
        }
    }

    /// Inserts a position, promoting a sparse store to dense once it would hold
    /// 32 positions. Returns `true` if the position was newly set.
    pub(crate) fn insert(&mut self, pos: u8) -> (newly_set: bool)
        ensures
            model::payload_inserted(
                old(self).payload(),
                final(self).payload(),
                pos,
                newly_set,
            ),
    {
        match self {
            Store::Sparse(positions) => match search(positions.as_slice(), pos) {
                Ok(at) => {
                    proof {
                        model::lemma_inserted_found(positions@, at as int);
                    }
                    false
                },
                Err(index) => {
                    if positions.len() >= model::DENSE_THRESHOLD - 1 {
                        let mut dense = dense_from(positions.as_slice());
                        let ghost before = dense@;
                        set_dense_bit(&mut dense, pos);
                        proof {
                            model::lemma_inserted_promoted(positions@, before, dense@, pos);
                        }
                        *self = Store::Dense(dense);
                    } else {
                        proof {
                            model::lemma_inserted_sparse(positions@, index as int, pos);
                        }
                        positions.insert(index, pos);
                    }
                    true
                },
            },
            Store::Dense(bytes) => {
                let newly_set = !self_dense_contains(bytes, pos);
                let ghost before = bytes@;
                set_dense_bit(bytes, pos);
                proof {
                    if !newly_set {
                        bits::lemma_same_bits(before, bytes@);
                    }
                    model::lemma_inserted_dense(before, bytes@, pos);
                }
                newly_set
            },
        }
    }
}

/// Iterates the set positions (0-255) within a single container.
pub(crate) enum ContainerIter<'a> {
    Sparse { positions: &'a [u8], index: usize },
    Dense { bytes: &'a [u8; 32], byte_index: usize, current: u8 },
}

/// The bits that a dense iteration has still to look at: those left in the
/// current byte, then those of the bytes after it.
pub(crate) open spec fn bits_left(
    bytes: Seq<u8>,
    byte_index: int,
    current: u8,
) -> spec_fn(int) -> bool {
    |p: int|
        if p < 8 * byte_index + 8 {
            bits::bit_at(current as nat, (7 - (p - 8 * byte_index)) as nat)
        } else {
            bits::byte_bit(bytes, p)
        }
}

/// The positions a dense iteration has still to return.
pub(crate) open spec fn dense_remaining(
    bytes: Seq<u8>,
    byte_index: int,
    current: u8,
) -> Seq<int> {
    bits::indices_where(bits_left(bytes, byte_index, current), 8 * byte_index, 256)
}

/// Finds the next set bit, taking it out of the current byte or moving on to
/// the bytes after it.
fn next_dense(bytes: &[u8; 32], byte_index: &mut usize, current: &mut u8) -> (r: Option<u8>)
    requires
        *old(byte_index) < 32,
    ensures
        *final(byte_index) < 32,
        ({
            let before = dense_remaining(bytes@, *old(byte_index) as int, *old(current));
            let after = dense_remaining(bytes@, *final(byte_index) as int, *final(current));
            model::iteration_step(before, after, r)
        }),
{
    let ghost all = dense_remaining(bytes@, *old(byte_index) as int, *old(current));
    loop
        invariant
            *byte_index < 32,
            dense_remaining(bytes@, *byte_index as int, *current) == all,
            all == dense_remaining(bytes@, *old(byte_index) as int, *old(current)),
        decreases 32 - *byte_index,
    {
        let ghost lo = 8 * *byte_index as int;
        let ghost f = bits_left(bytes@, *byte_index as int, *current);
        if *current != 0 {
            // The MSB is the lowest position, so scan from the top.
            let bit: u8 = current.leading_zeros() as u8;
            let ghost x = *current;
            proof {
                bits::lemma_u8_first_bit(x, bit, 0);
            }
            *current = *current & !(0x80u8 >> bit);
            proof {
                let g = bits_left(bytes@, *byte_index as int, *current);
                assert forall|i: int| lo <= i < lo + bit implies !#[trigger] f(i) by {
                    bits::lemma_u8_first_bit(x, bit, (7 - (i - lo)) as u8);
                }
                assert forall|i: int| lo <= i < 256 implies #[trigger] g(i) == (i != lo + bit && f(
                    i,
                )) by {
                    if i < lo + 8 {
                        bits::lemma_u8_first_bit(x, bit, (7 - (i - lo)) as u8);
                    }
                }
                bits::lemma_indices_where_first(f, g, lo, lo + bit, 256);
                let after = dense_remaining(bytes@, *byte_index as int, *current);
                assert(all.drop_first() =~= after);
            }
            return Some((*byte_index as u8) * 8 + bit);
        }
        proof {
            assert forall|i: int| lo <= i < lo + 8 implies !#[trigger] f(i) by {
                bits::lemma_zero_bit((7 - (i - lo)) as nat);
            }
            bits::lemma_indices_where_split(f, lo, lo + 8, 256);
            bits::lemma_indices_where_none(f, lo, lo + 8);
        }
        if *byte_index + 1 >= 32 {
            return None;
        }
        *byte_index = *byte_index + 1;
        *current = bytes[*byte_index];
        proof {
            let g = bits_left(bytes@, *byte_index as int, *current);
            assert forall|i: int| lo + 8 <= i < 256 implies #[trigger] f(i) == g(i) by {
                if i < lo + 16 {
                    assert(i / 8 == *byte_index && i % 8 == i - (lo + 8));
                }
            }
            bits::lemma_indices_where_congruence(f, g, lo + 8, 256);
            assert(dense_remaining(bytes@, *byte_index as int, *current) =~= all);
        }
    }
}

impl<'a> ContainerIter<'a> {
    pub(crate) open spec fn wf(&self) -> bool {
        match self {
            ContainerIter::Sparse { positions, index } => *index <= positions@.len(),
            ContainerIter::Dense { byte_index, .. } => *byte_index < 32,
        }
    }

    /// The positions still to come.
    pub(crate) open spec fn remaining(&self) -> Seq<int> {
        match self {
            ContainerIter::Sparse { positions, index } => model::Payload::Sparse(
                positions@,
            ).offsets().skip(*index as int),
            ContainerIter::Dense { bytes, byte_index, current } => dense_remaining(
                bytes@,
                *byte_index as int,
                *current,
            ),
        }
    }

    pub(crate) fn new(store: &'a Store) -> (iter: Self)
        ensures
            iter.wf(),
            iter.remaining() == store.payload().offsets(),
    {
        match store {
            Store::Sparse(positions) => {
                let iter = ContainerIter::Sparse { positions: positions.as_slice(), index: 0 };
                assert(iter.remaining() =~= store.payload().offsets());
                iter
            },
            Store::Dense(bytes) => {
                let iter = ContainerIter::Dense { bytes, byte_index: 0, current: bytes[0] };
                proof {
                    bits::lemma_indices_where_congruence(
                        bits_left(bytes@, 0, bytes@[0]),
                        bits::byte_stream(bytes@),
                        0,
                        256,
                    );
                }
                iter
            },
        }
    }

    /// Returns the next position, or `None` once all have been returned.
    pub(crate) fn next(&mut self) -> (r: Option<u8>)
        requires
            old(self).wf(),
        ensures
            final(self).wf(),
            model::iteration_step(old(self).remaining(), final(self).remaining(), r),
    {
        match self {
            ContainerIter::Sparse { positions, index } => {
                if *index < positions.len() {
                    let p: u8 = positions[*index];
                    *index = *index + 1;
                    assert(self.remaining() =~= old(self).remaining().drop_first());
                    Some(p)
                } else {
                    None
                }
            },
            ContainerIter::Dense { bytes, byte_index, current } => {
                next_dense(bytes, byte_index, current)
            },
        }
    }
}

} // verus!
