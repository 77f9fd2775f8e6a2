//! The read view over a serialized bitmap.

use crate::bits;
use crate::model;
use crate::mumbling::{container_len, is_dense, MumblingBitmap};
use crate::pfor;
use crate::store::search;
use crate::wire;
use vstd::arithmetic::power2::*;
use vstd::prelude::*;

verus! {

/// Number of 64-bit words in a dense container (32 bytes).
pub(crate) const DENSE_WORDS: usize = 4;

/// Iterates the set positions (0-255) within a container's raw payload slice.
///
/// The dense path processes 64 bits per step using big-endian words and
/// `leading_zeros`. Big-endian is what makes the MSB-first bit order (position
/// 0 = MSB of byte 0) land as the most significant bit of the word.
pub(crate) enum ReaderContainerIter<'a> {
    Sparse { positions: &'a [u8], index: usize },
    Dense { payload: &'a [u8], word_index: usize, current: u64 },
}

/// The bits that a dense iteration has still to look at: those left in the
/// current word, then those of the words after it.
pub(crate) open spec fn bits_left(payload: Seq<u8>, word_index: int, current: u64) -> spec_fn(int) -> bool {
    |p: int|
        if p < 64 * word_index + 64 {
            bits::bit_at(current as nat, (63 - (p - 64 * word_index)) as nat)
        } else {
            bits::byte_bit(payload, p)
        }
}

/// The positions a dense iteration has still to return.
pub(crate) open spec fn dense_remaining(payload: Seq<u8>, word_index: int, current: u64) -> Seq<int> {
    bits::indices_where(bits_left(payload, word_index, current), 64 * word_index, 256)
}

/// Reads the big-endian word at an index.
fn be_word(payload: &[u8], word_index: usize) -> (word: u64)
    requires
        payload@.len() == 32,
        word_index < DENSE_WORDS,
    ensures
        forall|t: int|
            0 <= t < 64 ==> #[trigger] bits::byte_bit(payload@, 64 * word_index + t)
                == bits::bit_at(word as nat, (63 - t) as nat),
{
    let ghost f = bits::byte_stream(payload@);
    let ghost s = 64 * word_index as int;
    let mut word: u64 = 0;
    let mut k: usize = 0;
    while k < 8
        invariant
            k <= 8,
            payload@.len() == 32,
            word_index < DENSE_WORDS,
            f == bits::byte_stream(payload@),
            s == 64 * word_index,
            word == bits::bits_value(f, s, (8 * k) as nat),
        decreases 8 - k,
    {
        let byte: u8 = payload[8 * word_index + k];
        proof {
            bits::lemma_bits_value_split(f, s, (8 * k) as nat, 8);
            bits::lemma_byte_in_stream(payload@, 8 * word_index + k);
            bits::lemma_bits_value_bound(f, s, (8 * k) as nat);
            lemma2_to64();
            lemma2_to64_rest();
            if k < 7 {
                lemma_pow2_strictly_increases((8 * k) as nat, 56);
            }
        }
        word = word * 256 + byte as u64;
        k = k + 1;
    }
    proof {
        assert forall|t: int| 0 <= t < 64 implies #[trigger] bits::byte_bit(
            payload@,
            64 * word_index + t,
        ) == bits::bit_at(word as nat, (63 - t) as nat) by {
            bits::lemma_bit_of_bits_value(f, s, 64, (63 - t) as nat);
            assert(f(s + t) == bits::byte_bit(payload@, s + t));
        }
    }
    word
}

/// Finds the next set bit, taking it out of the current word or moving on to
/// the words after it.
fn next_dense(payload: &[u8], word_index: &mut usize, current: &mut u64) -> (r: Option<u8>)
    requires
        payload@.len() == 32,
        *old(word_index) < DENSE_WORDS,
    ensures
        *final(word_index) < DENSE_WORDS,
        ({
            let before = dense_remaining(payload@, *old(word_index) as int, *old(current));
            let after = dense_remaining(payload@, *final(word_index) as int, *final(current));
            model::iteration_step(before, after, r)
        }),
{
    let ghost all = dense_remaining(payload@, *old(word_index) as int, *old(current));
    loop
        invariant
            payload@.len() == 32,
            *word_index < DENSE_WORDS,
            dense_remaining(payload@, *word_index as int, *current) == all,
            all == dense_remaining(payload@, *old(word_index) as int, *old(current)),
        decreases DENSE_WORDS - *word_index,
    {
        let ghost lo = 64 * *word_index as int;
        let ghost f = bits_left(payload@, *word_index as int, *current);
        if *current != 0 {
            // MSB is the lowest position within the word.
            let bit: u32 = current.leading_zeros();
            let ghost x = *current;
            proof {
                bits::lemma_u64_first_bit(x, bit as u64, 0);
            }
            *current = *current & !(1u64 << (63 - bit) as u64);
            proof {
                let g = bits_left(payload@, *word_index as int, *current);
                assert forall|i: int| lo <= i < lo + bit implies !#[trigger] f(i) by {
                    bits::lemma_u64_first_bit(x, bit as u64, (63 - (i - lo)) as u64);
                }
                assert forall|i: int| lo <= i < 256 implies #[trigger] g(i) == (i != lo + bit && f(
                    i,
                )) by {
                    if i < lo + 64 {
                        bits::lemma_u64_first_bit(x, bit as u64, (63 - (i - lo)) as u64);
                    }
                }
                bits::lemma_indices_where_first(f, g, lo, lo + bit, 256);
                let after = dense_remaining(payload@, *word_index as int, *current);
                assert(all.drop_first() =~= after);
            }
            return Some((*word_index * 64 + bit as usize) as u8);
        }
        proof {
            assert forall|i: int| lo <= i < lo + 64 implies !#[trigger] f(i) by {
                bits::lemma_zero_bit((63 - (i - lo)) as nat);
            }
            bits::lemma_indices_where_split(f, lo, lo + 64, 256);
            bits::lemma_indices_where_none(f, lo, lo + 64);
        }
        if *word_index + 1 >= DENSE_WORDS {
            return None;
        }
        *word_index = *word_index + 1;
        *current = be_word(payload, *word_index);
        proof {
            let g = bits_left(payload@, *word_index as int, *current);
            assert forall|i: int| lo + 64 <= i < 256 implies #[trigger] f(i) == g(i) by {
                if i < lo + 128 {
                    let t = i - (lo + 64);
                    assert(bits::byte_bit(payload@, 64 * *word_index + t) == bits::bit_at(
                        *current as nat,
                        (63 - t) as nat,
                    ));
                }
            }
            bits::lemma_indices_where_congruence(f, g, lo + 64, 256);
            assert(dense_remaining(payload@, *word_index as int, *current) =~= all);
        }
    }
}

impl<'a> ReaderContainerIter<'a> {
    pub(crate) open spec fn wf(&self) -> bool {
        match self {
            ReaderContainerIter::Sparse { positions, index } => *index <= positions@.len(),
            ReaderContainerIter::Dense { payload, word_index, .. } => payload@.len() == 32
                && *word_index < DENSE_WORDS,
        }
    }

    /// The positions still to come.
    pub(crate) open spec fn remaining(&self) -> Seq<int> {
        match self {
            ReaderContainerIter::Sparse { positions, index } => model::Payload::Sparse(
                positions@,
            ).offsets().skip(*index as int),
            ReaderContainerIter::Dense { payload, word_index, current } => dense_remaining(
                payload@,
                *word_index as int,
                *current,
            ),
        }
    }

    pub(crate) fn new(descriptor: u8, payload: &'a [u8]) -> (iter: Self)
        requires
            payload@.len() == wire::container_size(descriptor),
        ensures
            iter.wf(),
            iter.remaining() == (if model::dense_descriptor(descriptor as nat) {
                model::Payload::Dense(payload@)
            } else {
                model::Payload::Sparse(payload@)
            }).offsets(),
    {
        if is_dense(descriptor) {
            let current = be_word(payload, 0);
            proof {
                let f = bits_left(payload@, 0, current);
                let g = bits::byte_stream(payload@);
                assert forall|i: int| 0 <= i < 256 implies #[trigger] f(i) == g(i) by {
                    if i < 64 {
                        assert(bits::byte_bit(payload@, 64 * 0 + i) == bits::bit_at(
                            current as nat,
                            (63 - i) as nat,
                        ));
                    }
                }
                bits::lemma_indices_where_congruence(f, g, 0, 256);
            }
            ReaderContainerIter::Dense { payload, word_index: 0, current }
        } else {
            let iter = ReaderContainerIter::Sparse { positions: payload, index: 0 };
            assert(iter.remaining() =~= model::Payload::Sparse(payload@).offsets());
            iter
        }
    }

    /// Returns the next position, or `None` once all have been returned.
    pub(crate) fn next(&mut self) -> (r: Option<u8>)
        requires
            old(self).wf(),
        ensures
            final(self).wf(),
            model::iteration_step(old(self).remaining(), final(self).remaining(), r),
    {
        match self {
            ReaderContainerIter::Sparse { positions, index } => {
                if *index < positions.len() {
                    let p: u8 = positions[*index];
                    *index = *index + 1;
                    assert(self.remaining() =~= old(self).remaining().drop_first());
                    Some(p)
                } else {
                    None
                }
            },
            ReaderContainerIter::Dense { payload, word_index, current } => {
                next_dense(payload, word_index, current)
            },
        }
    }
}

/// Iterating a dense container gives exactly the positions whose bits are set, in
/// ascending order, each once, and then nothing on every further call.
///
/// `remaining[i]` are the positions still to come before call `i`, at first all
/// those of the container, and `results[i]` is what that call returns.
pub proof fn dense_iteration_lists_set_bits(
    payload: Seq<u8>,
    remaining: Seq<Seq<int>>,
    results: Seq<Option<u8>>,
)
    requires
        payload.len() == model::DENSE_CONTAINER_SIZE,
        remaining.len() == results.len() + 1,
        remaining[0] == model::Payload::Dense(payload).offsets(),
        forall|i: int|
            0 <= i < results.len() ==> model::iteration_step(
                remaining[i],
                remaining[i + 1],
                #[trigger] results[i],
            ),
    ensures
        forall|i: int|
            0 <= i < results.len() ==> (#[trigger] results[i] is Some <==> i
                < model::Payload::Dense(payload).offsets().len()),
        forall|i: int|
            0 <= i < results.len() ==> (#[trigger] results[i] matches Some(q) ==> (payload[q as int
                / 8] >> (7 - q % 8)) & 1 == 1),
        forall|i: int, j: int|
            0 <= i < j < results.len() && results[j] is Some ==> #[trigger] results[i]->0
                < #[trigger] results[j]->0,
        forall|q: u8|
            results.len() >= model::Payload::Dense(payload).offsets().len() && #[trigger] (
            payload[q as int / 8] >> (7 - q % 8)) & 1 == 1 ==> results.contains(Some(q)),
{
    let offsets = model::Payload::Dense(payload).offsets();
    model::iteration_lists_all(offsets, remaining, results);
    model::lemma_offsets_range(model::Payload::Dense(payload));
    model::lemma_dense_ascending(payload);
    assert forall|q: u8| model::Payload::Dense(payload).holds(q as int) == (#[trigger] (
    payload[q as int / 8] >> (7 - q % 8)) & 1 == 1) by {
        model::lemma_dense_has(payload, q as int);
        bits::lemma_u8_bit(payload[q as int / 8], (7 - q % 8) as u8);
    }
    assert forall|i: int| 0 <= i < results.len() implies (#[trigger] results[i] matches Some(q)
        ==> (payload[q as int / 8] >> (7 - q % 8)) & 1 == 1) by {
        if let Some(q) = results[i] {
            assert(offsets[i] == q);
            assert(model::Payload::Dense(payload).holds(q as int));
        }
    }
    assert forall|i: int, j: int|
        0 <= i < j < results.len() && results[j] is Some implies #[trigger] results[i]->0
        < #[trigger] results[j]->0 by {
        assert(offsets[i] < offsets[j]);
        assert(0 <= offsets[i] < 256 && 0 <= offsets[j] < 256);
    }
    assert forall|q: u8|
        results.len() >= offsets.len() && #[trigger] (payload[q as int / 8] >> (7 - q % 8)) & 1
            == 1 implies results.contains(Some(q)) by {
        assert(model::Payload::Dense(payload).holds(q as int));
        let i = choose|i: int| 0 <= i < offsets.len() && offsets[i] == q;
        assert(results[i] == Some(q));
    }
}

/// A read-only, zero-copy view over a serialized Mumbling bitmap.
///
/// The header is parsed eagerly, the PFOR descriptor array is decoded once into
/// an offset table, and `cardinality`/`is_set`/iteration then answer directly
/// against the borrowed buffer with no per-container allocation. Cardinality is
/// taken from the header rather than recomputed.
#[derive(Debug)]
pub struct MumblingReader<'a> {
    /// The full serialized bitmap, positioned at the header.
    data: &'a [u8],
    cardinality: usize,
    /// Decoded descriptor byte per container index.
    descriptors: Vec<u8>,
    /// Absolute byte offset of each container's payload in `data`. Length is
    /// `descriptors.len() + 1`; the final entry is the end of the last
    /// container.
    offsets: Vec<usize>,
}

/// The bytes that tell whether `pos` is set are there: its byte of a dense
/// container, or the whole list of a sparse one.
pub open spec fn position_readable(data: Seq<u8>, pos: u32) -> bool {
    let index = pos as int / 256;
    let descriptors = wire::descriptor_bytes(data);
    index < descriptors.len() ==> if model::dense_descriptor(descriptors[index] as nat) {
        wire::offset_of(data, index) + (pos as int % 256) / 8 < data.len()
    } else {
        wire::offset_of(data, index + 1) <= data.len()
    }
}

/// Where a whole serialized bitmap is there, every position can be asked for.
pub proof fn readable_at_every_position(data: Seq<u8>, pos: u32)
    requires
        wire::readable(data),
    ensures
        position_readable(data, pos),
{
    let index = pos as int / 256;
    let d = wire::descriptor_bytes(data);
    if index < d.len() {
        wire::lemma_total_size_step(d, index);
        wire::lemma_total_size_monotone(d, index + 1, d.len() as int);
    }
}

impl<'a> MumblingReader<'a> {
    /// The serialized bitmap that is read.
    pub closed spec fn data(&self) -> Seq<u8> {
        self.data@
    }

    /// Cardinality, descriptors and offsets are those of the serialized bitmap.
    #[verifier::type_invariant]
    pub closed spec fn inv(&self) -> bool {
        &&& wire::header_readable(self.data@)
        &&& self.cardinality == wire::header_cardinality(self.data@)
        &&& self.descriptors@ == wire::descriptor_bytes(self.data@)
        &&& self.descriptors@.len() == wire::header_containers(self.data@)
        &&& self.offsets@.len() == self.descriptors@.len() + 1
        &&& forall|i: int|
            0 <= i < self.offsets@.len() ==> #[trigger] self.offsets@[i] == wire::offset_of(
                self.data@,
                i,
            )
    }

    /// Parses the header and descriptor array of a serialized Mumbling bitmap,
    /// borrowing `data` without copying container payloads.
    pub fn new(data: &'a [u8]) -> (reader: Self)
        requires
            wire::header_readable(data@),
            wire::offset_of(data@, wire::descriptor_bytes(data@).len() as int) <= usize::MAX,
        ensures
            reader.data() == data@,
    {
        let cardinality: usize = data[1] as usize + 256 * data[2] as usize + 65536
            * data[3] as usize;
        let container_count: usize = data[4] as usize + 256 * data[5] as usize;
        let body = vstd::slice::slice_subrange(data, wire::HEADER_SIZE, data.len());
        assert(body@ =~= data@.skip(wire::HEADER_SIZE as int));
        let ghost d = wire::descriptor_bytes(data@);
        let (descriptor_ints, descriptor_size) = pfor::decode_len(body, container_count);
        proof {
            wire::lemma_decoded_len(body@, container_count as nat);
            wire::lemma_pfor_size(body@, container_count as nat);
            wire::lemma_total_size_monotone(d, 0, d.len() as int);
            assert(d.take(0).len() == 0);
        }
        // Each container's payload starts after the descriptor array, at the
        // running sum of prior container lengths.
        let mut descriptors: Vec<u8> = Vec::with_capacity(container_count);
        let mut offsets: Vec<usize> = Vec::with_capacity(container_count + 1);
        let mut offset: usize = wire::HEADER_SIZE + descriptor_size;
        let mut i: usize = 0;
        while i < descriptor_ints.len()
            invariant
                d == wire::descriptor_bytes(data@),
                d.len() == descriptor_ints@.len() == container_count,
                forall|k: int|
                    0 <= k < d.len() ==> #[trigger] d[k] == (descriptor_ints@[k] % 256) as u8,
                wire::offset_of(data@, d.len() as int) <= usize::MAX,
                i <= descriptor_ints.len(),
                offset == wire::offset_of(data@, i as int),
                descriptors@ == d.take(i as int),
                offsets@.len() == i,
                forall|k: int| 0 <= k < i ==> #[trigger] offsets@[k] == wire::offset_of(data@, k),
            decreases descriptor_ints.len() - i,
        {
            let descriptor: u8 = (descriptor_ints[i] % 256) as u8;
            proof {
                wire::lemma_total_size_step(d, i as int);
                wire::lemma_total_size_monotone(d, i + 1, d.len() as int);
                assert(d[i as int] == descriptor);
                assert(wire::offset_of(data@, i + 1) <= usize::MAX);
                assert(d.take(i + 1) =~= d.take(i as int).push(descriptor));
            }
            descriptors.push(descriptor);
            offsets.push(offset);
            offset = offset + container_len(descriptor);
            i = i + 1;
        }
        offsets.push(offset);
        assert(d.take(d.len() as int) =~= d);
        MumblingReader { data, cardinality, descriptors, offsets }
    }

    /// Returns the number of bits set, read from the header.
    pub fn cardinality(&self) -> (r: usize)
        ensures
            r == wire::header_cardinality(self.data()),
            r == self.data()[1] + 256 * self.data()[2] + 65536 * self.data()[3],
    {
        proof {
            use_type_invariant(self);
        }
        self.cardinality
    }

    /// Returns `true` if no bits are set.
    pub fn is_empty(&self) -> (r: bool)
        ensures
            r == (wire::header_cardinality(self.data()) == 0),
            r == (self.data()[1] == 0 && self.data()[2] == 0 && self.data()[3] == 0),
    {
        proof {
            use_type_invariant(self);
        }
        self.cardinality == 0
    }

    /// Returns `true` if `pos` is set, without materializing any container.
    pub fn is_set(&self, pos: u32) -> (r: bool)
        requires
            position_readable(self.data(), pos),
        ensures
            ({
                let index = pos as int / 256;
                let descriptors = wire::descriptor_bytes(self.data());
                let payload = wire::payload_at(self.data(), index);
                if index >= descriptors.len() {
                    !r
                } else if model::dense_descriptor(descriptors[index] as nat) {
                    r == bits::byte_bit(
                        self.data(),
                        8 * wire::offset_of(self.data(), index) + pos as int % 256,
                    )
                } else {
                    &&& r ==> payload.holds(pos as int % 256)
                    &&& payload.sorted() ==> r == payload.holds(pos as int % 256)
                }
            }),
            wire::readable(self.data()) ==> {
                let layout = wire::parsed(self.data());
                &&& r ==> model::members(layout).contains(pos)
                &&& model::sorted(layout) ==> r == model::members(layout).contains(pos)
                &&& model::canonical(layout) ==> r == model::members(layout).contains(pos)
            },
    {
        proof {
            use_type_invariant(self);
        }
        let ghost data = self.data@;
        let ghost d = wire::descriptor_bytes(data);
        let index: usize = (pos / 256) as usize;
        proof {
            if wire::readable(data) {
                wire::lemma_parsed_members(data, pos);
                if model::canonical(wire::parsed(data)) {
                    model::lemma_canonical_sorted(wire::parsed(data));
                }
            }
        }
        if index >= self.descriptors.len() {
            return false;
        }
        let descriptor: u8 = self.descriptors[index];
        let start: usize = self.offsets[index];
        let pos_in_container: u8 = (pos % 256) as u8;
        proof {
            assert(data.len() == self.data.len());
            wire::lemma_total_size_step(d, index as int);
            wire::lemma_pfor_size(
                data.skip(wire::HEADER_SIZE as int),
                wire::header_containers(data),
            );
        }
        if is_dense(descriptor) {
            proof {
                bits::lemma_position_split(pos_in_container);
            }
            let byte: u8 = self.data[start + (pos_in_container >> 3) as usize];
            let shift: u8 = 7 - (pos_in_container & 0b111);
            proof {
                let j = 8 * start + pos_in_container;
                assert(j / 8 == start + pos_in_container / 8 && j % 8 == pos_in_container % 8);
                bits::lemma_u8_bit(byte, shift);
                if wire::readable(data) {
                    wire::lemma_dense_payload(data, index as int, pos as int % 256);
                }
            }
            (byte >> shift) & 1 == 1
        } else {
            // Sparse: sorted position bytes; bisect the borrowed slice.
            let len: usize = descriptor as usize;
            let list = vstd::slice::slice_subrange(self.data, start, start + len);
            proof {
                model::lemma_sparse_has(list@, pos_in_container);
                assert(wire::payload_at(data, index as int) == model::Payload::Sparse(list@));
            }
            match search(list, pos_in_container) {
                Ok(_) => true,
                Err(_) => false,
            }
        }
    }
}

impl<'a> MumblingReader<'a> {
    /// Lists set positions in ascending order, reading the borrowed buffer.
    pub fn iter(&self) -> (r: Vec<u32>)
        requires
            wire::readable(self.data()),
        ensures
            r@ == model::positions(wire::parsed(self.data())),
            model::canonical(wire::parsed(self.data())) ==> model::strictly_ascending(r@),
    {
        proof {
            use_type_invariant(self);
        }
        let ghost data = self.data@;
        let ghost d = wire::descriptor_bytes(data);
        let mut out: Vec<u32> = Vec::new();
        let mut index: usize = 0;
        while index < self.descriptors.len()
            invariant
                self.inv(),
                data == self.data@,
                d == self.descriptors@,
                d == wire::descriptor_bytes(data),
                wire::readable(data),
                d.len() <= 65535,
                index <= self.descriptors.len(),
                out@ == model::positions(wire::parsed_up_to(data, index as int)),
            decreases self.descriptors.len() - index,
        {
            let ghost before = out@;
            let descriptor: u8 = self.descriptors[index];
            let start: usize = self.offsets[index];
            let end: usize = self.offsets[index + 1];
            proof {
                wire::lemma_payload_range(data, index as int);
            }
            let payload = vstd::slice::slice_subrange(self.data, start, end);
            let ghost block = model::Block {
                key: index as u32,
                payload: wire::payload_at(data, index as int),
            };
            let ghost offsets = block.payload.offsets();
            let base: u32 = 256 * index as u32;
            let mut positions = ReaderContainerIter::new(descriptor, payload);
            let mut more = true;
            let ghost mut done: int = 0;
            proof {
                model::lemma_offsets_range(block.payload);
                assert(offsets.skip(0) =~= offsets);
                assert(before + block.positions().take(0) =~= before);
            }
            while more
                invariant
                    positions.wf(),
                    0 <= done <= offsets.len(),
                    positions.remaining() == offsets.skip(done),
                    !more ==> done == offsets.len(),
                    block.key == index <= 65535,
                    base == 256 * index,
                    offsets == block.payload.offsets(),
                    forall|k: int| 0 <= k < offsets.len() ==> 0 <= #[trigger] offsets[k] < 256,
                    out@ == before + block.positions().take(done),
                decreases
                        offsets.len() - done + if more {
                            1int
                        } else {
                            0int
                        },
            {
                match positions.next() {
                    Some(offset) => {
                        assert(offsets[done] == offset);
                        out.push(base + offset as u32);
                        proof {
                            let b = block.positions();
                            assert(b[done] == (256 * index + offset) as u32);
                            assert(b.take(done + 1) =~= b.take(done).push(b[done]));
                            assert(offsets.skip(done).drop_first() =~= offsets.skip(done + 1));
                            done = done + 1;
                        }
                    },
                    None => {
                        more = false;
                    },
                }
            }
            proof {
                assert(block.positions().take(offsets.len() as int) =~= block.positions());
                let layout = wire::parsed_up_to(data, index as int);
                if descriptor == 0 {
                    assert(!model::dense_descriptor(0));
                    assert(offsets.len() == 0);
                    assert(out@ =~= before);
                } else {
                    assert(layout.push(block).drop_last() =~= layout);
                }
            }
            index = index + 1;
        }
        proof {
            if model::canonical(wire::parsed(data)) {
                model::canonical_positions_ascend(wire::parsed(data));
            }
        }
        out
    }

    /// Materializes an owning [`MumblingBitmap`] from this view.
    pub fn to_bitmap(&self) -> (bitmap: MumblingBitmap)
        requires
            wire::readable(self.data()),
        ensures
            bitmap.layout() == model::layout_of(model::members(wire::parsed(self.data()))),
            model::canonical(bitmap.layout()),
            bitmap@ == model::members(wire::parsed(self.data())),
    {
        MumblingBitmap::from_iter(self.iter())
    }
}

impl<'a> Clone for MumblingReader<'a> {
    fn clone(&self) -> (reader: Self)
        ensures
            reader.data() == self.data(),
    {
        proof {
            use_type_invariant(self);
        }
        let descriptors = vstd::slice::slice_to_vec(self.descriptors.as_slice());
        let offsets = vstd::slice::slice_to_vec(self.offsets.as_slice());
        MumblingReader { data: self.data, cardinality: self.cardinality, descriptors, offsets }
    }
}

} // verus!
