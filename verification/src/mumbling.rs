//! Mumbling v1 compressed bitmap.
//!
//! The in-memory representation is a vector of non-empty containers sorted by
//! key, each an enum over a sparse array or a dense bitset. [`MumblingReader`]
//! is the zero-copy read view.

use crate::model;
use crate::outside;
use crate::pfor;
use crate::store;
use crate::store::{ContainerIter, Store};
use crate::wire;
use vstd::prelude::*;

pub use crate::reader::MumblingReader;

verus! {

/// A non-empty container and its key (the high bits of its positions).
#[derive(Debug)]
struct Container {
    key: u32,
    store: Store,
}

impl Container {
    /// What the container represents.
    spec fn block(self) -> model::Block {
        model::Block { key: self.key, payload: self.store.payload() }
    }
}

/// What the containers represent.
spec fn blocks(containers: Seq<Container>) -> Seq<model::Block> {
    containers.map_values(|c: Container| c.block())
}

/// A Mumbling bitmap over `u32` positions.
#[derive(Debug)]
pub struct MumblingBitmap {
    /// Non-empty containers sorted by key.
    containers: Vec<Container>,
}

impl View for MumblingBitmap {
    type V = Set<u32>;

    /// The set of positions that are set.
    open spec fn view(&self) -> Set<u32> {
        model::members(self.layout())
    }
}

/// Looks for the container with a key by bisection. Where there is none, the
/// error holds the index at which it belongs.
fn search_key(containers: &Vec<Container>, key: u32) -> (r: Result<usize, usize>)
    requires
        model::valid(blocks(containers@)),
    ensures
        match r {
            Ok(i) => i < containers@.len() && containers@[i as int].key == key,
            Err(i) => {
                &&& i <= containers@.len()
                &&& forall|j: int| 0 <= j < i ==> (#[trigger] containers@[j]).key < key
                &&& forall|j: int|
                    i <= j < containers@.len() ==> (#[trigger] containers@[j]).key > key
            },
        },
{
    proof {
        assert forall|i: int, j: int| 0 <= i < j < containers@.len() implies (
        #[trigger] containers@[i]).key < (#[trigger] containers@[j]).key by {
            let b = blocks(containers@);
            assert(b[i].key < b[j].key);
        }
    }
    let mut lo: usize = 0;
    let mut hi: usize = containers.len();
    while lo < hi
        invariant
            lo <= hi <= containers.len(),
            forall|i: int, j: int|
                0 <= i < j < containers@.len() ==> (#[trigger] containers@[i]).key < (
                #[trigger] containers@[j]).key,
            forall|j: int| 0 <= j < lo ==> (#[trigger] containers@[j]).key < key,
            forall|j: int| hi <= j < containers@.len() ==> (#[trigger] containers@[j]).key > key,
        decreases hi - lo,
    {
        let mid: usize = lo + (hi - lo) / 2;
        let found: u32 = containers[mid].key;
        if found == key {
            return Ok(mid);
        } else if found < key {
            lo = mid + 1;
        } else {
            hi = mid;
        }
    }
    Err(lo)
}

impl MumblingBitmap {
    /// The containers of the bitmap.
    pub closed spec fn layout(&self) -> Seq<model::Block> {
        blocks(self.containers@)
    }

    /// The containers are sorted by key, and each can be told from its
    /// descriptor.
    #[verifier::type_invariant]
    pub closed spec fn inv(&self) -> bool {
        model::valid(self.layout())
    }

    /// Creates an empty bitmap.
    pub fn new() -> (bitmap: Self)
        ensures
            bitmap.layout() == Seq::<model::Block>::empty(),
            bitmap.layout() == model::layout_of(Set::<u32>::empty()),
            bitmap@ == Set::<u32>::empty(),
    {
        let bitmap = MumblingBitmap { containers: Vec::new() };
        proof {
            assert(bitmap.layout() =~= Seq::<model::Block>::empty());
            assert(bitmap@ =~= Set::<u32>::empty());
            model::canonical_layout_is_layout_of(bitmap.layout());
        }
        bitmap
    }

    /// Adds a position to the bitmap. Returns `true` if it was newly set.
    pub fn insert(&mut self, pos: u32) -> (newly_set: bool)
        ensures
            model::layout_inserted(
                old(self).layout(),
                final(self).layout(),
                pos,
                newly_set,
            ),
            final(self)@ == old(self)@.insert(pos),
            !newly_set ==> final(self).layout() == old(self).layout() && old(self)@.contains(pos),
            model::sorted(old(self).layout()) ==> newly_set == !old(self)@.contains(pos),
            model::canonical(old(self).layout()) ==> newly_set == !old(self)@.contains(pos),
            old(self).layout() == model::layout_of(old(self)@) ==> {
                &&& newly_set == !old(self)@.contains(pos)
                &&& final(self).layout() == model::layout_of(old(self)@.insert(pos))
            },
            model::sorted(old(self).layout()) ==> model::sorted(final(self).layout()),
            model::canonical(old(self).layout()) ==> model::canonical(final(self).layout()),
    {
        proof {
            use_type_invariant(&*self);
        }
        let ghost before = self.layout();
        let mut containers: Vec<Container> = Vec::new();
        std::mem::swap(&mut containers, &mut self.containers);
        assert(pos >> 8 == pos / 256 && pos & 0xFF == pos % 256) by (bit_vector);
        let key: u32 = pos >> 8;
        let pos_in_container: u8 = (pos & 0xFF) as u8;
        let newly_set = match search_key(&containers, key) {
            Ok(i) => {
                let newly_set = containers[i].store.insert(pos_in_container);
                proof {
                    let after = blocks(containers@);
                    assert(before[i as int].key == key);
                    assert(after =~= before.update(i as int, after[i as int]));
                }
                newly_set
            },
            Err(i) => {
                let mut positions: Vec<u8> = Vec::new();
                positions.push(pos_in_container);
                containers.insert(i, Container { key, store: Store::Sparse(positions) });
                proof {
                    let after = blocks(containers@);
                    assert(positions@ =~= seq![pos_in_container]);
                    assert(after =~= before.insert(
                        i as int,
                        model::Block {
                            key,
                            payload: model::Payload::Sparse(seq![pos_in_container]),
                        },
                    ));
                }
                true
            },
        };
        proof {
            let after = blocks(containers@);
            assert(model::layout_inserted(before, after, pos, newly_set));
            model::lemma_layout_inserted(before, after, pos, newly_set);
            model::lemma_positions_contain(before, pos);
            if before == model::layout_of(model::members(before)) {
                model::canonical_form_exists(model::members(before));
            }
            if model::canonical(before) {
                model::lemma_canonical_sorted(before);
                model::canonical_layout_is_layout_of(after);
            }
        }
        self.containers = containers;
        newly_set
    }

    /// Returns `true` if `pos` is set.
    pub fn is_set(&self, pos: u32) -> (r: bool)
        ensures
            r ==> self@.contains(pos),
            model::sorted(self.layout()) ==> r == self@.contains(pos),
            model::canonical(self.layout()) ==> r == self@.contains(pos),
            self.layout() == model::layout_of(self@) ==> r == self@.contains(pos),
    {
        proof {
            use_type_invariant(self);
            if self.layout() == model::layout_of(self@) {
                model::canonical_form_exists(self@);
            }
            if model::canonical(self.layout()) {
                model::lemma_canonical_sorted(self.layout());
            }
        }
        assert(pos >> 8 == pos / 256 && pos & 0xFF == pos % 256) by (bit_vector);
        let key: u32 = pos >> 8;
        proof {
            model::lemma_positions_contain(self.layout(), pos);
        }
        match search_key(&self.containers, key) {
            Ok(i) => {
                proof {
                    model::lemma_is_set_at(self.layout(), i as int, pos as int % 256);
                }
                self.containers[i].store.contains((pos & 0xFF) as u8)
            },
            Err(_) => false,
        }
    }

    /// Returns the number of bits set.
    pub fn cardinality(&self) -> (r: usize)
        requires
            model::positions(self.layout()).len() <= usize::MAX,
        ensures
            r == model::positions(self.layout()).len(),
            model::canonical(self.layout()) ==> r == self@.len(),
            self.layout() == model::layout_of(self@) ==> r == self@.len(),
    {
        let mut count: usize = 0;
        let mut i: usize = 0;
        let ghost all = self.layout();
        while i < self.containers.len()
            invariant
                i <= self.containers.len(),
                all == self.layout(),
                model::positions(all).len() <= usize::MAX,
                count == model::positions(all.take(i as int)).len(),
            decreases self.containers.len() - i,
        {
            proof {
                assert(all.take(i + 1).drop_last() =~= all.take(i as int));
                model::lemma_positions_prefix(all, i + 1);
            }
            count = count + self.containers[i].store.len();
            i = i + 1;
        }
        proof {
            assert(all.take(all.len() as int) =~= all);
            if all == model::layout_of(self@) {
                model::canonical_form_exists(self@);
            }
            if model::canonical(all) {
                model::canonical_count(all);
            }
        }
        count
    }

    /// Returns `true` if no bits are set.
    pub fn is_empty(&self) -> (r: bool)
        ensures
            r == (self.layout().len() == 0),
            r ==> self@ == Set::<u32>::empty(),
            model::canonical(self.layout()) ==> r == (self@ == Set::<u32>::empty()),
            self.layout() == model::layout_of(self@) ==> r == (self@ == Set::<u32>::empty()),
    {
        proof {
            model::canonical_form_exists(self@);
            model::lemma_empty(self.layout());
        }
        self.containers.is_empty()
    }

    /// Lists set positions in ascending order.
    pub fn iter(&self) -> (r: Vec<u32>)
        ensures
            r@ == model::positions(self.layout()),
            model::canonical(self.layout()) ==> model::strictly_ascending(r@),
            self.layout() == model::layout_of(self@) ==> forall|i: int, j: int|
                0 <= i < j < r@.len() ==> #[trigger] r@[i] < #[trigger] r@[j],
            r@.to_set() == self@,
    {
        proof {
            use_type_invariant(self);
        }
        let mut out: Vec<u32> = Vec::new();
        let mut i: usize = 0;
        let ghost all = self.layout();
        while i < self.containers.len()
            invariant
                i <= self.containers.len(),
                all == self.layout(),
                model::valid(all),
                out@ == model::positions(all.take(i as int)),
            decreases self.containers.len() - i,
        {
            let container = &self.containers[i];
            let ghost before = out@;
            let ghost block = all[i as int];
            let ghost offsets = block.payload.offsets();
            assert(block.key < model::KEY_LIMIT);
            let key: u32 = container.key;
            assert(key << 8 == 256 * key) by (bit_vector)
                requires
                    key < 16_777_216,
            ;
            let base: u32 = key << 8;
            let mut positions = ContainerIter::new(&container.store);
            let mut more = true;
            let ghost mut done: int = 0;
            proof {
                model::lemma_offsets_range(block.payload);
                assert(offsets.skip(0) =~= offsets);
                assert(before + block.positions().take(0) =~= before);
            }
            while more
                invariant
                    positions.wf(),
                    0 <= done <= offsets.len(),
                    positions.remaining() == offsets.skip(done),
                    !more ==> done == offsets.len(),
                    block.key == key < model::KEY_LIMIT,
                    base == 256 * key,
                    offsets == block.payload.offsets(),
                    forall|k: int| 0 <= k < offsets.len() ==> 0 <= #[trigger] offsets[k] < 256,
                    out@ == before + block.positions().take(done),
                decreases offsets.len() - done + if more {
                    1int
                } else {
                    0int
                },
            {
                match positions.next() {
                    Some(offset) => {
                        assert(offsets[done] == offset);
                        out.push(base + offset as u32);
                        proof {
                            let b = block.positions();
                            assert(b[done] == (256 * key + offset) as u32);
                            assert(b.take(done + 1) =~= b.take(done).push(b[done]));
                            assert(offsets.skip(done).drop_first() =~= offsets.skip(done + 1));
                            done = done + 1;
                        }
                    },
                    None => {
                        more = false;
                    },
                }
            }
            proof {
                assert(block.positions().take(offsets.len() as int) =~= block.positions());
                assert(all.take(i + 1).drop_last() =~= all.take(i as int));
            }
            i = i + 1;
        }
        proof {
            assert(all.take(all.len() as int) =~= all);
            if all == model::layout_of(self@) {
                model::canonical_form_exists(self@);
            }
            if model::canonical(all) {
                model::canonical_positions_ascend(all);
            }
        }
        out
    }
}

impl Clone for MumblingBitmap {
    fn clone(&self) -> (bitmap: Self)
        ensures
            bitmap.layout() == self.layout(),
            bitmap@ == self@,
    {
        proof {
            use_type_invariant(self);
        }
        let ghost all = self.layout();
        let mut containers: Vec<Container> = Vec::with_capacity(self.containers.len());
        let mut i: usize = 0;
        assert(blocks(containers@) =~= all.take(0));
        while i < self.containers.len()
            invariant
                i <= self.containers.len(),
                all == self.layout(),
                blocks(containers@) == all.take(i as int),
            decreases self.containers.len() - i,
        {
            let container = &self.containers[i];
            containers.push(Container { key: container.key, store: container.store.duplicate() });
            proof {
                assert(containers@.last().block() == all[i as int]);
                assert(blocks(containers@) =~= all.take(i as int).push(all[i as int]));
                assert(all.take(i + 1) =~= all.take(i as int).push(all[i as int]));
            }
            i = i + 1;
        }
        assert(all.take(all.len() as int) =~= all);
        MumblingBitmap { containers }
    }
}

impl PartialEq for MumblingBitmap {
    /// Two bitmaps are equal if they have the same containers.
    fn eq(&self, other: &Self) -> (r: bool) {
        let ghost a = self.layout();
        let ghost b = other.layout();
        if self.containers.len() != other.containers.len() {
            assert(a.len() != b.len());
            return false;
        }
        let mut i: usize = 0;
        while i < self.containers.len()
            invariant
                i <= self.containers.len() == other.containers.len(),
                a == self.layout(),
                b == other.layout(),
                forall|k: int| 0 <= k < i ==> a[k] == b[k],
            decreases self.containers.len() - i,
        {
            let x = &self.containers[i];
            let y = &other.containers[i];
            if x.key != y.key || !x.store.same(&y.store) {
                assert(a[i as int] != b[i as int]);
                return false;
            }
            assert(a[i as int] == b[i as int]);
            i = i + 1;
        }
        assert(a =~= b);
        true
    }
}

impl vstd::std_specs::cmp::PartialEqSpecImpl for MumblingBitmap {
    open spec fn obeys_eq_spec() -> bool {
        true
    }

    open spec fn eq_spec(&self, other: &Self) -> bool {
        self.layout() == other.layout()
    }
}

impl Eq for MumblingBitmap {

}

impl Default for MumblingBitmap {
    fn default() -> (bitmap: Self)
        ensures
            bitmap.layout() == Seq::<model::Block>::empty(),
            bitmap.layout() == model::layout_of(Set::<u32>::empty()),
            bitmap@ == Set::<u32>::empty(),
    {
        MumblingBitmap::new()
    }
}

/// Appends bytes.
fn append(out: &mut Vec<u8>, bytes: &[u8])
    ensures
        final(out)@ == old(out)@ + bytes@,
{
    out.extend_from_slice(bytes);
    assert(out@ =~= old(out)@ + bytes@);
}

impl MumblingBitmap {
    /// Lists the descriptor of every container index, including 0 for empty
    /// gaps.
    fn descriptors(&self, container_count: usize) -> (descriptors: Vec<u32>)
        requires
            container_count == wire::container_count(self.layout()),
        ensures
            descriptors@ == wire::descriptors(self.layout()),
    {
        proof {
            use_type_invariant(self);
        }
        let ghost all = self.layout();
        let mut descriptors: Vec<u32> = Vec::new();
        descriptors.resize(container_count, 0);
        let mut i: usize = 0;
        while i < self.containers.len()
            invariant
                i <= self.containers.len(),
                all == self.layout(),
                model::valid(all),
                container_count == wire::container_count(all),
                descriptors@.len() == container_count,
                forall|k: int|
                    0 <= k < container_count ==> #[trigger] descriptors@[k] == wire::descriptor_at(
                        all.take(i as int),
                        k,
                    ),
            decreases self.containers.len() - i,
        {
            let container = &self.containers[i];
            let descriptor: u32 = match &container.store {
                Store::Dense(_) => model::DENSE_CONTAINER_DESCRIPTOR as u32,
                Store::Sparse(positions) => positions.len() as u32,
            };
            proof {
                let block = all[i as int];
                assert(block.payload.valid());
                assert(descriptor == block.payload.descriptor());
                assert(block.key <= all.last().key) by {
                    if i < all.len() - 1 {
                        assert(all[i as int].key < all[all.len() - 1].key);
                    }
                }
                assert(all.take(i + 1).drop_last() =~= all.take(i as int));
            }
            descriptors[container.key as usize] = descriptor;
            i = i + 1;
        }
        proof {
            assert(all.take(all.len() as int) =~= all);
            assert(descriptors@ =~= wire::descriptors(all));
        }
        descriptors
    }

    /// Serializes the bitmap to the Mumbling v1 binary format.
    pub fn serialize(&self) -> (out: Vec<u8>)
        requires
            wire::serializable(self.layout()),
        ensures
            out@ == wire::serialized(self.layout()),
            out@.len() >= 6,
            out@[0] == 1,
            out@[1] + 256 * out@[2] + 65536 * out@[3] == model::positions(self.layout()).len(),
            out@[4] + 256 * out@[5] == if self.layout().len() == 0 {
                0
            } else {
                self.layout().last().key + 1
            },
    {
        proof {
            use_type_invariant(self);
        }
        let ghost all = self.layout();
        let cardinality: usize = self.cardinality();
        let container_count: usize = match self.containers.last() {
            Some(container) => {
                assert(all.last() == container.block());
                container.key as usize + 1
            },
            None => 0,
        };
        let descriptors = self.descriptors(container_count);
        let mut out: Vec<u8> = Vec::with_capacity(wire::HEADER_SIZE + container_count);
        // Header: version, cardinality (3 bytes LE), container count (2 bytes LE).
        out.push(wire::VERSION);
        out.push((cardinality % 256) as u8);
        out.push(((cardinality / 256) % 256) as u8);
        out.push(((cardinality / 65536) % 256) as u8);
        out.push((container_count % 256) as u8);
        out.push(((container_count / 256) % 256) as u8);
        let ghost head = wire::header(cardinality as nat, container_count as nat);
        proof {
            assert(out@ =~= head);
            assert forall|i: int| 0 <= i < descriptors@.len() implies #[trigger] descriptors@[i]
                < 256 by {
                wire::lemma_descriptors_fit(all, i);
            }
        }
        // PFOR-encoded descriptor array.
        let encoded = pfor::encode(descriptors.as_slice());
        append(&mut out, encoded.as_slice());
        // Container payloads, in key order.
        let mut i: usize = 0;
        let ghost front = head + encoded@;
        assert(out@ =~= front);
        assert(front + wire::payloads(all.take(0)) =~= front);
        assert(out@.take(6) =~= head);
        while i < self.containers.len()
            invariant
                i <= self.containers.len(),
                all == self.layout(),
                out@ == front + wire::payloads(all.take(i as int)),
                out@.len() >= 6,
                out@.take(6) == head,
            decreases self.containers.len() - i,
        {
            match &self.containers[i].store {
                Store::Sparse(positions) => append(&mut out, positions.as_slice()),
                Store::Dense(bytes) => append(&mut out, bytes.as_slice()),
            }
            proof {
                assert(all.take(i + 1).drop_last() =~= all.take(i as int));
                assert(out@ =~= front + wire::payloads(all.take(i + 1)));
                assert(out@.take(6) =~= head);
            }
            i = i + 1;
        }
        proof {
            assert(all.take(all.len() as int) =~= all);
            assert(head[0] == out@[0] && head[1] == out@[1] && head[2] == out@[2]);
            assert(head[3] == out@[3] && head[4] == out@[4] && head[5] == out@[5]);
        }
        out
    }

    /// Deserializes a bitmap from the Mumbling v1 binary format.
    pub fn deserialize(bytes: &[u8]) -> (bitmap: Self)
        requires
            wire::readable(bytes@),
        ensures
            bitmap.layout() == wire::parsed(bytes@),
    {
        let container_count: usize = bytes[4] as usize + 256 * bytes[5] as usize;
        let body = vstd::slice::slice_subrange(bytes, wire::HEADER_SIZE, bytes.len());
        assert(body@ =~= bytes@.skip(wire::HEADER_SIZE as int));
        let ghost d = wire::descriptor_bytes(bytes@);
        let (descriptors, descriptor_size) = pfor::decode_len(body, container_count);
        proof {
            wire::lemma_decoded_len(body@, container_count as nat);
            wire::lemma_pfor_size(body@, container_count as nat);
            wire::lemma_total_size_monotone(d, 0, d.len() as int);
        }
        let mut cursor: usize = wire::HEADER_SIZE + descriptor_size;
        let mut containers: Vec<Container> = Vec::new();
        let mut index: usize = 0;
        assert(blocks(containers@) =~= wire::parsed_up_to(bytes@, 0));
        while index < descriptors.len()
            invariant
                wire::readable(bytes@),
                d == wire::descriptor_bytes(bytes@),
                d.len() == descriptors@.len() == wire::header_containers(bytes@),
                forall|i: int|
                    0 <= i < d.len() ==> #[trigger] d[i] == (descriptors@[i] % 256) as u8,
                index <= descriptors.len(),
                cursor == wire::offset_of(bytes@, index as int),
                blocks(containers@) == wire::parsed_up_to(bytes@, index as int),
            decreases descriptors.len() - index,
        {
            let descriptor: u8 = (descriptors[index] % 256) as u8;
            let ghost before = blocks(containers@);
            proof {
                wire::lemma_total_size_step(d, index as int);
                wire::lemma_total_size_monotone(d, index + 1, d.len() as int);
                assert(d[index as int] == descriptor);
                assert(wire::offset_of(bytes@, index + 1) <= bytes.len());
            }
            let end: usize = cursor + container_len(descriptor);
            if descriptor != 0 {
                let payload = vstd::slice::slice_subrange(bytes, cursor, end);
                let store = if is_dense(descriptor) {
                    Store::Dense(store::dense_copy(payload))
                } else {
                    Store::Sparse(vstd::slice::slice_to_vec(payload))
                };
                containers.push(Container { key: index as u32, store });
                proof {
                    let block = model::Block {
                        key: index as u32,
                        payload: wire::payload_at(bytes@, index as int),
                    };
                    assert(containers@.last().block() == block);
                    assert(blocks(containers@) =~= before.push(block));
                }
            }
            cursor = end;
            index = index + 1;
        }
        proof {
            wire::lemma_parsed_valid(bytes@, d.len() as int);
        }
        MumblingBitmap { containers }
    }

    /// Estimated decoded in-memory footprint in bytes.
    ///
    /// Models the payload each container holds plus its 2-byte key: sparse
    /// containers cost one byte per set position, dense containers cost 32
    /// bytes. Allocator overhead is not counted.
    pub fn in_memory_bytes(&self) -> (r: usize)
        requires
            model::footprint(self.layout()) <= usize::MAX,
        ensures
            r == model::footprint(self.layout()),
    {
        let ghost all = self.layout();
        let mut total: usize = 0;
        let mut i: usize = 0;
        while i < self.containers.len()
            invariant
                i <= self.containers.len(),
                all == self.layout(),
                model::footprint(all) <= usize::MAX,
                total == model::footprint(all.take(i as int)),
            decreases self.containers.len() - i,
        {
            let payload: usize = match &self.containers[i].store {
                Store::Sparse(positions) => positions.len(),
                Store::Dense(_) => model::DENSE_CONTAINER_SIZE,
            };
            proof {
                assert(all.take(i + 1).drop_last() =~= all.take(i as int));
                model::lemma_footprint_prefix(all, i + 1);
                assert(payload == all[i as int].payload.bytes().len());
            }
            total = total + (2 + payload);
            i = i + 1;
        }
        assert(all.take(all.len() as int) =~= all);
        total
    }
}

/// A descriptor marks a dense container: its three most significant bits are
/// `001`.
pub(crate) fn is_dense(descriptor: u8) -> (r: bool)
    ensures
        r == model::dense_descriptor(descriptor as nat),
{
    assert((descriptor & 0xE0 == 32) == (descriptor / 32 == 1)) by (bit_vector);
    descriptor & 0xE0 == model::DENSE_CONTAINER_DESCRIPTOR
}

/// Serialized byte length of a container with the given descriptor.
pub(crate) fn container_len(descriptor: u8) -> (r: usize)
    ensures
        r == wire::container_size(descriptor),
{
    if is_dense(descriptor) {
        model::DENSE_CONTAINER_SIZE
    } else {
        descriptor as usize
    }
}

/// Drops repeated positions from a sorted list.
fn dedup(sorted: &[u32]) -> (out: Vec<u32>)
    requires
        forall|i: int, j: int|
            0 <= i < j < sorted@.len() ==> #[trigger] sorted@[i] <= #[trigger] sorted@[j],
    ensures
        model::strictly_ascending(out@),
        out@.to_set() == sorted@.to_set(),
{
    let mut out: Vec<u32> = Vec::new();
    let mut i: usize = 0;
    while i < sorted.len()
        invariant
            i <= sorted.len(),
            forall|i: int, j: int|
                0 <= i < j < sorted@.len() ==> #[trigger] sorted@[i] <= #[trigger] sorted@[j],
            model::strictly_ascending(out@),
            i > 0 ==> out@.len() > 0 && out@.last() == sorted@[i - 1],
            i == 0 ==> out@.len() == 0,
            forall|k: int| 0 <= k < i ==> out@.contains(#[trigger] sorted@[k]),
            forall|k: int| 0 <= k < out@.len() ==> sorted@.contains(#[trigger] out@[k]),
        decreases sorted.len() - i,
    {
        let pos: u32 = sorted[i];
        let ghost before = out@;
        if out.len() == 0 || out[out.len() - 1] != pos {
            out.push(pos);
            proof {
                assert(forall|k: int| 0 <= k < before.len() ==> out@[k] == before[k]);
                assert forall|a: int, b: int| 0 <= a < b < out@.len() implies #[trigger] out@[a]
                    < #[trigger] out@[b] by {
                    if b == out@.len() - 1 {
                        assert(sorted@[i - 1] <= sorted@[i as int]);
                        if a < b - 1 {
                            assert(before[a] < before[b - 1]);
                        }
                    }
                }
                assert(out@[out@.len() - 1] == pos);
                assert forall|k: int| 0 <= k < i + 1 implies out@.contains(
                    #[trigger] sorted@[k],
                ) by {
                    if k < i {
                        let l = choose|l: int| 0 <= l < before.len() && before[l] == sorted@[k];
                        assert(out@[l] == sorted@[k]);
                    }
                }
                assert(sorted@.contains(sorted@[i as int]));
            }
        } else {
            assert(out@[out@.len() - 1] == pos);
        }
        i = i + 1;
    }
    proof {
        assert forall|p: u32| out@.contains(p) == sorted@.contains(p) by {
            if out@.contains(p) {
                let k = choose|k: int| 0 <= k < out@.len() && out@[k] == p;
                assert(sorted@.contains(out@[k]));
            }
            if sorted@.contains(p) {
                let k = choose|k: int| 0 <= k < sorted@.len() && sorted@[k] == p;
                assert(out@.contains(sorted@[k]));
            }
        }
        assert(out@.to_set() =~= sorted@.to_set());
    }
    out
}

/// Builds the container of a group of positions from their low bytes.
fn store_of(low: Vec<u8>) -> (store: Store)
    requires
        0 < low@.len(),
        model::ascending(model::Payload::Sparse(low@).offsets()),
    ensures
        store.payload().canonical(),
        store.payload().offsets() == model::Payload::Sparse(low@).offsets(),
{
    if low.len() >= model::DENSE_THRESHOLD {
        Store::Dense(store::dense_from(low.as_slice()))
    } else {
        Store::Sparse(low)
    }
}

impl MumblingBitmap {
    /// Creates a bitmap of the given positions, in any order.
    ///
    /// Sorts and dedups once, then builds containers in a single pass so no
    /// container is repeatedly re-searched or promoted incrementally.
    pub fn from_iter(positions: Vec<u32>) -> (bitmap: Self)
        ensures
            bitmap.layout() == model::layout_of(positions@.to_set()),
            model::canonical(bitmap.layout()),
            bitmap@ == positions@.to_set(),
    {
        let mut sorted: Vec<u32> = positions;
        outside::sort_positions(&mut sorted);
        let all: Vec<u32> = dedup(sorted.as_slice());
        proof {
            broadcast use vstd::seq_lib::to_multiset_contains;

            assert forall|p: u32| sorted@.contains(p) == positions@.contains(p) by {
                assert(sorted@.contains(p) <==> sorted@.to_multiset().count(p) > 0);
                assert(positions@.contains(p) <==> positions@.to_multiset().count(p) > 0);
            }
            assert(sorted@.to_set() =~= positions@.to_set());
        }
        let mut containers: Vec<Container> = Vec::new();
        let mut i: usize = 0;
        assert(model::positions(blocks(containers@)) =~= all@.take(0));
        while i < all.len()
            invariant
                i <= all.len(),
                model::strictly_ascending(all@),
                model::canonical(blocks(containers@)),
                model::positions(blocks(containers@)) == all@.take(i as int),
                i < all.len() ==> forall|k: int|
                    0 <= k < containers@.len() ==> (#[trigger] containers@[k]).key < all@[i as int]
                        / 256,
            decreases all.len() - i,
        {
            let first: u32 = all[i];
            assert(first >> 8 == first / 256) by (bit_vector);
            let key: u32 = first >> 8;
            let ghost before = blocks(containers@);
            let mut low: Vec<u8> = Vec::new();
            let mut j: usize = i;
            while j < all.len() && all[j] / 256 == key
                invariant
                    i <= j <= all.len(),
                    low@.len() == j - i,
                    forall|k: int|
                        0 <= k < low@.len() ==> #[trigger] low@[k] == all@[i + k] % 256 && all@[i
                            + k] / 256 == key,
                decreases all.len() - j,
            {
                let ghost listed = low@;
                low.push((all[j] % 256) as u8);
                proof {
                    assert forall|k: int| 0 <= k < low@.len() implies #[trigger] low@[k] == all@[i
                        + k] % 256 && all@[i + k] / 256 == key by {
                        if k < listed.len() {
                            assert(low@[k] == listed[k]);
                        } else {
                            assert(i + k == j);
                        }
                    }
                }
                j = j + 1;
            }
            proof {
                let offsets = model::Payload::Sparse(low@).offsets();
                assert forall|a: int, b: int| 0 <= a < b < offsets.len() implies
                    #[trigger] offsets[a] < #[trigger] offsets[b] by {
                    assert(all@[i + a] < all@[i + b]);
                    assert(low@[a] == all@[i + a] % 256 && low@[b] == all@[i + b] % 256);
                }
                assert(j > i);
            }
            let ghost group = low@;
            let store = store_of(low);
            containers.push(Container { key, store });
            proof {
                let block = containers@.last().block();
                let after = blocks(containers@);
                assert(after =~= before.push(block));
                assert(after.drop_last() =~= before);
                let b = block.positions();
                assert forall|k: int| 0 <= k < b.len() implies b[k] == all@[i + k] by {
                    assert(group[k] == all@[i + k] % 256);
                }
                assert(b =~= all@.subrange(i as int, j as int));
                assert(all@.take(i as int) + b =~= all@.take(j as int));
                assert forall|x: int, y: int| 0 <= x < y < after.len() implies (
                #[trigger] after[x]).key < (#[trigger] after[y]).key by {
                    if y < before.len() {
                        assert(before[x].key < before[y].key);
                    } else {
                        assert(containers@[x].key < key);
                    }
                }
                assert forall|x: int| 0 <= x < after.len() implies (#[trigger] after[x]).key
                    < model::KEY_LIMIT && after[x].payload.canonical() by {
                    if x < before.len() {
                        assert(after[x] == before[x]);
                    }
                }
                if j < all@.len() {
                    assert(all@[i as int] < all@[j as int]);
                    assert(key < all@[j as int] / 256);
                }
            }
            i = j;
        }
        proof {
            assert(all@.take(all@.len() as int) =~= all@);
            model::canonical_layout_is_layout_of(blocks(containers@));
        }
        MumblingBitmap { containers }
    }
}

} // verus!
