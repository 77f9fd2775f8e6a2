//! The serialized layout of a bitmap (all integers unsigned, little-endian):
//!
//! * Header (6 bytes): version (1), cardinality (3), container count (2)
//! * Descriptor array: PFOR-encoded, one byte per container
//! * Containers: concatenated sparse (0-31 bytes) or dense (32 bytes)

use crate::bits;
use crate::model;
use crate::pfor;
use vstd::prelude::*;

verus! {

/// The version that a header names.
pub const VERSION: u8 = 1;

/// Size of the header.
pub const HEADER_SIZE: usize = 6;

/// Largest number of containers that can be serialized.
pub const MAX_CONTAINERS: usize = 8192;

/// Largest number of positions that can be serialized.
pub const MAX_CARDINALITY: usize = 2_097_152;

/// Number of container indices up to the last container.
pub open spec fn container_count(layout: Seq<model::Block>) -> nat {
    if layout.len() == 0 {
        0
    } else {
        layout.last().key as nat + 1
    }
}

/// The descriptor of a container index, 0 where there is no such container.
pub open spec fn descriptor_at(layout: Seq<model::Block>, key: int) -> u32
    decreases layout.len(),
{
    if layout.len() == 0 {
        0
    } else if layout.last().key == key {
        layout.last().payload.descriptor() as u32
    } else {
        descriptor_at(layout.drop_last(), key)
    }
}

/// The descriptor of every container index, including 0 for empty gaps.
pub open spec fn descriptors(layout: Seq<model::Block>) -> Seq<u32> {
    Seq::new(container_count(layout), |key: int| descriptor_at(layout, key))
}

/// The payloads, one after the other.
pub open spec fn payloads(layout: Seq<model::Block>) -> Seq<u8>
    decreases layout.len(),
{
    if layout.len() == 0 {
        Seq::empty()
    } else {
        payloads(layout.drop_last()) + layout.last().payload.bytes()
    }
}

/// The header: version, cardinality and container count.
pub open spec fn header(cardinality: nat, containers: nat) -> Seq<u8> {
    seq![
        VERSION,
        (cardinality % 256) as u8,
        ((cardinality / 256) % 256) as u8,
        ((cardinality / 65536) % 256) as u8,
        (containers % 256) as u8,
        ((containers / 256) % 256) as u8,
    ]
}

/// The serialized form of a bitmap.
pub open spec fn serialized(layout: Seq<model::Block>) -> Seq<u8> {
    header(model::positions(layout).len(), container_count(layout)) + pfor::encoded(
        descriptors(layout),
    ) + payloads(layout)
}

/// The bitmap is within the limits of the format.
pub open spec fn serializable(layout: Seq<model::Block>) -> bool {
    &&& model::positions(layout).len() <= MAX_CARDINALITY
    &&& container_count(layout) <= MAX_CONTAINERS
}

/// The number of positions that a header states.
pub open spec fn header_cardinality(bytes: Seq<u8>) -> nat {
    (bytes[1] + 256 * bytes[2] + 65536 * bytes[3]) as nat
}

/// The number of containers that a header states.
pub open spec fn header_containers(bytes: Seq<u8>) -> nat {
    (bytes[4] + 256 * bytes[5]) as nat
}

/// There are a header of the right version and a descriptor array.
pub open spec fn header_readable(bytes: Seq<u8>) -> bool {
    &&& bytes.len() >= HEADER_SIZE
    &&& bytes[0] == VERSION
    &&& pfor::readable(bytes.skip(HEADER_SIZE as int), header_containers(bytes))
}

/// The low byte of each value.
pub open spec fn low_bytes(values: Seq<u32>) -> Seq<u8> {
    Seq::new(values.len(), |i: int| (values[i] % 256) as u8)
}

/// The descriptor bytes of a serialized bitmap.
pub open spec fn descriptor_bytes(bytes: Seq<u8>) -> Seq<u8> {
    low_bytes(pfor::decoded(bytes.skip(HEADER_SIZE as int), header_containers(bytes)))
}

/// Where the payloads of a serialized bitmap begin.
pub open spec fn payload_start(bytes: Seq<u8>) -> int {
    HEADER_SIZE + pfor::encoded_size(bytes.skip(HEADER_SIZE as int), header_containers(bytes))
}

/// Serialized length of a container with the given descriptor.
pub open spec fn container_size(descriptor: u8) -> int {
    if model::dense_descriptor(descriptor as nat) {
        model::DENSE_CONTAINER_SIZE as int
    } else {
        descriptor as int
    }
}

/// Total length of the containers with the given descriptors.
pub open spec fn total_size(descriptors: Seq<u8>) -> int
    decreases descriptors.len(),
{
    if descriptors.len() == 0 {
        0
    } else {
        total_size(descriptors.drop_last()) + container_size(descriptors.last())
    }
}

/// Where the payload of container `index` begins.
pub open spec fn offset_of(bytes: Seq<u8>, index: int) -> int {
    payload_start(bytes) + total_size(descriptor_bytes(bytes).take(index))
}

/// A serialized bitmap can be read: header, descriptors and all payloads are
/// there.
pub open spec fn readable(bytes: Seq<u8>) -> bool {
    &&& header_readable(bytes)
    &&& offset_of(bytes, descriptor_bytes(bytes).len() as int) <= bytes.len()
}

/// The payload of container `index` of a serialized bitmap.
pub open spec fn payload_at(bytes: Seq<u8>, index: int) -> model::Payload {
    let descriptor = descriptor_bytes(bytes)[index];
    let start = offset_of(bytes, index);
    let payload = bytes.subrange(start, start + container_size(descriptor));
    if model::dense_descriptor(descriptor as nat) {
        model::Payload::Dense(payload)
    } else {
        model::Payload::Sparse(payload)
    }
}

/// The non-empty ones of the first `count` containers of a serialized bitmap.
pub open spec fn parsed_up_to(bytes: Seq<u8>, count: int) -> Seq<model::Block>
    decreases count,
{
    if count <= 0 {
        Seq::empty()
    } else if descriptor_bytes(bytes)[count - 1] == 0 {
        parsed_up_to(bytes, count - 1)
    } else {
        parsed_up_to(bytes, count - 1).push(
            model::Block { key: (count - 1) as u32, payload: payload_at(bytes, count - 1) },
        )
    }
}

/// The containers of a serialized bitmap.
pub open spec fn parsed(bytes: Seq<u8>) -> Seq<model::Block> {
    parsed_up_to(bytes, descriptor_bytes(bytes).len() as int)
}

/// Sizes add up.
pub(crate) proof fn lemma_total_size_step(descriptors: Seq<u8>, i: int)
    requires
        0 <= i < descriptors.len(),
    ensures
        total_size(descriptors.take(i + 1)) == total_size(descriptors.take(i)) + container_size(
            descriptors[i],
        ),
        total_size(descriptors.take(i)) >= 0,
    decreases i,
{
    assert(descriptors.take(i + 1).drop_last() =~= descriptors.take(i));
    if i > 0 {
        lemma_total_size_step(descriptors, i - 1);
    }
}

/// Payloads lie one after the other, so those of the first containers end
/// before those of all do.
pub(crate) proof fn lemma_total_size_monotone(descriptors: Seq<u8>, i: int, j: int)
    requires
        0 <= i <= j <= descriptors.len(),
    ensures
        0 <= total_size(descriptors.take(i)) <= total_size(descriptors.take(j)) <= 255 * j,
    decreases j,
{
    if j > 0 {
        lemma_total_size_step(descriptors, j - 1);
    }
    if i < j {
        lemma_total_size_monotone(descriptors, i, j - 1);
    } else if j > 0 {
        lemma_total_size_monotone(descriptors, i - 1, j - 1);
    }
}

/// There are as many descriptors as the header says.
pub(crate) proof fn lemma_decoded_len(s: Seq<u8>, count: nat)
    ensures
        pfor::decoded(s, count).len() == count,
    decreases count,
{
    if count > 0 {
        let n = pfor::first_chunk(count);
        lemma_decoded_len(s.skip(pfor::chunk_size(s, n)), (count - n) as nat);
    }
}

/// What is read from any bytes is a valid set of containers, in the order of
/// their indices.
pub(crate) proof fn lemma_parsed_valid(bytes: Seq<u8>, count: int)
    requires
        readable(bytes),
        0 <= count <= descriptor_bytes(bytes).len(),
    ensures
        model::valid(parsed_up_to(bytes, count)),
        forall|i: int|
            0 <= i < parsed_up_to(bytes, count).len() ==> (#[trigger] parsed_up_to(
                bytes,
                count,
            )[i]).key < count,
    decreases count,
{
    let all = parsed_up_to(bytes, count);
    let d = descriptor_bytes(bytes);
    lemma_decoded_len(bytes.skip(HEADER_SIZE as int), header_containers(bytes));
    if count > 0 {
        lemma_parsed_valid(bytes, count - 1);
        let before = parsed_up_to(bytes, count - 1);
        lemma_total_size_step(d, count - 1);
        lemma_total_size_monotone(d, count, d.len() as int);
        assert(d.take(d.len() as int) =~= d);
        let start = offset_of(bytes, count - 1);
        lemma_pfor_size(bytes.skip(HEADER_SIZE as int), header_containers(bytes));
        assert(0 <= start && start + container_size(d[count - 1]) <= bytes.len());
        assert(forall|i: int| 0 <= i < before.len() ==> all[i] == before[i]);
    }
}

/// Encoded arrays have a size.
pub(crate) proof fn lemma_pfor_size(s: Seq<u8>, count: nat)
    ensures
        pfor::encoded_size(s, count) >= 0,
    decreases count,
{
    if count > 0 {
        let n = pfor::first_chunk(count);
        assert(n * pfor::header_b1(s) >= 0) by (nonlinear_arith);
        assert(s[1] * pfor::header_b2(s) >= 0) by (nonlinear_arith);
        lemma_pfor_size(s.skip(pfor::chunk_size(s, n)), (count - n) as nat);
    }
}

/// The descriptor of an index is that of the container with this key.
pub(crate) proof fn lemma_descriptor_found(layout: Seq<model::Block>, i: int)
    requires
        model::valid(layout),
        0 <= i < layout.len(),
    ensures
        descriptor_at(layout, layout[i].key as int) == layout[i].payload.descriptor(),
        0 < layout[i].payload.descriptor() < 256,
    decreases layout.len(),
{
    assert(layout[i].payload.valid());
    if i < layout.len() - 1 {
        let rest = layout.drop_last();
        lemma_prefix_valid(layout, layout.len() - 1);
        assert(layout.take(layout.len() - 1) =~= rest);
        assert(rest[i] == layout[i]);
        lemma_descriptor_found(rest, i);
        assert(layout[i].key < layout[layout.len() - 1].key);
    }
}

/// Where no container has the key, the descriptor is 0.
pub(crate) proof fn lemma_descriptor_absent(layout: Seq<model::Block>, key: int)
    requires
        forall|i: int| 0 <= i < layout.len() ==> (#[trigger] layout[i]).key != key,
    ensures
        descriptor_at(layout, key) == 0,
    decreases layout.len(),
{
    if layout.len() > 0 {
        assert(layout[layout.len() - 1].key != key);
        assert forall|i: int| 0 <= i < layout.drop_last().len() implies (
        #[trigger] layout.drop_last()[i]).key != key by {
            assert(layout.drop_last()[i] == layout[i]);
        }
        lemma_descriptor_absent(layout.drop_last(), key);
    }
}

/// The first containers of a valid set are valid.
proof fn lemma_prefix_valid(layout: Seq<model::Block>, n: int)
    requires
        model::valid(layout),
        0 <= n <= layout.len(),
    ensures
        model::valid(layout.take(n)),
{
    let a = layout.take(n);
    assert forall|i: int| 0 <= i < a.len() implies (#[trigger] a[i]).key < model::KEY_LIMIT
        && a[i].payload.valid() by {
        assert(a[i] == layout[i]);
    }
    assert forall|i: int, j: int| 0 <= i < j < a.len() implies (#[trigger] a[i]).key < (
    #[trigger] a[j]).key by {
        assert(a[i] == layout[i] && a[j] == layout[j]);
    }
}

/// Descriptors are bytes.
pub(crate) proof fn lemma_descriptors_fit(layout: Seq<model::Block>, key: int)
    requires
        model::valid(layout),
    ensures
        descriptor_at(layout, key) < 256,
    decreases layout.len(),
{
    if layout.len() > 0 {
        assert(layout[layout.len() - 1].payload.valid());
        lemma_prefix_valid(layout, layout.len() - 1);
        assert(layout.take(layout.len() - 1) =~= layout.drop_last());
        lemma_descriptors_fit(layout.drop_last(), key);
    }
}

/// The payload of container `i` comes after those of the containers before it.
pub(crate) proof fn lemma_payload_place(layout: Seq<model::Block>, i: int)
    requires
        0 <= i < layout.len(),
    ensures
        ({
            let start = payloads(layout.take(i)).len() as int;
            let size = layout[i].payload.bytes().len() as int;
            &&& start + size <= payloads(layout).len()
            &&& payloads(layout).subrange(start, start + size) == layout[i].payload.bytes()
            &&& payloads(layout.take(i + 1)).len() == start + size
        }),
    decreases layout.len(),
{
    let last = layout.len() - 1;
    let rest = layout.drop_last();
    let start = payloads(layout.take(i)).len() as int;
    let bytes = layout[i].payload.bytes();
    assert(layout.take(i + 1).drop_last() =~= layout.take(i));
    if i == last {
        assert(layout.take(i) =~= rest);
        assert(payloads(layout).subrange(start, start + bytes.len()) =~= bytes);
    } else {
        lemma_payload_place(rest, i);
        assert(rest.take(i) =~= layout.take(i));
        assert(rest[i] == layout[i]);
        assert(payloads(layout).subrange(start, start + bytes.len()) =~= payloads(rest).subrange(
            start,
            start + bytes.len(),
        ));
    }
}

/// The numbers in a header are read as they were written.
proof fn lemma_header_numbers(cardinality: nat, containers: nat, rest: Seq<u8>)
    requires
        cardinality < 16_777_216,
        containers < 65536,
    ensures
        ({
            let bytes = header(cardinality, containers) + rest;
            &&& bytes.len() >= HEADER_SIZE
            &&& bytes[0] == VERSION
            &&& header_cardinality(bytes) == cardinality
            &&& header_containers(bytes) == containers
            &&& bytes.skip(HEADER_SIZE as int) == rest
        }),
{
    let head = header(cardinality, containers);
    let bytes = head + rest;
    assert(bytes[0] == head[0] && bytes[1] == head[1] && bytes[2] == head[2]);
    assert(bytes[3] == head[3] && bytes[4] == head[4] && bytes[5] == head[5]);
    assert(bytes.skip(6) =~= rest);
}

/// A header and a descriptor array are read as they were written.
proof fn lemma_framed(cardinality: nat, d: Seq<u32>, tail: Seq<u8>)
    requires
        cardinality < 16_777_216,
        d.len() < 65536,
        forall|i: int| 0 <= i < d.len() ==> #[trigger] d[i] < 256,
    ensures
        ({
            let bytes = header(cardinality, d.len()) + (pfor::encoded(d) + tail);
            &&& header_readable(bytes)
            &&& header_cardinality(bytes) == cardinality
            &&& header_containers(bytes) == d.len()
            &&& payload_start(bytes) == HEADER_SIZE + pfor::encoded(d).len()
            &&& descriptor_bytes(bytes).len() == d.len()
            &&& forall|k: int|
                0 <= k < d.len() ==> #[trigger] descriptor_bytes(bytes)[k] == d[k]
            &&& bytes.skip(payload_start(bytes)) == tail
            &&& bytes.len() == payload_start(bytes) + tail.len()
        }),
{
    let head = header(cardinality, d.len());
    let e = pfor::encoded(d);
    lemma_header_numbers(cardinality, d.len(), e + tail);
    pfor::decode_undoes_encode(d, tail);
    lemma_skip_both(head, e, tail);
    assert forall|k: int| 0 <= k < d.len() implies #[trigger] low_bytes(d)[k] == d[k] by {
        assert(d[k] < 256);
    }
}

/// What follows two parts is found after their lengths.
proof fn lemma_skip_both(a: Seq<u8>, b: Seq<u8>, c: Seq<u8>)
    ensures
        (a + (b + c)).skip((a.len() + b.len()) as int) == c,
        (a + (b + c)).len() == a.len() + b.len() + c.len(),
{
    assert((a + (b + c)).skip((a.len() + b.len()) as int) =~= c);
}

/// What the header of a serialized bitmap says, whatever follows the bitmap.
proof fn lemma_serialized_header(layout: Seq<model::Block>, tail: Seq<u8>)
    requires
        model::valid(layout),
        serializable(layout),
    ensures
        ({
            let bytes = serialized(layout) + tail;
            &&& header_readable(bytes)
            &&& header_cardinality(bytes) == model::positions(layout).len()
            &&& header_containers(bytes) == container_count(layout)
            &&& payload_start(bytes) == HEADER_SIZE + pfor::encoded(descriptors(layout)).len()
            &&& bytes.len() == payload_start(bytes) + (payloads(layout) + tail).len()
            &&& bytes.skip(payload_start(bytes)) == payloads(layout) + tail
            &&& descriptor_bytes(bytes).len() == container_count(layout)
            &&& forall|k: int|
                0 <= k < container_count(layout) ==> #[trigger] descriptor_bytes(bytes)[k]
                    == descriptor_at(layout, k)
        }),
{
    let c = model::positions(layout).len();
    let d = descriptors(layout);
    let body = payloads(layout);
    assert forall|i: int| 0 <= i < d.len() implies #[trigger] d[i] < 256 by {
        lemma_descriptors_fit(layout, i);
    }
    lemma_framed(c, d, body + tail);
    lemma_join(header(c, d.len()), pfor::encoded(d), body, tail);
    assert forall|k: int| 0 <= k < d.len() implies #[trigger] descriptor_bytes(
        serialized(layout) + tail,
    )[k] == descriptor_at(layout, k) by {
        assert(d[k] == descriptor_at(layout, k));
    }
}

/// Joining is associative.
proof fn lemma_join(a: Seq<u8>, b: Seq<u8>, c: Seq<u8>, d: Seq<u8>)
    ensures
        a + b + c + d == a + (b + (c + d)),
{
    assert(a + b + c + d =~= a + (b + (c + d)));
}

/// `bytes` hold the descriptors and the payloads of these containers.
spec fn holds_layout(bytes: Seq<u8>, layout: Seq<model::Block>) -> bool {
    &&& descriptor_bytes(bytes).len() == container_count(layout)
    &&& forall|k: int|
        0 <= k < container_count(layout) ==> #[trigger] descriptor_bytes(bytes)[k]
            == descriptor_at(layout, k)
    &&& 0 <= payload_start(bytes) <= bytes.len()
    &&& payloads(layout).is_prefix_of(bytes.skip(payload_start(bytes)))
}

/// Container `i` is found where the sizes of those before it say.
proof fn lemma_payload_found(bytes: Seq<u8>, layout: Seq<model::Block>, i: int)
    requires
        model::valid(layout),
        holds_layout(bytes, layout),
        0 <= i < layout.len(),
        layout[i].key < container_count(layout),
        offset_of(bytes, layout[i].key as int) == payload_start(bytes) + payloads(
            layout.take(i),
        ).len(),
    ensures
        descriptor_bytes(bytes)[layout[i].key as int] != 0,
        container_size(descriptor_bytes(bytes)[layout[i].key as int])
            == layout[i].payload.bytes().len(),
        payload_at(bytes, layout[i].key as int) == layout[i].payload,
        payloads(layout.take(i + 1)).len() == payloads(layout.take(i)).len()
            + layout[i].payload.bytes().len(),
{
    let key = layout[i].key as int;
    let start = offset_of(bytes, key);
    let payload = layout[i].payload;
    let size = payload.bytes().len() as int;
    let first = payloads(layout.take(i)).len() as int;
    lemma_descriptor_found(layout, i);
    lemma_payload_place(layout, i);
    assert(payload.valid());
    assert(descriptor_bytes(bytes)[key] == descriptor_at(layout, key));
    assert(container_size(descriptor_bytes(bytes)[key]) == size);
    let all = payloads(layout);
    assert(all.len() >= first + size);
    assert(bytes.skip(payload_start(bytes)).take(all.len() as int) == all);
    assert(bytes.subrange(start, start + size) =~= all.subrange(first, first + size));
}

/// Reading the first `count` container indices gives the first `m` containers
/// back, those with keys below `count`.
proof fn lemma_parse_prefix(bytes: Seq<u8>, layout: Seq<model::Block>, count: int, m: int)
    requires
        model::valid(layout),
        holds_layout(bytes, layout),
        0 <= count <= container_count(layout),
        0 <= m <= layout.len(),
        forall|i: int| 0 <= i < m ==> (#[trigger] layout[i]).key < count,
        forall|i: int| m <= i < layout.len() ==> (#[trigger] layout[i]).key >= count,
    ensures
        parsed_up_to(bytes, count) == layout.take(m),
        offset_of(bytes, count) == payload_start(bytes) + payloads(layout.take(m)).len(),
    decreases count,
{
    if count == 0 {
        assert(m == 0) by {
            if m > 0 {
                assert(layout[0].key < 0);
            }
        }
        assert(parsed_up_to(bytes, 0) =~= layout.take(0));
    } else {
        let key = count - 1;
        lemma_total_size_step(descriptor_bytes(bytes), key);
        if m > 0 && layout[m - 1].key == key {
            let i = m - 1;
            assert forall|j: int| 0 <= j < i implies (#[trigger] layout[j]).key < key by {
                assert(layout[j].key < layout[i].key);
            }
            lemma_parse_prefix(bytes, layout, key, i);
            lemma_payload_found(bytes, layout, i);
            assert(layout.take(m) =~= layout.take(i).push(layout[i]));
        } else {
            assert forall|j: int| 0 <= j < m implies (#[trigger] layout[j]).key < key by {
                assert(layout[j].key < count);
                if j < m - 1 {
                    assert(layout[j].key < layout[m - 1].key);
                }
            }
            lemma_parse_prefix(bytes, layout, key, m);
            assert forall|j: int| 0 <= j < layout.len() implies (#[trigger] layout[j]).key
                != key by {
                if j >= m {
                    assert(layout[j].key >= count);
                }
            }
            lemma_descriptor_absent(layout, key);
            assert(descriptor_bytes(bytes)[key] == descriptor_at(layout, key));
            assert(!model::dense_descriptor(0));
        }
    }
}

/// Deserializing what was serialized gives the same containers back whatever
/// bytes follow, and the header states their count and the number of positions.
pub proof fn deserialize_ignores_what_follows(layout: Seq<model::Block>, tail: Seq<u8>)
    requires
        model::valid(layout),
        serializable(layout),
    ensures
        readable(serialized(layout) + tail),
        parsed(serialized(layout) + tail) == layout,
        header_cardinality(serialized(layout) + tail) == model::positions(layout).len(),
        header_containers(serialized(layout) + tail) == container_count(layout),
{
    let bytes = serialized(layout) + tail;
    let n = container_count(layout) as int;
    let m = layout.len() as int;
    lemma_serialized_header(layout, tail);
    assert((payloads(layout) + tail).take(payloads(layout).len() as int) =~= payloads(layout));
    assert forall|i: int| 0 <= i < m implies (#[trigger] layout[i]).key < n by {
        if i < m - 1 {
            assert(layout[i].key < layout[m - 1].key);
        }
    }
    lemma_parse_prefix(bytes, layout, n, m);
    assert(layout.take(m) =~= layout);
}

/// Deserializing what was serialized gives the same containers back, and the
/// header states their count and the number of positions.
pub proof fn deserialize_undoes_serialize(layout: Seq<model::Block>)
    requires
        model::valid(layout),
        serializable(layout),
    ensures
        readable(serialized(layout)),
        parsed(serialized(layout)) == layout,
        header_cardinality(serialized(layout)) == model::positions(layout).len(),
        header_containers(serialized(layout)) == container_count(layout),
{
    deserialize_ignores_what_follows(layout, Seq::empty());
    assert(serialized(layout) + Seq::<u8>::empty() =~= serialized(layout));
}

/// An index is a key of the containers read where its descriptor is not 0, and
/// the container is the one at that index.
pub(crate) proof fn lemma_parsed_at(bytes: Seq<u8>, count: int, index: int)
    requires
        readable(bytes),
        0 <= count <= descriptor_bytes(bytes).len(),
        0 <= index < count,
    ensures
        descriptor_bytes(bytes)[index] != 0 ==> exists|i: int|
            0 <= i < parsed_up_to(bytes, count).len() && #[trigger] parsed_up_to(bytes, count)[i]
                == (model::Block { key: index as u32, payload: payload_at(bytes, index) }),
        descriptor_bytes(bytes)[index] == 0 ==> forall|i: int|
            0 <= i < parsed_up_to(bytes, count).len() ==> (#[trigger] parsed_up_to(
                bytes,
                count,
            )[i]).key != index,
    decreases count,
{
    let all = parsed_up_to(bytes, count);
    let before = parsed_up_to(bytes, count - 1);
    let block = model::Block { key: index as u32, payload: payload_at(bytes, index) };
    lemma_decoded_len(bytes.skip(HEADER_SIZE as int), header_containers(bytes));
    lemma_parsed_valid(bytes, count - 1);
    if index == count - 1 {
        if descriptor_bytes(bytes)[index] != 0 {
            assert(all[all.len() - 1] == block);
        }
    } else {
        lemma_parsed_at(bytes, count - 1, index);
        if descriptor_bytes(bytes)[index] != 0 {
            let i = choose|i: int| 0 <= i < before.len() && #[trigger] before[i] == block;
            assert(all[i] == block);
        } else {
            assert forall|i: int| 0 <= i < all.len() implies (#[trigger] all[i]).key != index by {
                if i < before.len() {
                    assert(all[i] == before[i]);
                }
            }
        }
    }
}

/// A position is set in what is read where its container holds it.
pub(crate) proof fn lemma_parsed_members(bytes: Seq<u8>, pos: u32)
    requires
        readable(bytes),
    ensures
        ({
            let index = pos as int / 256;
            let d = descriptor_bytes(bytes);
            &&& model::members(parsed(bytes)).contains(pos) == (index < d.len() && payload_at(
                bytes,
                index,
            ).holds(pos as int % 256))
            &&& model::sorted(parsed(bytes)) && index < d.len() ==> payload_at(
                bytes,
                index,
            ).sorted()
        }),
{
    let index = pos as int / 256;
    let d = descriptor_bytes(bytes);
    let all = parsed(bytes);
    lemma_parsed_valid(bytes, d.len() as int);
    model::lemma_positions_contain(all, pos);
    if index < d.len() {
        lemma_parsed_at(bytes, d.len() as int, index);
        let block = model::Block { key: index as u32, payload: payload_at(bytes, index) };
        if d[index] != 0 {
            let i = choose|i: int| 0 <= i < all.len() && #[trigger] all[i] == block;
            model::lemma_is_set_at(all, i, pos as int % 256);
        } else {
            assert(!model::dense_descriptor(0));
            lemma_payload_range(bytes, index);
            assert(block.payload.offsets().len() == 0);
        }
    }
}

/// The payload of a container that can be read lies within the bytes.
pub(crate) proof fn lemma_payload_range(bytes: Seq<u8>, index: int)
    requires
        readable(bytes),
        0 <= index < descriptor_bytes(bytes).len(),
    ensures
        0 <= offset_of(bytes, index),
        offset_of(bytes, index + 1) == offset_of(bytes, index) + container_size(
            descriptor_bytes(bytes)[index],
        ),
        offset_of(bytes, index + 1) <= bytes.len(),
{
    let d = descriptor_bytes(bytes);
    lemma_total_size_step(d, index);
    lemma_total_size_monotone(d, index + 1, d.len() as int);
    lemma_pfor_size(bytes.skip(HEADER_SIZE as int), header_containers(bytes));
}

/// A bit of a dense container is a bit of the bytes it is read from.
pub(crate) proof fn lemma_dense_payload(bytes: Seq<u8>, index: int, offset: int)
    requires
        readable(bytes),
        0 <= index < descriptor_bytes(bytes).len(),
        model::dense_descriptor(descriptor_bytes(bytes)[index] as nat),
        0 <= offset < 256,
    ensures
        payload_at(bytes, index).holds(offset) == bits::byte_bit(
            bytes,
            8 * offset_of(bytes, index) + offset,
        ),
{
    lemma_payload_range(bytes, index);
    let start = offset_of(bytes, index);
    let payload = payload_at(bytes, index).bytes();
    model::lemma_dense_has(payload, offset);
    let j = 8 * start + offset;
    assert(j / 8 == start + offset / 8 && j % 8 == offset % 8);
}

/// A container's key is at least the number of containers before it.
proof fn lemma_key_bound(layout: Seq<model::Block>, i: int)
    requires
        model::valid(layout),
        0 <= i < layout.len(),
    ensures
        i <= layout[i].key,
    decreases i,
{
    if i > 0 {
        lemma_key_bound(layout, i - 1);
        assert(layout[i - 1].key < layout[i].key);
    }
}

/// The limit on containers implies the one on positions: a bitmap with no
/// container index beyond the limit can be serialized.
pub proof fn container_limit_suffices(layout: Seq<model::Block>)
    requires
        model::valid(layout),
    ensures
        layout.len() <= container_count(layout),
        serializable(layout) == (container_count(layout) <= MAX_CONTAINERS),
{
    model::lemma_positions_len(layout);
    if layout.len() > 0 {
        lemma_key_bound(layout, layout.len() - 1);
    }
}

/// Positions below a limit lie in the containers up to that limit.
pub(crate) proof fn lemma_container_count(layout: Seq<model::Block>, limit: int)
    requires
        model::canonical(layout),
        limit >= 0,
        forall|pos: u32| #[trigger] model::members(layout).contains(pos) ==> pos < limit,
    ensures
        256 * container_count(layout) < limit + 256,
{
    if layout.len() > 0 {
        let last = layout.len() - 1;
        let payload = layout[last].payload;
        assert(payload.canonical());
        assert(payload.offsets().len() > 0);
        let offset = payload.offsets()[0];
        model::lemma_offsets_range(payload);
        assert(payload.holds(offset));
        model::lemma_is_set_at(layout, last, offset);
        let pos = (256 * layout[last].key + offset) as u32;
        model::lemma_positions_contain(layout, pos);
        assert(model::members(layout).contains(pos));
    }
}

/// A bitmap can be serialized if and only if its positions are below 2097152,
/// the first position beyond the last container index.
pub proof fn serializable_positions(layout: Seq<model::Block>)
    requires
        model::canonical(layout),
    ensures
        serializable(layout) <==> forall|pos: u32| #[trigger]
            model::members(layout).contains(pos) ==> pos < MAX_CARDINALITY,
{
    container_limit_suffices(layout);
    if serializable(layout) {
        assert forall|pos: u32| #[trigger] model::members(layout).contains(pos) implies pos
            < MAX_CARDINALITY by {
            model::lemma_positions_contain(layout, pos);
            let i = choose|i: int|
                0 <= i < layout.len() && (#[trigger] layout[i]).key == pos / 256
                    && layout[i].payload.holds(pos as int % 256);
            let last = layout.len() - 1;
            if i < last {
                assert(layout[i].key < layout[last].key);
            }
        }
    }
    if forall|pos: u32| #[trigger] model::members(layout).contains(pos) ==> pos < MAX_CARDINALITY {
        lemma_container_count(layout, MAX_CARDINALITY as int);
    }
}

/// Length of the payloads of canonical containers.
proof fn lemma_payloads_len(layout: Seq<model::Block>)
    requires
        model::canonical(layout),
    ensures
        payloads(layout).len() <= model::DENSE_CONTAINER_SIZE * layout.len(),
    decreases layout.len(),
{
    if layout.len() > 0 {
        let rest = layout.drop_last();
        assert(model::canonical(rest)) by {
            assert(forall|i: int| 0 <= i < rest.len() ==> rest[i] == layout[i]);
        }
        lemma_payloads_len(rest);
        assert(layout[layout.len() - 1] == layout.last());
    }
}

/// A serialized bitmap takes a header, at most four bytes for each container
/// index and at most 32 for each container.
pub proof fn serialized_within_bound(layout: Seq<model::Block>)
    requires
        model::canonical(layout),
    ensures
        serialized(layout).len() <= HEADER_SIZE + 4 * container_count(layout)
            + model::DENSE_CONTAINER_SIZE * layout.len(),
{
    lemma_payloads_len(layout);
    let d = descriptors(layout);
    assert forall|i: int| 0 <= i < d.len() implies #[trigger] d[i] < 256 by {
        lemma_descriptors_fit(layout, i);
    }
    pfor::encoded_within_estimate(d);
    assert(header(model::positions(layout).len(), container_count(layout)).len() == HEADER_SIZE);
}

} // verus!
