//! What bitmaps and their serialized form are, in terms of positions, bytes and
//! arithmetic alone.

use crate::bits;
use crate::codec_laws;
use crate::model;
use crate::pfor;
use crate::reader;
use crate::wire;
use vstd::prelude::*;

verus! {

/// A sparse container is a list of its positions, one byte each.
pub proof fn sparse_container(list: Seq<u8>)
    ensures
        model::Payload::Sparse(list).bytes() == list,
        model::Payload::Sparse(list).offsets().len() == list.len(),
        forall|i: int|
            0 <= i < list.len() ==> #[trigger] model::Payload::Sparse(list).offsets()[i] == list[i],
        model::Payload::Sparse(list).sorted() <==> forall|i: int, j: int|
            0 <= i < j < list.len() ==> list[i] <= list[j],
{
}

/// A dense container has a bit for each of 256 positions, that of position 0
/// being the most significant bit of its first byte, and lists the positions
/// whose bits are set in ascending order.
pub proof fn dense_container(bytes: Seq<u8>, offset: int)
    requires
        bytes.len() == 32,
    ensures
        model::Payload::Dense(bytes).bytes() == bytes,
        model::Payload::Dense(bytes).sorted(),
        model::Payload::Dense(bytes).offsets().contains(offset) <==> 0 <= offset < 256 && (
        bytes[offset / 8] >> (7 - offset % 8)) & 1 == 1,
        forall|i: int, j: int|
            0 <= i < j < model::Payload::Dense(bytes).offsets().len()
                ==> #[trigger] model::Payload::Dense(bytes).offsets()[i]
                < #[trigger] model::Payload::Dense(bytes).offsets()[j],
{
    model::lemma_dense_has(bytes, offset);
    model::lemma_dense_ascending(bytes);
    assert(model::Payload::Dense(bytes).holds(offset)
        == model::Payload::Dense(bytes).offsets().contains(offset));
    if 0 <= offset < 256 {
        codec_laws::byte_bit_by_shifting(bytes, offset);
    }
}

/// A bitmap lists the positions of container after container.
pub proof fn positions_by_containers(a: Seq<model::Block>, b: Seq<model::Block>)
    ensures
        model::positions(a + b) == model::positions(a) + model::positions(b),
        model::positions(Seq::<model::Block>::empty()) == Seq::<u32>::empty(),
    decreases b.len(),
{
    if b.len() == 0 {
        assert(a + b =~= a);
        assert(model::positions(a) + model::positions(b) =~= model::positions(a));
    } else {
        positions_by_containers(a, b.drop_last());
        assert((a + b).drop_last() =~= a + b.drop_last());
        assert(model::positions(a + b) =~= model::positions(a) + model::positions(b));
    }
}

/// The positions of a container are its key times 256 plus the positions within
/// it, and the bitmap's set holds exactly what the bitmap lists.
pub proof fn positions_of_container(block: model::Block)
    requires
        block.key < 16_777_216,
    ensures
        model::positions(seq![block]).len() == block.payload.offsets().len(),
        forall|i: int|
            0 <= i < block.payload.offsets().len() ==> #[trigger] model::positions(seq![block])[i]
                == 256 * block.key + block.payload.offsets()[i],
{
    let one = seq![block];
    assert(one.drop_last() =~= Seq::<model::Block>::empty());
    assert(model::positions(one.drop_last()) =~= Seq::<u32>::empty());
    assert(model::positions(one) =~= block.positions());
    model::lemma_offsets_range(block.payload);
    assert forall|i: int| 0 <= i < block.payload.offsets().len() implies #[trigger] model::positions(
        one,
    )[i] == 256 * block.key + block.payload.offsets()[i] by {
        assert(0 <= block.payload.offsets()[i] < 256);
    }
}

/// The set of a bitmap holds what the bitmap lists, and nothing else.
pub proof fn members_are_listed(layout: Seq<model::Block>, pos: u32)
    ensures
        model::members(layout).contains(pos) <==> exists|i: int|
            0 <= i < model::positions(layout).len() && model::positions(layout)[i] == pos,
{
}

/// The payloads of containers follow each other.
pub proof fn payloads_by_containers(a: Seq<model::Block>, b: Seq<model::Block>)
    ensures
        wire::payloads(a + b) == wire::payloads(a) + wire::payloads(b),
        wire::payloads(Seq::<model::Block>::empty()) == Seq::<u8>::empty(),
        b.len() == 1 ==> wire::payloads(b) == b[0].payload.bytes(),
    decreases b.len(),
{
    if b.len() == 0 {
        assert(a + b =~= a);
        assert(wire::payloads(a) + wire::payloads(b) =~= wire::payloads(a));
    } else {
        payloads_by_containers(a, b.drop_last());
        assert((a + b).drop_last() =~= a + b.drop_last());
        assert(wire::payloads(a + b) =~= wire::payloads(a) + wire::payloads(b));
        if b.len() == 1 {
            assert(wire::payloads(b) =~= b[0].payload.bytes());
        }
    }
}

/// The modelled size in memory is that of the serialized payloads and two bytes
/// for each container.
pub proof fn footprint_is_payloads_and_keys(layout: Seq<model::Block>)
    ensures
        model::footprint(layout) == 2 * layout.len() + wire::payloads(layout).len(),
    decreases layout.len(),
{
    if layout.len() > 0 {
        footprint_is_payloads_and_keys(layout.drop_last());
    }
}

/// A serialized bitmap begins with the version, the number of positions and the
/// number of container indices, each number with its low byte first. Then come
/// the encoded descriptors, one for each container index up to the last
/// container: 32 for a dense container, the number of positions for a sparse
/// one, 0 where there is none. Then come the payloads.
pub proof fn serialized_bytes(layout: Seq<model::Block>, d: Seq<u32>)
    requires
        model::valid(layout),
        model::positions(layout).len() < 16_777_216,
        d.len() < 65536,
        layout.len() == 0 ==> d.len() == 0,
        layout.len() > 0 ==> d.len() == layout.last().key + 1,
        forall|i: int|
            0 <= i < layout.len() ==> d[(#[trigger] layout[i]).key as int]
                == match layout[i].payload {
                model::Payload::Sparse(list) => list.len() as int,
                model::Payload::Dense(_) => 32,
            },
        forall|k: int|
            0 <= k < d.len() && (forall|i: int|
                0 <= i < layout.len() ==> (#[trigger] layout[i]).key != k) ==> #[trigger] d[k] == 0,
    ensures
        ({
            let out = wire::serialized(layout);
            &&& out.len() >= 6
            &&& out[0] == 1
            &&& out[1] + 256 * out[2] + 65536 * out[3] == model::positions(layout).len()
            &&& out[4] + 256 * out[5] == d.len()
            &&& out.skip(6) == pfor::encoded(d) + wire::payloads(layout)
        }),
{
    let out = wire::serialized(layout);
    let count = model::positions(layout).len();
    let head = wire::header(count, d.len());
    assert(wire::container_count(layout) == d.len());
    let ds = wire::descriptors(layout);
    assert forall|k: int| 0 <= k < d.len() implies ds[k] == d[k] by {
        if exists|i: int| 0 <= i < layout.len() && (#[trigger] layout[i]).key == k {
            let i = choose|i: int| 0 <= i < layout.len() && (#[trigger] layout[i]).key == k;
            wire::lemma_descriptor_found(layout, i);
        } else {
            assert(forall|i: int| 0 <= i < layout.len() ==> (#[trigger] layout[i]).key != k);
            wire::lemma_descriptor_absent(layout, k);
            assert(d[k] == 0);
        }
    }
    assert(ds =~= d);
    let rest = pfor::encoded(d) + wire::payloads(layout);
    assert(out =~= head + rest);
    assert(out[0] == head[0] && out[1] == head[1] && out[2] == head[2]);
    assert(out[3] == head[3] && out[4] == head[4] && out[5] == head[5]);
    assert(out.skip(6) =~= rest);
}

/// Where the containers of serialized bytes begin: after the header and the
/// encoded descriptors, each after the one before. A container whose descriptor
/// byte has `001` as its three most significant bits takes 32 bytes, any other as
/// many as its descriptor byte says.
proof fn lemma_offsets(bytes: Seq<u8>, at: Seq<int>, k: int)
    requires
        ({
            let n = (bytes[4] + 256 * bytes[5]) as nat;
            let d = pfor::decoded(bytes.skip(6), n);
            &&& at.len() == n + 1
            &&& at[0] == 6 + pfor::encoded_size(bytes.skip(6), n)
            &&& forall|i: int|
                0 <= i < n ==> at[i + 1] == at[i] + if (#[trigger] d[i] % 256) / 32 == 1 {
                    32
                } else {
                    d[i] as int % 256
                }
            &&& 0 <= k <= n
        }),
    ensures
        at[k] == wire::offset_of(bytes, k),
        wire::descriptor_bytes(bytes).len() == bytes[4] + 256 * bytes[5],
        forall|i: int|
            0 <= i < wire::descriptor_bytes(bytes).len()
                ==> #[trigger] wire::descriptor_bytes(bytes)[i] == pfor::decoded(
                bytes.skip(6),
                (bytes[4] + 256 * bytes[5]) as nat,
            )[i] % 256,
    decreases k,
{
    let n = (bytes[4] + 256 * bytes[5]) as nat;
    let d = pfor::decoded(bytes.skip(6), n);
    let ds = wire::descriptor_bytes(bytes);
    wire::lemma_decoded_len(bytes.skip(6), n);
    if k == 0 {
        assert(ds.take(0).len() == 0);
    } else {
        lemma_offsets(bytes, at, k - 1);
        wire::lemma_total_size_step(ds, k - 1);
        assert(ds[k - 1] == d[k - 1] % 256);
        assert(at[k] == at[k - 1 + 1]);
    }
}

/// Serialized bytes can be read where the header with the right version, the
/// encoded descriptors and all payloads are there, and only there.
pub proof fn readable_bytes(bytes: Seq<u8>, at: Seq<int>)
    requires
        ({
            let n = (bytes[4] + 256 * bytes[5]) as nat;
            let d = pfor::decoded(bytes.skip(6), n);
            &&& at.len() == n + 1
            &&& at[0] == 6 + pfor::encoded_size(bytes.skip(6), n)
            &&& forall|i: int|
                0 <= i < n ==> at[i + 1] == at[i] + if (#[trigger] d[i] % 256) / 32 == 1 {
                    32
                } else {
                    d[i] as int % 256
                }
        }),
    ensures
        wire::readable(bytes) <==> {
            &&& bytes.len() >= 6
            &&& bytes[0] == 1
            &&& pfor::readable(bytes.skip(6), (bytes[4] + 256 * bytes[5]) as nat)
            &&& at.last() <= bytes.len()
        },
{
    let n = (bytes[4] + 256 * bytes[5]) as int;
    lemma_offsets(bytes, at, n);
}

/// What is read from serialized bytes: for each container index whose descriptor
/// byte is not 0 one container, dense or sparse as the descriptor byte says, made
/// of the bytes of its place.
pub proof fn parsed_containers(bytes: Seq<u8>, at: Seq<int>, k: int)
    requires
        wire::readable(bytes),
        ({
            let n = (bytes[4] + 256 * bytes[5]) as nat;
            let d = pfor::decoded(bytes.skip(6), n);
            &&& at.len() == n + 1
            &&& at[0] == 6 + pfor::encoded_size(bytes.skip(6), n)
            &&& forall|i: int|
                0 <= i < n ==> at[i + 1] == at[i] + if (#[trigger] d[i] % 256) / 32 == 1 {
                    32
                } else {
                    d[i] as int % 256
                }
            &&& 0 <= k < n
        }),
    ensures
        ({
            let n = (bytes[4] + 256 * bytes[5]) as nat;
            let d = pfor::decoded(bytes.skip(6), n)[k] % 256;
            let layout = wire::parsed(bytes);
            let place = bytes.subrange(at[k], at[k + 1]);
            &&& forall|i: int| 0 <= i < layout.len() ==> (#[trigger] layout[i]).key < n
            &&& forall|i: int, j: int|
                0 <= i < j < layout.len() ==> (#[trigger] layout[i]).key < (#[trigger] layout[j]).key
            &&& d == 0 ==> forall|i: int|
                0 <= i < layout.len() ==> (#[trigger] layout[i]).key != k
            &&& d != 0 ==> exists|i: int|
                0 <= i < layout.len() && (#[trigger] layout[i]).key == k && layout[i].payload == if d
                    / 32 == 1 {
                    model::Payload::Dense(place)
                } else {
                    model::Payload::Sparse(place)
                }
        }),
{
    let n = (bytes[4] + 256 * bytes[5]) as int;
    let ds = wire::descriptor_bytes(bytes);
    lemma_offsets(bytes, at, k);
    lemma_offsets(bytes, at, k + 1);
    wire::lemma_parsed_valid(bytes, n);
    wire::lemma_parsed_at(bytes, n, k);
    wire::lemma_payload_range(bytes, k);
    if ds[k] != 0 {
        let block = model::Block { key: k as u32, payload: wire::payload_at(bytes, k) };
        let layout = wire::parsed(bytes);
        let i = choose|i: int| 0 <= i < layout.len() && #[trigger] layout[i] == block;
        assert(layout[i].key == k);
    }
}

/// A position is set in serialized bytes where its container, found by the
/// descriptors, has its bit set or lists it.
pub proof fn parsed_positions(bytes: Seq<u8>, at: Seq<int>, pos: u32)
    requires
        wire::readable(bytes),
        ({
            let n = (bytes[4] + 256 * bytes[5]) as nat;
            let d = pfor::decoded(bytes.skip(6), n);
            &&& at.len() == n + 1
            &&& at[0] == 6 + pfor::encoded_size(bytes.skip(6), n)
            &&& forall|i: int|
                0 <= i < n ==> at[i + 1] == at[i] + if (#[trigger] d[i] % 256) / 32 == 1 {
                    32
                } else {
                    d[i] as int % 256
                }
        }),
    ensures
        ({
            let n = (bytes[4] + 256 * bytes[5]) as nat;
            let d = pfor::decoded(bytes.skip(6), n);
            let k = pos as int / 256;
            let q = pos as int % 256;
            model::members(wire::parsed(bytes)).contains(pos) <==> k < n && if (d[k] % 256) / 32
                == 1 {
                (bytes[at[k] + q / 8] >> (7 - q % 8)) & 1 == 1
            } else {
                exists|j: int| at[k] <= j < at[k + 1] && #[trigger] bytes[j] == q
            }
        }),
{
    let n = (bytes[4] + 256 * bytes[5]) as nat;
    let d = pfor::decoded(bytes.skip(6), n);
    let k = pos as int / 256;
    let q = pos as int % 256;
    wire::lemma_parsed_members(bytes, pos);
    lemma_offsets(bytes, at, 0);
    if k < n {
        lemma_offsets(bytes, at, k);
        lemma_offsets(bytes, at, k + 1);
        wire::lemma_payload_range(bytes, k);
        let place = bytes.subrange(at[k], at[k + 1]);
        if (d[k] % 256) / 32 == 1 {
            dense_container(place, q);
            assert(place[q / 8] == bytes[at[k] + q / 8]);
        } else {
            sparse_container(place);
            model::lemma_sparse_has(place, q as u8);
            if place.contains(q as u8) {
                let i = choose|i: int| 0 <= i < place.len() && place[i] == q as u8;
                assert(bytes[at[k] + i] == q);
            }
            if exists|j: int| at[k] <= j < at[k + 1] && #[trigger] bytes[j] == q {
                let j = choose|j: int| at[k] <= j < at[k + 1] && #[trigger] bytes[j] == q;
                assert(place[j - at[k]] == q as u8);
            }
        }
    }
}

/// What a bitmap lists, if it is the one prescribed for an ascending list of
/// positions: that list.
pub proof fn positions_of_list(list: Seq<u32>)
    requires
        forall|i: int, j: int| 0 <= i < j < list.len() ==> #[trigger] list[i] < #[trigger] list[j],
    ensures
        model::positions(model::layout_of(list.to_set())) == list,
        model::members(model::layout_of(list.to_set())) == list.to_set(),
{
    let layout = model::layout_of(list.to_set());
    model::canonical_form_exists(list.to_set());
    model::canonical_positions_ascend(layout);
    model::lemma_strictly_ascending_unique(model::positions(layout), list);
}

/// The container that a bitmap has for a key, if it is the one prescribed for an
/// ascending list: it lists the group of the list's positions with that key.
proof fn lemma_container_of_list(list: Seq<u32>, group: Seq<u32>, i: int)
    requires
        0 <= i < model::layout_of(list.to_set()).len(),
        forall|a: int, b: int| 0 <= a < b < group.len() ==> #[trigger] group[a] < #[trigger] group[b],
        forall|p: u32| #[trigger]
            group.contains(p) == (list.contains(p) && p / 256 == model::layout_of(
                list.to_set(),
            )[i].key),
    ensures
        ({
            let block = model::layout_of(list.to_set())[i];
            &&& block.payload.canonical()
            &&& block.payload.offsets().len() == group.len()
            &&& group.len() > 0
            &&& forall|j: int|
                0 <= j < group.len() ==> #[trigger] block.payload.offsets()[j] == group[j] % 256
            &&& forall|q: int|
                0 <= q < 256 ==> #[trigger] block.payload.holds(q) == list.contains(
                    (256 * block.key + q) as u32,
                )
        }),
{
    let set = list.to_set();
    let layout = model::layout_of(set);
    let block = layout[i];
    model::canonical_form_exists(set);
    let offsets = block.payload.offsets();
    let low = group.map_values(|p: u32| p as int % 256);
    model::lemma_offsets_range(block.payload);
    assert forall|q: int| 0 <= q < 256 implies #[trigger] block.payload.holds(q) == list.contains(
        (256 * block.key + q) as u32,
    ) by {
        let pos = (256 * block.key + q) as u32;
        model::lemma_is_set_at(layout, i, q);
        model::lemma_positions_contain(layout, pos);
        assert(set.contains(pos) == list.contains(pos));
    }
    assert forall|q: int| #[trigger] offsets.contains(q) == low.contains(q) by {
        assert(block.payload.holds(q) == offsets.contains(q));
        if offsets.contains(q) {
            let pos = (256 * block.key + q) as u32;
            assert(block.key < model::KEY_LIMIT);
            assert(pos / 256 == block.key && pos as int % 256 == q);
            assert(group.contains(pos));
            let j = choose|j: int| 0 <= j < group.len() && group[j] == pos;
            assert(low[j] == q);
        }
        if low.contains(q) {
            let j = choose|j: int| 0 <= j < low.len() && low[j] == q;
            assert(group.contains(group[j]));
            assert((256 * block.key + q) as u32 == group[j]);
        }
    }
    assert forall|a: int, b: int| 0 <= a < b < low.len() implies #[trigger] low[a]
        < #[trigger] low[b] by {
        assert(group[a] < group[b]);
        assert(group.contains(group[a]) && group.contains(group[b]));
    }
    assert(block.payload.canonical());
    model::lemma_ascending_unique(offsets, low);
    assert(offsets.len() == low.len() && low.len() == group.len());
    assert(block.payload.valid());
    assert forall|j: int| 0 <= j < group.len() implies #[trigger] offsets[j] == group[j] % 256 by {
        assert(low[j] == group[j] as int % 256);
    }
}

/// Where a bitmap has no container for a key, the list has no position with it.
proof fn lemma_no_container_of_list(list: Seq<u32>, group: Seq<u32>, k: int)
    requires
        forall|p: u32| #[trigger] group.contains(p) == (list.contains(p) && p / 256 == k),
        forall|i: int|
            0 <= i < model::layout_of(list.to_set()).len() ==> (#[trigger] model::layout_of(
                list.to_set(),
            )[i]).key != k,
    ensures
        group.len() == 0,
{
    let set = list.to_set();
    let layout = model::layout_of(set);
    model::canonical_form_exists(set);
    if group.len() > 0 {
        let pos = group[0];
        assert(group.contains(pos));
        assert(set.contains(pos));
        model::lemma_positions_contain(layout, pos);
        let i = choose|i: int|
            0 <= i < layout.len() && (#[trigger] layout[i]).key == pos / 256
                && layout[i].payload.holds(pos as int % 256);
        assert(layout[i].key == k);
    }
}

/// Running totals over the keys: of the payloads' sizes and of the containers.
proof fn lemma_totals(
    layout: Seq<model::Block>,
    sizes: Seq<int>,
    at: Seq<int>,
    used: Seq<int>,
    m: int,
    j: int,
)
    requires
        model::valid(layout),
        at.len() == sizes.len() + 1,
        used.len() == sizes.len() + 1,
        at[0] == 0,
        used[0] == 0,
        forall|k: int| 0 <= k < sizes.len() ==> at[k + 1] == at[k] + #[trigger] sizes[k],
        forall|k: int|
            0 <= k < sizes.len() ==> used[k + 1] == used[k] + if #[trigger] sizes[k] > 0 {
                1int
            } else {
                0
            },
        forall|i: int|
            0 <= i < layout.len() ==> (#[trigger] layout[i]).key < sizes.len()
                && sizes[layout[i].key as int] == layout[i].payload.bytes().len(),
        forall|k: int|
            0 <= k < sizes.len() && (forall|i: int|
                0 <= i < layout.len() ==> (#[trigger] layout[i]).key != k) ==> #[trigger] sizes[k]
                == 0,
        0 <= m <= sizes.len(),
        0 <= j <= layout.len(),
        forall|i: int| 0 <= i < j ==> (#[trigger] layout[i]).key < m,
        forall|i: int| j <= i < layout.len() ==> (#[trigger] layout[i]).key >= m,
    ensures
        at[m] == wire::payloads(layout.take(j)).len(),
        used[m] == j,
    decreases m,
{
    if m == 0 {
        assert(j == 0) by {
            if j > 0 {
                assert(layout[0].key < 0);
            }
        }
    } else {
        let k = m - 1;
        assert(at[k + 1] == at[k] + sizes[k]);
        if j > 0 && layout[j - 1].key == k {
            assert forall|i: int| 0 <= i < j - 1 implies (#[trigger] layout[i]).key < k by {
                assert(layout[i].key < layout[j - 1].key);
            }
            lemma_totals(layout, sizes, at, used, k, j - 1);
            assert(layout.take(j).drop_last() =~= layout.take(j - 1));
            assert(layout[j - 1].payload.valid());
        } else {
            assert forall|i: int| 0 <= i < j implies (#[trigger] layout[i]).key < k by {
                if i < j - 1 {
                    assert(layout[i].key < layout[j - 1].key);
                }
            }
            lemma_totals(layout, sizes, at, used, k, j);
            assert forall|i: int| 0 <= i < layout.len() implies (#[trigger] layout[i]).key
                != k by {
                if i >= j {
                    assert(layout[i].key >= m);
                }
            }
            assert(sizes[k] == 0);
        }
    }
}

/// The keys of a bitmap of an ascending list are those of the list's positions.
proof fn lemma_keys_of_list(list: Seq<u32>)
    requires
        forall|i: int, j: int| 0 <= i < j < list.len() ==> #[trigger] list[i] < #[trigger] list[j],
    ensures
        ({
            let layout = model::layout_of(list.to_set());
            &&& model::canonical(layout)
            &&& layout.len() == 0 <==> list.len() == 0
            &&& list.len() > 0 ==> layout.last().key == list.last() / 256
            &&& forall|i: int|
                0 <= i < layout.len() ==> (#[trigger] layout[i]).key <= list.last() / 256
        }),
{
    let layout = model::layout_of(list.to_set());
    model::canonical_form_exists(list.to_set());
    positions_of_list(list);
    if list.len() > 0 {
        let pos = list.last();
        assert(list.contains(list[list.len() - 1]));
        model::lemma_positions_contain(layout, pos);
        let l = choose|l: int|
            0 <= l < layout.len() && (#[trigger] layout[l]).key == pos / 256
                && layout[l].payload.holds(pos as int % 256);
        assert forall|i: int| 0 <= i < layout.len() implies (#[trigger] layout[i]).key <= pos
            / 256 by {
            let payload = layout[i].payload;
            assert(payload.canonical());
            let offset = payload.offsets()[0];
            model::lemma_offsets_range(payload);
            assert(payload.holds(offset));
            model::lemma_is_set_at(layout, i, offset);
            let p = (256 * layout[i].key + offset) as u32;
            model::lemma_positions_contain(layout, p);
            assert(list.contains(p));
            let x = choose|x: int| 0 <= x < list.len() && list[x] == p;
            if x < list.len() - 1 {
                assert(list[x] < list[list.len() - 1]);
            }
        }
        let last = layout.len() - 1;
        if l < last {
            assert(layout[l].key < layout[last].key);
        }
    } else {
        if layout.len() > 0 {
            model::lemma_empty(layout);
            assert(list.to_set() =~= Set::<u32>::empty());
        }
    }
}

/// The modelled size in memory of a bitmap: for each key of one of its positions
/// two bytes, and as many more as there are positions with that key, up to 32.
///
/// `list` are the bitmap's positions in ascending order, `groups[k]` those with
/// key `k`, and `total[k]` is the size of the containers before key `k`.
pub proof fn footprint_of_list(list: Seq<u32>, groups: Seq<Seq<u32>>, total: Seq<int>)
    requires
        forall|i: int, j: int| 0 <= i < j < list.len() ==> #[trigger] list[i] < #[trigger] list[j],
        groups.len() == if list.len() == 0 {
            0
        } else {
            list.last() as int / 256 + 1
        },
        forall|k: int, i: int, j: int|
            0 <= k < groups.len() && 0 <= i < j < groups[k].len() ==> #[trigger] groups[k][i]
                < #[trigger] groups[k][j],
        forall|k: int, p: u32|
            0 <= k < groups.len() ==> (#[trigger] groups[k].contains(p) <==> list.contains(p) && p
                / 256 == k),
        total.len() == groups.len() + 1,
        total[0] == 0,
        forall|k: int|
            0 <= k < groups.len() ==> total[k + 1] == total[k] + if (#[trigger] groups[k]).len()
                == 0 {
                0
            } else if groups[k].len() < 32 {
                2 + groups[k].len() as int
            } else {
                34
            },
    ensures
        model::footprint(model::layout_of(list.to_set())) == total.last(),
{
    let layout = model::layout_of(list.to_set());
    let n = groups.len();
    lemma_keys_of_list(list);
    let sizes = Seq::new(
        n,
        |k: int|
            if groups[k].len() < 32 {
                groups[k].len() as int
            } else {
                32
            },
    );
    lemma_group_sizes(list, groups, sizes);
    let at = lemma_running(sizes);
    let ones = Seq::new(
        n,
        |k: int|
            if sizes[k] > 0 {
                1int
            } else {
                0
            },
    );
    let used = lemma_running(ones);
    assert forall|k: int| 0 <= k < sizes.len() implies used[k + 1] == used[k]
        + if #[trigger] sizes[k] > 0 {
        1int
    } else {
        0
    } by {
        assert(used[k + 1] == used[k] + ones[k]);
    }
    lemma_totals(layout, sizes, at, used, n as int, layout.len() as int);
    assert(layout.take(layout.len() as int) =~= layout);
    footprint_is_payloads_and_keys(layout);
    assert forall|k: int| 0 <= k <= n implies #[trigger] total[k] == at[k] + 2 * used[k] by {
        lemma_total_splits(groups, sizes, at, used, total, k);
    }
}

/// The payload of a key takes a byte for each position of its group, up to 32.
proof fn lemma_group_sizes(list: Seq<u32>, groups: Seq<Seq<u32>>, sizes: Seq<int>)
    requires
        forall|i: int, j: int| 0 <= i < j < list.len() ==> #[trigger] list[i] < #[trigger] list[j],
        groups.len() == if list.len() == 0 {
            0
        } else {
            list.last() as int / 256 + 1
        },
        forall|k: int, i: int, j: int|
            0 <= k < groups.len() && 0 <= i < j < groups[k].len() ==> #[trigger] groups[k][i]
                < #[trigger] groups[k][j],
        forall|k: int, p: u32|
            0 <= k < groups.len() ==> (#[trigger] groups[k].contains(p) <==> list.contains(p) && p
                / 256 == k),
        sizes == Seq::new(
            groups.len(),
            |k: int|
                if groups[k].len() < 32 {
                    groups[k].len() as int
                } else {
                    32
                },
        ),
    ensures
        ({
            let layout = model::layout_of(list.to_set());
            &&& forall|i: int|
                0 <= i < layout.len() ==> (#[trigger] layout[i]).key < sizes.len()
                    && sizes[layout[i].key as int] == layout[i].payload.bytes().len()
            &&& forall|k: int|
                0 <= k < sizes.len() && (forall|i: int|
                    0 <= i < layout.len() ==> (#[trigger] layout[i]).key != k)
                    ==> #[trigger] sizes[k] == 0
        }),
{
    let layout = model::layout_of(list.to_set());
    lemma_keys_of_list(list);
    assert forall|i: int| 0 <= i < layout.len() implies (#[trigger] layout[i]).key < sizes.len()
        && sizes[layout[i].key as int] == layout[i].payload.bytes().len() by {
        let k = layout[i].key as int;
        lemma_container_of_list(list, groups[k], i);
        model::canonical_payload_size(layout[i].payload);
    }
    assert forall|k: int|
        0 <= k < sizes.len() && (forall|i: int|
            0 <= i < layout.len() ==> (#[trigger] layout[i]).key != k) implies #[trigger] sizes[k]
        == 0 by {
        lemma_no_container_of_list(list, groups[k], k);
    }
}

/// Running totals of numbers.
proof fn lemma_running(sizes: Seq<int>) -> (at: Seq<int>)
    ensures
        at.len() == sizes.len() + 1,
        at[0] == 0,
        forall|k: int| 0 <= k < sizes.len() ==> at[k + 1] == at[k] + #[trigger] sizes[k],
    decreases sizes.len(),
{
    if sizes.len() == 0 {
        seq![0int]
    } else {
        let rest = sizes.drop_last();
        let before = lemma_running(rest);
        let at = before.push(before.last() + sizes.last());
        assert forall|k: int| 0 <= k < sizes.len() implies at[k + 1] == at[k]
            + #[trigger] sizes[k] by {
            if k < rest.len() {
                assert(before[k + 1] == before[k] + rest[k]);
            }
        }
        at
    }
}

/// A total of payloads and keys is the total of payloads and that of keys.
proof fn lemma_total_splits(
    groups: Seq<Seq<u32>>,
    sizes: Seq<int>,
    at: Seq<int>,
    used: Seq<int>,
    total: Seq<int>,
    k: int,
)
    requires
        sizes == Seq::new(
            groups.len(),
            |k: int|
                if groups[k].len() < 32 {
                    groups[k].len() as int
                } else {
                    32
                },
        ),
        at.len() == sizes.len() + 1,
        used.len() == sizes.len() + 1,
        total.len() == sizes.len() + 1,
        at[0] == 0,
        used[0] == 0,
        total[0] == 0,
        forall|k: int| 0 <= k < sizes.len() ==> at[k + 1] == at[k] + #[trigger] sizes[k],
        forall|k: int|
            0 <= k < sizes.len() ==> used[k + 1] == used[k] + if #[trigger] sizes[k] > 0 {
                1int
            } else {
                0
            },
        forall|k: int|
            0 <= k < groups.len() ==> total[k + 1] == total[k] + if (#[trigger] groups[k]).len()
                == 0 {
                0
            } else if groups[k].len() < 32 {
                2 + groups[k].len() as int
            } else {
                34
            },
        0 <= k <= groups.len(),
    ensures
        total[k] == at[k] + 2 * used[k],
    decreases k,
{
    if k > 0 {
        lemma_total_splits(groups, sizes, at, used, total, k - 1);
        let l = k - 1;
        assert(at[l + 1] == at[l] + sizes[l]);
        assert(groups[l].len() >= 0);
        assert(total[l + 1] == at[l + 1] + 2 * used[l + 1]);
    }
}

/// The bytes of a container of a bitmap of an ascending list: the group's
/// positions within the container, or a bit for each.
proof fn lemma_group_bytes(list: Seq<u32>, group: Seq<u32>, c: Seq<u8>, i: int)
    requires
        0 <= i < model::layout_of(list.to_set()).len(),
        forall|a: int, b: int| 0 <= a < b < group.len() ==> #[trigger] group[a] < #[trigger] group[b],
        forall|p: u32| #[trigger]
            group.contains(p) == (list.contains(p) && p / 256 == model::layout_of(
                list.to_set(),
            )[i].key),
        group.len() < 32 ==> c.len() == group.len() && forall|j: int|
            0 <= j < group.len() ==> #[trigger] c[j] == group[j] % 256,
        group.len() >= 32 ==> c.len() == 32 && forall|q: int|
            0 <= q < 256 ==> ((#[trigger] (c[q / 8] >> (7 - q % 8)) & 1 == 1) <==> list.contains(
                (256 * model::layout_of(list.to_set())[i].key + q) as u32,
            )),
    ensures
        model::layout_of(list.to_set())[i].payload == if group.len() < 32 {
            model::Payload::Sparse(c)
        } else {
            model::Payload::Dense(c)
        },
{
    let block = model::layout_of(list.to_set())[i];
    let payload = block.payload;
    lemma_container_of_list(list, group, i);
    match payload {
        model::Payload::Sparse(l) => {
            assert forall|j: int| 0 <= j < l.len() implies l[j] == c[j] by {
                assert(payload.offsets()[j] == l[j]);
                assert(payload.offsets()[j] == group[j] % 256);
            }
            assert(l =~= c);
        },
        model::Payload::Dense(bytes) => {
            assert(bytes.len() == 32);
            assert forall|q: int| 0 <= q < 8 * bytes.len() implies #[trigger] bits::byte_bit(
                bytes,
                q,
            ) == bits::byte_bit(c, q) by {
                model::lemma_dense_has(bytes, q);
                codec_laws::byte_bit_by_shifting(c, q);
                assert(payload.holds(q) == list.contains((256 * block.key + q) as u32));
                assert((c[q / 8] >> (7 - q % 8)) & 1 == 1 <==> list.contains(
                    (256 * block.key + q) as u32,
                ));
            }
            bits::lemma_same_bits(bytes, c);
        },
    }
}

/// The serialized form of the bitmap of an ascending list of positions.
///
/// It begins with the version, the number of positions in three bytes and the
/// number of container indices in two, low bytes first. Then come the encoded
/// descriptors: for each container index the number of its positions, or 32 where
/// there are 32 or more. Then come the containers: the low byte of each of its
/// positions, or, for 32 positions or more, a bit for each of its 256 positions.
///
/// `groups[k]` are the positions with key `k`, `d[k]` is its descriptor, `c[k]`
/// its container, and `at[k]` where that begins.
pub proof fn serialized_of_list(
    list: Seq<u32>,
    groups: Seq<Seq<u32>>,
    d: Seq<u32>,
    c: Seq<Seq<u8>>,
    at: Seq<int>,
)
    requires
        forall|i: int, j: int| 0 <= i < j < list.len() ==> #[trigger] list[i] < #[trigger] list[j],
        list.len() > 0 ==> list.last() < 2_097_152,
        groups.len() == if list.len() == 0 {
            0
        } else {
            list.last() as int / 256 + 1
        },
        forall|k: int, i: int, j: int|
            0 <= k < groups.len() && 0 <= i < j < groups[k].len() ==> #[trigger] groups[k][i]
                < #[trigger] groups[k][j],
        forall|k: int, p: u32|
            0 <= k < groups.len() ==> (#[trigger] groups[k].contains(p) <==> list.contains(p) && p
                / 256 == k),
        d.len() == groups.len(),
        forall|k: int|
            0 <= k < groups.len() ==> #[trigger] d[k] == if groups[k].len() < 32 {
                groups[k].len() as int
            } else {
                32
            },
        c.len() == groups.len(),
        forall|k: int|
            0 <= k < groups.len() && groups[k].len() < 32 ==> (#[trigger] c[k]).len()
                == groups[k].len(),
        forall|k: int, j: int|
            0 <= k < groups.len() && groups[k].len() < 32 && 0 <= j < groups[k].len()
                ==> #[trigger] c[k][j] == groups[k][j] % 256,
        forall|k: int|
            0 <= k < groups.len() && groups[k].len() >= 32 ==> (#[trigger] c[k]).len() == 32,
        forall|k: int, q: int|
            0 <= k < groups.len() && groups[k].len() >= 32 && 0 <= q < 256 ==> ((#[trigger] (
            c[k][q / 8] >> (7 - q % 8)) & 1 == 1) <==> list.contains((256 * k + q) as u32)),
        at.len() == groups.len() + 1,
        at[0] == 0,
        forall|k: int| 0 <= k < c.len() ==> at[k + 1] == at[k] + (#[trigger] c[k]).len(),
    ensures
        ({
            let out = wire::serialized(model::layout_of(list.to_set()));
            let start = 6 + pfor::encoded(d).len();
            &&& out.len() == start + at.last()
            &&& out[0] == 1
            &&& out[1] + 256 * out[2] + 65536 * out[3] == list.len()
            &&& out[4] + 256 * out[5] == groups.len()
            &&& out.subrange(6, start as int) == pfor::encoded(d)
            &&& forall|k: int|
                0 <= k < c.len() ==> out.subrange(start + at[k], start + at[k + 1])
                    == #[trigger] c[k]
        }),
{
    let layout = model::layout_of(list.to_set());
    let n = groups.len() as int;
    lemma_keys_of_list(list);
    positions_of_list(list);
    lemma_list_len(list);
    assert forall|i: int| 0 <= i < layout.len() implies 0 <= (#[trigger] layout[i]).key < n
        && layout[i].payload.bytes() == c[layout[i].key as int] && d[layout[i].key as int]
        == match layout[i].payload {
        model::Payload::Sparse(l) => l.len() as int,
        model::Payload::Dense(_) => 32,
    } by {
        let k = layout[i].key as int;
        lemma_container_of_list(list, groups[k], i);
        if groups[k].len() >= 32 {
            assert forall|q: int| 0 <= q < 256 implies ((#[trigger] (c[k][q / 8] >> (7 - q % 8)) & 1
                == 1) <==> list.contains((256 * layout[i].key + q) as u32)) by {
                assert(256 * k + q == 256 * layout[i].key + q);
            }
        }
        lemma_group_bytes(list, groups[k], c[k], i);
    }
    assert forall|k: int|
        0 <= k < n && (forall|i: int|
            0 <= i < layout.len() ==> (#[trigger] layout[i]).key != k) implies #[trigger] d[k]
        == 0 by {
        lemma_no_container_of_list(list, groups[k], k);
    }
    assert forall|k: int|
        0 <= k < n && (forall|i: int|
            0 <= i < layout.len() ==> (#[trigger] layout[i]).key != k) implies (#[trigger]
    c[k]).len() == 0 by {
        lemma_no_container_of_list(list, groups[k], k);
    }
    serialized_bytes(layout, d);
    lemma_container_totals(layout, c, at, n, layout.len() as int);
    assert(layout.take(layout.len() as int) =~= layout);
    let out = wire::serialized(layout);
    let body = wire::payloads(layout);
    lemma_after_header(out, pfor::encoded(d), body, 0, 0);
    assert forall|k: int| 0 <= k < c.len() implies out.subrange(
        6 + pfor::encoded(d).len() + at[k],
        6 + pfor::encoded(d).len() + at[k + 1],
    ) == #[trigger] c[k] by {
        lemma_container_places(layout, c, at, k);
        lemma_after_header(out, pfor::encoded(d), body, at[k], at[k + 1]);
    }
}

/// Two parts after a header are found where they begin.
proof fn lemma_after_header(out: Seq<u8>, e: Seq<u8>, body: Seq<u8>, a: int, b: int)
    requires
        out.len() >= 6,
        out.skip(6) == e + body,
        0 <= a <= b <= body.len(),
    ensures
        out.len() == 6 + e.len() + body.len(),
        out.subrange(6, (6 + e.len()) as int) == e,
        out.subrange(6 + e.len() + a, 6 + e.len() + b) == body.subrange(a, b),
{
    let rest = out.skip(6);
    assert(out.len() == 6 + rest.len());
    assert forall|x: int| 0 <= x < rest.len() implies out[6 + x] == #[trigger] rest[x] by {}
    assert forall|x: int| 0 <= x < e.len() implies out[6 + x] == e[x] by {
        assert(rest[x] == e[x]);
    }
    assert(out.subrange(6, (6 + e.len()) as int) =~= e);
    assert forall|x: int| 0 <= x < body.len() implies out[6 + e.len() + x] == body[x] by {
        assert(rest[e.len() + x] == body[x]);
    }
    assert(out.subrange(6 + e.len() + a, 6 + e.len() + b) =~= body.subrange(a, b));
}

/// An ascending list of numbers below a limit is no longer than the limit.
proof fn lemma_list_len(list: Seq<u32>)
    requires
        forall|i: int, j: int| 0 <= i < j < list.len() ==> #[trigger] list[i] < #[trigger] list[j],
    ensures
        list.len() > 0 ==> list.len() <= list.last() + 1,
    decreases list.len(),
{
    if list.len() > 1 {
        let rest = list.drop_last();
        assert forall|i: int, j: int| 0 <= i < j < rest.len() implies #[trigger] rest[i]
            < #[trigger] rest[j] by {
            assert(list[i] < list[j]);
        }
        lemma_list_len(rest);
        assert(list[list.len() - 2] < list[list.len() - 1]);
    }
}

/// The containers of all keys, one after the other, are the payloads.
proof fn lemma_container_places(layout: Seq<model::Block>, c: Seq<Seq<u8>>, at: Seq<int>, k: int)
    requires
        model::valid(layout),
        at.len() == c.len() + 1,
        at[0] == 0,
        forall|k: int| 0 <= k < c.len() ==> at[k + 1] == at[k] + (#[trigger] c[k]).len(),
        forall|i: int|
            0 <= i < layout.len() ==> (#[trigger] layout[i]).key < c.len()
                && layout[i].payload.bytes() == c[layout[i].key as int],
        forall|k: int|
            0 <= k < c.len() && (forall|i: int|
                0 <= i < layout.len() ==> (#[trigger] layout[i]).key != k) ==> (#[trigger]
            c[k]).len() == 0,
        0 <= k < c.len(),
    ensures
        at.last() == wire::payloads(layout).len(),
        0 <= at[k] <= at[k + 1] <= wire::payloads(layout).len(),
        wire::payloads(layout).subrange(at[k], at[k + 1]) == c[k],
{
    let n = c.len() as int;
    let body = wire::payloads(layout);
    lemma_container_totals(layout, c, at, n, layout.len() as int);
    assert(layout.take(layout.len() as int) =~= layout);
    lemma_running_grows(c, at, 0, k);
    lemma_running_grows(c, at, k + 1, n);
    assert(at[k + 1] == at[k] + c[k].len());
    if exists|i: int| 0 <= i < layout.len() && (#[trigger] layout[i]).key == k {
        let i = choose|i: int| 0 <= i < layout.len() && (#[trigger] layout[i]).key == k;
        assert forall|x: int| 0 <= x < i implies (#[trigger] layout[x]).key < k by {
            assert(layout[x].key < layout[i].key);
        }
        assert forall|x: int| i <= x < layout.len() implies (#[trigger] layout[x]).key >= k by {
            if x > i {
                assert(layout[i].key < layout[x].key);
            }
        }
        lemma_container_totals(layout, c, at, k, i);
        wire::lemma_payload_place(layout, i);
    } else {
        assert(c[k].len() == 0);
        assert(body.subrange(at[k], at[k + 1]) =~= c[k]);
    }
}

/// Running totals over the keys are lengths of payloads.
proof fn lemma_container_totals(
    layout: Seq<model::Block>,
    c: Seq<Seq<u8>>,
    at: Seq<int>,
    m: int,
    j: int,
)
    requires
        model::valid(layout),
        at.len() == c.len() + 1,
        at[0] == 0,
        forall|k: int| 0 <= k < c.len() ==> at[k + 1] == at[k] + (#[trigger] c[k]).len(),
        forall|i: int|
            0 <= i < layout.len() ==> (#[trigger] layout[i]).key < c.len()
                && layout[i].payload.bytes() == c[layout[i].key as int],
        forall|k: int|
            0 <= k < c.len() && (forall|i: int|
                0 <= i < layout.len() ==> (#[trigger] layout[i]).key != k) ==> (#[trigger]
            c[k]).len() == 0,
        0 <= m <= c.len(),
        0 <= j <= layout.len(),
        forall|i: int| 0 <= i < j ==> (#[trigger] layout[i]).key < m,
        forall|i: int| j <= i < layout.len() ==> (#[trigger] layout[i]).key >= m,
    ensures
        at[m] == wire::payloads(layout.take(j)).len(),
{
    let n = c.len();
    let sizes = Seq::new(n, |k: int| c[k].len() as int);
    let ones = Seq::new(
        n,
        |k: int|
            if sizes[k] > 0 {
                1int
            } else {
                0
            },
    );
    let used = lemma_running(ones);
    assert forall|k: int| 0 <= k < sizes.len() implies used[k + 1] == used[k]
        + if #[trigger] sizes[k] > 0 {
        1int
    } else {
        0
    } by {
        assert(used[k + 1] == used[k] + ones[k]);
    }
    assert forall|k: int| 0 <= k < sizes.len() implies at[k + 1] == at[k] + #[trigger] sizes[k] by {
        assert(at[k + 1] == at[k] + c[k].len());
    }
    assert forall|k: int|
        0 <= k < sizes.len() && (forall|i: int|
            0 <= i < layout.len() ==> (#[trigger] layout[i]).key != k) implies #[trigger] sizes[k]
        == 0 by {
        assert(c[k].len() == 0);
    }
    lemma_totals(layout, sizes, at, used, m, j);
}

/// Running totals of lengths grow.
proof fn lemma_running_grows(c: Seq<Seq<u8>>, at: Seq<int>, a: int, b: int)
    requires
        at.len() == c.len() + 1,
        forall|k: int| 0 <= k < c.len() ==> at[k + 1] == at[k] + (#[trigger] c[k]).len(),
        0 <= a <= b <= c.len(),
    ensures
        at[a] <= at[b],
    decreases b - a,
{
    if a < b {
        lemma_running_grows(c, at, a, b - 1);
        let l = b - 1;
        assert(at[l + 1] == at[l] + c[l].len());
    }
}

/// Reading the serialized bitmap of positions below 2097152 gives the bitmap back,
/// whatever follows the bytes.
pub proof fn parsed_of_list(list: Seq<u32>, tail: Seq<u8>)
    requires
        forall|i: int, j: int| 0 <= i < j < list.len() ==> #[trigger] list[i] < #[trigger] list[j],
        list.len() > 0 ==> list.last() < 2_097_152,
    ensures
        ({
            let bytes = wire::serialized(model::layout_of(list.to_set())) + tail;
            &&& wire::readable(bytes)
            &&& wire::parsed(bytes) == model::layout_of(list.to_set())
            &&& model::positions(wire::parsed(bytes)) == list
            &&& wire::serializable(model::layout_of(list.to_set()))
        }),
{
    let layout = model::layout_of(list.to_set());
    lemma_keys_of_list(list);
    positions_of_list(list);
    lemma_list_len(list);
    wire::deserialize_ignores_what_follows(layout, tail);
}

/// Bitmaps can be serialized up to 2097152 positions and 8192 container indices.
pub proof fn serializable_bitmaps(layout: Seq<model::Block>)
    ensures
        wire::serializable(layout) <==> {
            &&& model::positions(layout).len() <= 2_097_152
            &&& layout.len() > 0 ==> layout.last().key < 8192
        },
        model::sorted(layout) <==> forall|i: int|
            0 <= i < layout.len() ==> (#[trigger] layout[i]).payload.sorted(),
{
}

/// The header of serialized bytes can be read where the version is right and the
/// encoded descriptors are there.
pub proof fn readable_header(bytes: Seq<u8>)
    ensures
        wire::header_readable(bytes) <==> {
            &&& bytes.len() >= 6
            &&& bytes[0] == 1
            &&& pfor::readable(bytes.skip(6), (bytes[4] + 256 * bytes[5]) as nat)
        },
{
}

/// Where the containers of bytes with a readable header stand, whether they are
/// there or not, what they hold, and which positions can be asked for.
///
/// `at[k]` is where container `k` begins.
pub proof fn container_places(bytes: Seq<u8>, at: Seq<int>, k: int)
    requires
        ({
            let n = (bytes[4] + 256 * bytes[5]) as nat;
            let d = pfor::decoded(bytes.skip(6), n);
            &&& at.len() == n + 1
            &&& at[0] == 6 + pfor::encoded_size(bytes.skip(6), n)
            &&& forall|i: int|
                0 <= i < n ==> at[i + 1] == at[i] + if (#[trigger] d[i] % 256) / 32 == 1 {
                    32
                } else {
                    d[i] as int % 256
                }
            &&& 0 <= k < n
        }),
    ensures
        ({
            let n = (bytes[4] + 256 * bytes[5]) as nat;
            let d = pfor::decoded(bytes.skip(6), n)[k] % 256;
            let place = bytes.subrange(at[k], at[k + 1]);
            &&& wire::descriptor_bytes(bytes).len() == n
            &&& wire::descriptor_bytes(bytes)[k] == d
            &&& wire::offset_of(bytes, k) == at[k]
            &&& wire::offset_of(bytes, k + 1) == at[k + 1]
            &&& model::dense_descriptor(d as nat) == (d / 32 == 1)
            &&& wire::payload_at(bytes, k) == if d / 32 == 1 {
                model::Payload::Dense(place)
            } else {
                model::Payload::Sparse(place)
            }
            &&& forall|pos: u32|
                pos / 256 == k ==> (#[trigger] reader::position_readable(bytes, pos) <==> if d / 32
                    == 1 {
                    at[k] + (pos as int % 256) / 8 < bytes.len()
                } else {
                    at[k + 1] <= bytes.len()
                })
        }),
{
    lemma_offsets(bytes, at, k);
    lemma_offsets(bytes, at, k + 1);
}

/// What inserting a position does to a container: one that has the position stays
/// as it is. Otherwise a list of fewer than 31 positions takes it in; a longer
/// list and the position turn into bits, and among bits its bit is set.
pub proof fn insertion_into_container(
    before: model::Payload,
    after: model::Payload,
    pos: u8,
    newly: bool,
    q: int,
)
    requires
        before.valid(),
        model::payload_inserted(before, after, pos, newly),
        0 <= q < 256,
    ensures
        !newly ==> after == before && before.offsets().contains(pos as int),
        newly ==> match before {
            model::Payload::Sparse(list) => if list.len() < 31 {
                exists|i: int|
                    0 <= i <= list.len() && after == model::Payload::Sparse(
                        #[trigger] list.insert(i, pos),
                    )
            } else {
                after matches model::Payload::Dense(bytes) && bytes.len() == 32 && ((bytes[q / 8]
                    >> (7 - q % 8)) & 1 == 1 <==> q == pos || list.contains(q as u8))
            },
            model::Payload::Dense(bits) => after matches model::Payload::Dense(bytes)
                && bytes.len() == 32 && ((bytes[q / 8] >> (7 - q % 8)) & 1 == 1 <==> q == pos || (
            bits[q / 8] >> (7 - q % 8)) & 1 == 1),
        },
{
    assert(before.holds(pos as int) == before.offsets().contains(pos as int));
    if newly {
        assert(after.holds(q) == (q == pos || before.holds(q)));
        assert(after.holds(q) == after.offsets().contains(q));
        assert(before.holds(q) == before.offsets().contains(q));
        match before {
            model::Payload::Sparse(list) => {
                model::lemma_sparse_has(list, q as u8);
                if list.len() < 31 {
                    let l = after->Sparse_0;
                    let i = choose|i: int|
                        0 <= i <= before.offsets().len() && after.offsets()
                            == #[trigger] before.offsets().insert(i, pos as int);
                    lemma_inserted_bytes(list, l, i, pos);
                } else {
                    dense_container(after->Dense_0, q);
                }
            },
            model::Payload::Dense(bits) => {
                dense_container(bits, q);
                dense_container(after->Dense_0, q);
            },
        }
    }
}

/// Lists of bytes are the same where they are the same as numbers.
proof fn lemma_inserted_bytes(list: Seq<u8>, l: Seq<u8>, i: int, pos: u8)
    requires
        0 <= i <= list.len(),
        model::Payload::Sparse(l).offsets() == model::Payload::Sparse(list).offsets().insert(
            i,
            pos as int,
        ),
    ensures
        l == list.insert(i, pos),
{
    let a = model::Payload::Sparse(l).offsets();
    let b = model::Payload::Sparse(list).offsets();
    assert(a.len() == l.len() && b.len() == list.len());
    assert forall|j: int| 0 <= j < l.len() implies l[j] == list.insert(i, pos)[j] by {
        assert(a[j] == l[j] as int);
        if j < i {
            assert(a[j] == b[j]);
            assert(b[j] == list[j] as int);
        } else if j > i {
            assert(a[j] == b[j - 1]);
            assert(b[j - 1] == list[j - 1] as int);
        }
    }
    assert(l =~= list.insert(i, pos));
}

/// What inserting a position does to a bitmap: its container takes it in and no
/// other changes, or, where there is none with its key, a new container with the
/// position alone goes where its key belongs.
pub proof fn insertion_into_bitmap(
    before: Seq<model::Block>,
    after: Seq<model::Block>,
    pos: u32,
    newly: bool,
)
    requires
        model::layout_inserted(before, after, pos, newly),
    ensures
        ({
        ||| exists|i: int|
            {
                &&& 0 <= i < before.len()
                &&& (#[trigger] before[i]).key == pos / 256
                &&& after == before.update(
                    i,
                    model::Block { key: pos / 256, payload: after[i].payload },
                )
                &&& model::payload_inserted(
                    before[i].payload,
                    after[i].payload,
                    (pos % 256) as u8,
                    newly,
                )
            }
        ||| newly && exists|i: int|
            {
                &&& 0 <= i <= before.len()
                &&& after == #[trigger] before.insert(
                    i,
                    model::Block {
                        key: pos / 256,
                        payload: model::Payload::Sparse(seq![(pos % 256) as u8]),
                    },
                )
                &&& forall|j: int| 0 <= j < i ==> (#[trigger] before[j]).key < pos / 256
                &&& forall|j: int| i <= j < before.len() ==> (#[trigger] before[j]).key > pos / 256
            }
        }),
{
    let key = pos / 256;
    let offset = (pos % 256) as u8;
    if exists|i: int|
        {
            &&& 0 <= i < before.len()
            &&& (#[trigger] before[i]).key == key
            &&& after.len() == before.len()
            &&& after == before.update(i, after[i])
            &&& after[i].key == key
            &&& model::payload_inserted(before[i].payload, after[i].payload, offset, newly)
        } {
        let i = choose|i: int|
            {
                &&& 0 <= i < before.len()
                &&& (#[trigger] before[i]).key == key
                &&& after.len() == before.len()
                &&& after == before.update(i, after[i])
                &&& after[i].key == key
                &&& model::payload_inserted(before[i].payload, after[i].payload, offset, newly)
            };
        assert(after[i] == model::Block { key, payload: after[i].payload });
        assert(before[i].key == key);
    }
}

} // verus!
