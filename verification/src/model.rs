//! What a bitmap is: containers of 256 positions, sorted by key.
//!
//! A container index (the "key") is `pos / 256`; the position within a
//! container is `pos % 256`. A container is either sparse (a list of the
//! positions in it) or dense (a 32-byte bitset, the most significant bit of
//! byte 0 being position 0).

use crate::bits;
use vstd::prelude::*;

verus! {

/// A container with this many or more set bits is stored dense.
pub const DENSE_THRESHOLD: usize = 32;

/// Dense containers always occupy 32 bytes.
pub const DENSE_CONTAINER_SIZE: usize = 32;

/// Descriptor MSB pattern `001` marks a dense (32-byte) container.
pub const DENSE_CONTAINER_DESCRIPTOR: u8 = 32;

/// Keys are the positions' bits above the low eight.
pub const KEY_LIMIT: u32 = 16_777_216;

/// The payload of a single 256-bit container.
#[verifier::ext_equal]
pub enum Payload {
    /// The positions that are set, one byte each.
    Sparse(Seq<u8>),
    /// A bit for each position, most significant bit first.
    Dense(Seq<u8>),
}

/// A container and its key.
#[verifier::ext_equal]
pub struct Block {
    pub key: u32,
    pub payload: Payload,
}

/// A descriptor marks a dense container by its three most significant bits, the
/// pattern `001`.
pub open spec fn dense_descriptor(descriptor: nat) -> bool {
    descriptor / 32 == 1
}

/// Every number is below the ones after it.
pub open spec fn ascending(s: Seq<int>) -> bool {
    forall|i: int, j: int| 0 <= i < j < s.len() ==> #[trigger] s[i] < #[trigger] s[j]
}

/// No number is above the ones after it.
pub open spec fn nondescending(s: Seq<u8>) -> bool {
    forall|i: int, j: int| 0 <= i < j < s.len() ==> #[trigger] s[i] <= #[trigger] s[j]
}

impl Payload {
    /// The bytes that represent the container.
    pub open spec fn bytes(self) -> Seq<u8> {
        match self {
            Payload::Sparse(positions) => positions,
            Payload::Dense(bytes) => bytes,
        }
    }

    /// The positions that are set, as the container lists them.
    pub open spec fn offsets(self) -> Seq<int> {
        match self {
            Payload::Sparse(positions) => positions.map_values(|p: u8| p as int),
            Payload::Dense(bytes) => bits::indices_where(bits::byte_stream(bytes), 0, 256),
        }
    }

    /// Position `offset` is set.
    pub open spec fn holds(self, offset: int) -> bool {
        self.offsets().contains(offset)
    }

    /// The descriptor byte of the container: the number of listed positions, or
    /// the mark of a dense container.
    pub open spec fn descriptor(self) -> nat {
        match self {
            Payload::Sparse(positions) => positions.len(),
            Payload::Dense(_) => DENSE_CONTAINER_DESCRIPTOR as nat,
        }
    }

    /// The container can be told from its descriptor: a dense one has 32 bytes,
    /// a sparse one lists at least one position, at most 255 and not so many
    /// that the descriptor would mark it as dense.
    pub open spec fn valid(self) -> bool {
        match self {
            Payload::Sparse(positions) => 0 < positions.len() < 256 && !dense_descriptor(
                positions.len(),
            ),
            Payload::Dense(bytes) => bytes.len() == DENSE_CONTAINER_SIZE,
        }
    }

    /// The positions can be found by bisection: those of a sparse container are
    /// sorted.
    pub open spec fn sorted(self) -> bool {
        match self {
            Payload::Sparse(positions) => nondescending(positions),
            Payload::Dense(_) => true,
        }
    }

    /// The container is the one the format prescribes for its positions: sorted
    /// without repetition if there are fewer than 32 of them, else dense.
    pub open spec fn canonical(self) -> bool {
        &&& self.valid()
        &&& ascending(self.offsets())
        &&& self is Sparse <==> self.offsets().len() < DENSE_THRESHOLD
    }
}

impl Block {
    /// The positions that are set, as the container lists them.
    pub open spec fn positions(self) -> Seq<u32> {
        self.payload.offsets().map_values(|o: int| (256 * self.key + o) as u32)
    }
}

/// Containers with distinct keys, sorted, each of them valid.
pub open spec fn valid(layout: Seq<Block>) -> bool {
    &&& forall|i: int|
        0 <= i < layout.len() ==> (#[trigger] layout[i]).key < KEY_LIMIT
            && layout[i].payload.valid()
    &&& forall|i: int, j: int|
        0 <= i < j < layout.len() ==> (#[trigger] layout[i]).key < (#[trigger] layout[j]).key
}

/// Every container is sorted.
pub open spec fn sorted(layout: Seq<Block>) -> bool {
    forall|i: int| 0 <= i < layout.len() ==> (#[trigger] layout[i]).payload.sorted()
}

/// Every container is the one the format prescribes.
pub open spec fn canonical(layout: Seq<Block>) -> bool {
    &&& valid(layout)
    &&& forall|i: int| 0 <= i < layout.len() ==> (#[trigger] layout[i]).payload.canonical()
}

/// The positions that are set, container after container.
pub open spec fn positions(layout: Seq<Block>) -> Seq<u32>
    decreases layout.len(),
{
    if layout.len() == 0 {
        Seq::empty()
    } else {
        positions(layout.drop_last()) + layout.last().positions()
    }
}

/// The set of positions that are set.
pub open spec fn members(layout: Seq<Block>) -> Set<u32> {
    positions(layout).to_set()
}

/// What inserting a position does to a container. Unless the position is found,
/// it is set, and a sparse container that would then list 32 positions turns
/// into a dense one. In a sorted container a position that is set is found.
pub open spec fn payload_inserted(before: Payload, after: Payload, pos: u8, newly: bool) -> bool {
    &&& !newly ==> after == before && before.holds(pos as int)
    &&& before.sorted() ==> newly == !before.holds(pos as int)
    &&& before is Dense ==> newly == !before.holds(pos as int)
    &&& forall|o: int| #[trigger] after.holds(o) == (o == pos || before.holds(o))
    &&& newly ==> (after is Sparse <==> before is Sparse && before.offsets().len() + 1
        < DENSE_THRESHOLD)
    &&& newly && after is Sparse ==> exists|i: int|
        0 <= i <= before.offsets().len() && after.offsets() == #[trigger] before.offsets().insert(
            i,
            pos as int,
        )
    &&& before.valid() ==> after.valid()
    &&& before.sorted() ==> after.sorted()
    &&& before.canonical() ==> after.canonical()
}

/// A position is set in a dense container where its bit is.
pub(crate) proof fn lemma_dense_has(bytes: Seq<u8>, offset: int)
    ensures
        Payload::Dense(bytes).holds(offset) == (0 <= offset < 256 && bits::byte_bit(bytes, offset)),
{
    let f = bits::byte_stream(bytes);
    bits::lemma_indices_where(f, 0, 256);
    if 0 <= offset < 256 && f(offset) {
        bits::lemma_indices_where_contains(f, 0, 256, offset);
    }
}

/// A position is set in a sparse container where it is listed.
pub(crate) proof fn lemma_sparse_has(positions: Seq<u8>, pos: u8)
    ensures
        Payload::Sparse(positions).holds(pos as int) == positions.contains(pos),
{
    let offsets = Payload::Sparse(positions).offsets();
    if positions.contains(pos) {
        let i = choose|i: int| 0 <= i < positions.len() && positions[i] == pos;
        assert(offsets[i] == pos);
    }
    if offsets.contains(pos as int) {
        let i = choose|i: int| 0 <= i < offsets.len() && offsets[i] == pos;
        assert(positions[i] == pos);
    }
}

/// Containers hold positions 0 to 255 only.
pub(crate) proof fn lemma_offsets_range(payload: Payload)
    ensures
        forall|i: int|
            0 <= i < payload.offsets().len() ==> 0 <= #[trigger] payload.offsets()[i] < 256,
        forall|o: int| #[trigger] payload.holds(o) ==> 0 <= o < 256,
{
    match payload {
        Payload::Sparse(positions) => {},
        Payload::Dense(bytes) => {
            bits::lemma_indices_where(bits::byte_stream(bytes), 0, 256);
        },
    }
}

/// A dense container lists its positions in ascending order.
pub(crate) proof fn lemma_dense_ascending(bytes: Seq<u8>)
    ensures
        ascending(Payload::Dense(bytes).offsets()),
{
    bits::lemma_indices_where(bits::byte_stream(bytes), 0, 256);
}

/// Ascending lists of the same numbers are the same list.
pub(crate) proof fn lemma_ascending_unique(a: Seq<int>, b: Seq<int>)
    requires
        ascending(a),
        ascending(b),
        forall|x: int| #[trigger] a.contains(x) == b.contains(x),
    ensures
        a == b,
    decreases a.len(),
{
    if a.len() == 0 {
        if b.len() > 0 {
            assert(b.contains(b[0]));
            assert(a.contains(b[0]));
        }
        assert(a =~= b);
    } else {
        let x = a.last();
        assert(a.contains(x));
        assert(b.contains(x));
        let y = b.last();
        assert(b.contains(y));
        assert(a.contains(y));
        let i = choose|i: int| 0 <= i < b.len() && b[i] == x;
        let j = choose|j: int| 0 <= j < a.len() && a[j] == y;
        assert(x == y);
        let ra = a.drop_last();
        let rb = b.drop_last();
        assert forall|z: int| #[trigger] ra.contains(z) == rb.contains(z) by {
            if ra.contains(z) {
                let k = choose|k: int| 0 <= k < ra.len() && ra[k] == z;
                assert(a[k] == z);
                assert(a.contains(z));
                assert(b.contains(z));
                let l = choose|l: int| 0 <= l < b.len() && b[l] == z;
                assert(rb[l] == z);
            }
            if rb.contains(z) {
                let k = choose|k: int| 0 <= k < rb.len() && rb[k] == z;
                assert(b[k] == z);
                assert(b.contains(z));
                assert(a.contains(z));
                let l = choose|l: int| 0 <= l < a.len() && a[l] == z;
                assert(ra[l] == z);
            }
        }
        lemma_ascending_unique(ra, rb);
        assert(a =~= ra.push(x));
        assert(b =~= rb.push(y));
    }
}

/// A sparse container in which the position is found stays as it is.
pub(crate) proof fn lemma_inserted_found(positions: Seq<u8>, at: int)
    requires
        0 <= at < positions.len(),
    ensures
        payload_inserted(
            Payload::Sparse(positions),
            Payload::Sparse(positions),
            positions[at],
            false,
        ),
{
    lemma_sparse_has(positions, positions[at]);
}

/// A sparse container with room lists the position at the index found for it.
pub(crate) proof fn lemma_inserted_sparse(positions: Seq<u8>, index: int, pos: u8)
    requires
        0 <= index <= positions.len(),
        positions.len() + 1 < DENSE_THRESHOLD,
        nondescending(positions) ==> {
            &&& forall|j: int| 0 <= j < index ==> #[trigger] positions[j] < pos
            &&& forall|j: int| index <= j < positions.len() ==> #[trigger] positions[j] > pos
        },
    ensures
        payload_inserted(
            Payload::Sparse(positions),
            Payload::Sparse(positions.insert(index, pos)),
            pos,
            true,
        ),
{
    let before = Payload::Sparse(positions);
    let listed = positions.insert(index, pos);
    let after = Payload::Sparse(listed);
    assert(after.offsets() =~= before.offsets().insert(index, pos as int));
    lemma_sparse_has(positions, pos);
    assert forall|o: int| #[trigger] after.holds(o) == (o == pos || before.holds(o)) by {
        let a = before.offsets();
        let b = after.offsets();
        if a.contains(o) {
            let k = choose|k: int| 0 <= k < a.len() && a[k] == o;
            assert(b[if k < index {
                k
            } else {
                k + 1
            }] == o);
        }
        assert(b[index] == pos);
        if b.contains(o) && o != pos {
            let k = choose|k: int| 0 <= k < b.len() && b[k] == o;
            assert(a[if k < index {
                k
            } else {
                k - 1
            }] == o);
        }
    }
    if before.sorted() {
        assert forall|i: int, j: int| 0 <= i < j < listed.len() implies #[trigger] listed[i]
            <= #[trigger] listed[j] by {}
    }
    if before.canonical() {
        assert forall|i: int, j: int| 0 <= i < j < positions.len() implies #[trigger] positions[i]
            <= #[trigger] positions[j] by {
            assert(before.offsets()[i] < before.offsets()[j]);
        }
        assert forall|i: int, j: int| 0 <= i < j < listed.len() implies #[trigger] after.offsets()[i]
            < #[trigger] after.offsets()[j] by {
            let k = if i < index {
                i
            } else {
                i - 1
            };
            let l = if j < index {
                j
            } else {
                j - 1
            };
            if i != index && j != index {
                assert(before.offsets()[k] < before.offsets()[l]);
            }
        }
    }
}

/// A full sparse container turns into the bitset of its positions and the new
/// one.
pub(crate) proof fn lemma_inserted_promoted(
    positions: Seq<u8>,
    filled: Seq<u8>,
    bytes: Seq<u8>,
    pos: u8,
)
    requires
        positions.len() + 1 >= DENSE_THRESHOLD,
        nondescending(positions) ==> !positions.contains(pos),
        bytes.len() == DENSE_CONTAINER_SIZE,
        forall|p: int|
            0 <= p < 256 ==> #[trigger] bits::byte_bit(filled, p) == positions.contains(p as u8),
        forall|p: int|
            0 <= p < 256 ==> #[trigger] bits::byte_bit(bytes, p) == (p == pos || bits::byte_bit(
                filled,
                p,
            )),
        ascending(Payload::Sparse(positions).offsets()) ==> Payload::Dense(filled).offsets()
            == Payload::Sparse(positions).offsets(),
    ensures
        payload_inserted(Payload::Sparse(positions), Payload::Dense(bytes), pos, true),
{
    let before = Payload::Sparse(positions);
    let after = Payload::Dense(bytes);
    lemma_sparse_has(positions, pos);
    lemma_dense_ascending(bytes);
    assert forall|o: int| #[trigger] after.holds(o) == (o == pos || before.holds(o)) by {
        lemma_dense_has(bytes, o);
        lemma_offsets_range(before);
        if 0 <= o < 256 {
            lemma_sparse_has(positions, o as u8);
            assert(bits::byte_bit(filled, o) == positions.contains(o as u8));
        }
    }
    if before.canonical() {
        assert forall|i: int, j: int| 0 <= i < j < positions.len() implies #[trigger] positions[i]
            <= #[trigger] positions[j] by {
            assert(before.offsets()[i] < before.offsets()[j]);
        }
        assert(!bits::byte_bit(filled, pos as int));
        bits::lemma_indices_where_add(
            bits::byte_stream(filled),
            bits::byte_stream(bytes),
            0,
            pos as int,
            256,
        );
    }
}

/// A dense container gets the bit of the position set.
pub(crate) proof fn lemma_inserted_dense(before: Seq<u8>, after: Seq<u8>, pos: u8)
    requires
        before.len() == after.len(),
        forall|p: int|
            0 <= p < 256 ==> #[trigger] bits::byte_bit(after, p) == (p == pos || bits::byte_bit(
                before,
                p,
            )),
        bits::byte_bit(before, pos as int) ==> after == before,
    ensures
        payload_inserted(
            Payload::Dense(before),
            Payload::Dense(after),
            pos,
            !bits::byte_bit(before, pos as int),
        ),
{
    lemma_dense_has(before, pos as int);
    lemma_dense_ascending(after);
    assert forall|o: int| #[trigger] Payload::Dense(after).holds(o) == (o == pos || Payload::Dense(
        before,
    ).holds(o)) by {
        lemma_dense_has(before, o);
        lemma_dense_has(after, o);
    }
    if !bits::byte_bit(before, pos as int) {
        bits::lemma_indices_where_add(
            bits::byte_stream(before),
            bits::byte_stream(after),
            0,
            pos as int,
            256,
        );
    }
}

/// Modelled size of the containers in memory: the payload of each and two bytes
/// for its key.
pub open spec fn footprint(layout: Seq<Block>) -> nat
    decreases layout.len(),
{
    if layout.len() == 0 {
        0
    } else {
        footprint(layout.drop_last()) + 2 + layout.last().payload.bytes().len()
    }
}

/// Position `pos` is set in one of the containers.
pub open spec fn is_set(layout: Seq<Block>, pos: u32) -> bool {
    exists|i: int|
        0 <= i < layout.len() && (#[trigger] layout[i]).key == pos / 256 && layout[i].payload.holds(
            pos as int % 256,
        )
}

/// Every position is below the ones after it.
pub open spec fn strictly_ascending(s: Seq<u32>) -> bool {
    forall|i: int, j: int| 0 <= i < j < s.len() ==> #[trigger] s[i] < #[trigger] s[j]
}

/// What inserting a position does to the containers: it goes into the container
/// with its key, or into a new container in the place of that key.
pub open spec fn layout_inserted(
    before: Seq<Block>,
    after: Seq<Block>,
    pos: u32,
    newly: bool,
) -> bool {
    let key = pos / 256;
    let offset = (pos % 256) as u8;
    ||| exists|i: int|
        {
            &&& 0 <= i < before.len()
            &&& (#[trigger] before[i]).key == key
            &&& after.len() == before.len()
            &&& after == before.update(i, after[i])
            &&& after[i].key == key
            &&& payload_inserted(before[i].payload, after[i].payload, offset, newly)
        }
    ||| newly && exists|i: int|
        {
            &&& 0 <= i <= before.len()
            &&& after == #[trigger] before.insert(
                i,
                Block { key, payload: Payload::Sparse(seq![offset]) },
            )
            &&& forall|j: int| 0 <= j < i ==> (#[trigger] before[j]).key < key
            &&& forall|j: int| i <= j < before.len() ==> (#[trigger] before[j]).key > key
        }
}

/// A container lists a position where it has the position's key and offset.
proof fn lemma_block_contains(block: Block, pos: u32)
    requires
        block.key < KEY_LIMIT,
    ensures
        block.positions().contains(pos) == (block.key == pos / 256 && block.payload.holds(
            pos as int % 256,
        )),
{
    let offsets = block.payload.offsets();
    lemma_offsets_range(block.payload);
    if block.positions().contains(pos) {
        let k = choose|k: int| 0 <= k < block.positions().len() && block.positions()[k] == pos;
        assert(0 <= offsets[k] < 256);
        assert(offsets[k] == pos as int % 256);
        assert(offsets.contains(pos as int % 256));
    }
    if block.key == pos / 256 && block.payload.holds(pos as int % 256) {
        let k = choose|k: int| 0 <= k < offsets.len() && offsets[k] == pos as int % 256;
        assert(block.positions()[k] == pos);
    }
}

/// The positions that are listed are those that are set.
pub(crate) proof fn lemma_positions_contain(layout: Seq<Block>, pos: u32)
    requires
        forall|i: int| 0 <= i < layout.len() ==> (#[trigger] layout[i]).key < KEY_LIMIT,
    ensures
        positions(layout).contains(pos) == is_set(layout, pos),
        members(layout).contains(pos) == is_set(layout, pos),
    decreases layout.len(),
{
    if layout.len() > 0 {
        let rest = layout.drop_last();
        lemma_positions_contain(rest, pos);
        lemma_block_contains(layout.last(), pos);
        let a = positions(rest);
        let b = layout.last().positions();
        let all = positions(layout);
        if all.contains(pos) {
            let k = choose|k: int| 0 <= k < all.len() && all[k] == pos;
            if k < a.len() {
                assert(a[k] == pos);
            } else {
                assert(b[k - a.len()] == pos);
            }
        }
        if a.contains(pos) {
            let k = choose|k: int| 0 <= k < a.len() && a[k] == pos;
            assert(all[k] == pos);
        }
        if b.contains(pos) {
            let k = choose|k: int| 0 <= k < b.len() && b[k] == pos;
            assert(all[a.len() + k] == pos);
        }
        if is_set(rest, pos) {
            let i = choose|i: int|
                0 <= i < rest.len() && (#[trigger] rest[i]).key == pos / 256
                    && rest[i].payload.holds(pos as int % 256);
            assert(layout[i] == rest[i]);
        }
        if is_set(layout, pos) {
            let i = choose|i: int|
                0 <= i < layout.len() && (#[trigger] layout[i]).key == pos / 256
                    && layout[i].payload.holds(pos as int % 256);
            if i < rest.len() {
                assert(rest[i] == layout[i]);
            }
        }
        assert(layout[layout.len() - 1] == layout.last());
    }
}

/// Inserting sets the position and no other, keeps containers valid, sorted and
/// canonical, and reports whether the position was found.
pub(crate) proof fn lemma_layout_inserted(
    before: Seq<Block>,
    after: Seq<Block>,
    pos: u32,
    newly: bool,
)
    requires
        valid(before),
        layout_inserted(before, after, pos, newly),
    ensures
        valid(after),
        sorted(before) ==> sorted(after),
        canonical(before) ==> canonical(after),
        members(after) == members(before).insert(pos),
        !newly ==> after == before && is_set(before, pos),
        sorted(before) ==> newly == !is_set(before, pos),
{
    let key = pos / 256;
    let offset = (pos % 256) as u8;
    if exists|i: int|
        {
            &&& 0 <= i < before.len()
            &&& (#[trigger] before[i]).key == key
            &&& after.len() == before.len()
            &&& after == before.update(i, after[i])
            &&& after[i].key == key
            &&& payload_inserted(before[i].payload, after[i].payload, offset, newly)
        } {
        let i = choose|i: int|
            {
                &&& 0 <= i < before.len()
                &&& (#[trigger] before[i]).key == key
                &&& after.len() == before.len()
                &&& after == before.update(i, after[i])
                &&& after[i].key == key
                &&& payload_inserted(before[i].payload, after[i].payload, offset, newly)
            };
        lemma_inserted_in_place(before, after, i, pos, newly);
    } else {
        let i = choose|i: int|
            {
                &&& 0 <= i <= before.len()
                &&& after == #[trigger] before.insert(
                    i,
                    Block { key, payload: Payload::Sparse(seq![offset]) },
                )
                &&& forall|j: int| 0 <= j < i ==> (#[trigger] before[j]).key < key
                &&& forall|j: int| i <= j < before.len() ==> (#[trigger] before[j]).key > key
            };
        lemma_inserted_new(before, after, i, pos);
    }
}

/// The case of a position whose container exists.
proof fn lemma_inserted_in_place(
    before: Seq<Block>,
    after: Seq<Block>,
    i: int,
    pos: u32,
    newly: bool,
)
    requires
        valid(before),
        0 <= i < before.len(),
        before[i].key == pos / 256,
        after == before.update(i, after[i]),
        after[i].key == pos / 256,
        payload_inserted(before[i].payload, after[i].payload, (pos % 256) as u8, newly),
    ensures
        valid(after),
        sorted(before) ==> sorted(after),
        canonical(before) ==> canonical(after),
        members(after) == members(before).insert(pos),
        !newly ==> after == before && is_set(before, pos),
        sorted(before) ==> newly == !is_set(before, pos),
{
    assert forall|j: int| 0 <= j < after.len() && j != i implies after[j] == before[j] by {}
    assert(is_set(before, pos) == before[i].payload.holds(pos as int % 256)) by {
        if is_set(before, pos) {
            let j = choose|j: int|
                0 <= j < before.len() && (#[trigger] before[j]).key == pos / 256
                    && before[j].payload.holds(pos as int % 256);
            assert(before[j].key == before[i].key);
            assert(j == i);
        }
    }
    assert forall|p: u32| #[trigger] members(after).contains(p) == members(before).insert(
        pos,
    ).contains(p) by {
        lemma_positions_contain(before, p);
        lemma_positions_contain(after, p);
        if is_set(before, p) {
            let j = choose|j: int|
                0 <= j < before.len() && (#[trigger] before[j]).key == p / 256
                    && before[j].payload.holds(p as int % 256);
            assert(after[j].key == p / 256);
            assert(after[j].payload.holds(p as int % 256));
        }
        if p == pos {
            assert(after[i].payload.holds(pos as int % 256));
        }
        if is_set(after, p) {
            let j = choose|j: int|
                0 <= j < after.len() && (#[trigger] after[j]).key == p / 256
                    && after[j].payload.holds(p as int % 256);
            if j != i {
                assert(before[j].payload.holds(p as int % 256));
            } else if p != pos {
                assert(before[i].payload.holds(p as int % 256));
            }
        }
    }
    assert(members(after) =~= members(before).insert(pos));
    if !newly {
        assert(after =~= before);
    }
}

/// The case of a position that needs a new container.
proof fn lemma_inserted_new(before: Seq<Block>, after: Seq<Block>, i: int, pos: u32)
    requires
        valid(before),
        0 <= i <= before.len(),
        after == before.insert(
            i,
            Block { key: pos / 256, payload: Payload::Sparse(seq![(pos % 256) as u8]) },
        ),
        forall|j: int| 0 <= j < i ==> (#[trigger] before[j]).key < pos / 256,
        forall|j: int| i <= j < before.len() ==> (#[trigger] before[j]).key > pos / 256,
    ensures
        valid(after),
        sorted(before) ==> sorted(after),
        canonical(before) ==> canonical(after),
        members(after) == members(before).insert(pos),
        !is_set(before, pos),
{
    let block = after[i];
    let listed = seq![(pos % 256) as u8];
    assert(block.payload.offsets() =~= seq![pos as int % 256]);
    assert(block.payload.valid());
    assert(block.payload.offsets()[0] == pos as int % 256);
    assert(block.payload.holds(pos as int % 256));
    assert forall|j: int| 0 <= j < before.len() implies #[trigger] before[j] == after[if j < i {
        j
    } else {
        j + 1
    }] by {}
    assert forall|j: int| 0 <= j < after.len() && j != i implies #[trigger] after[j] == before[if j
        < i {
        j
    } else {
        j - 1
    }] by {}
    assert forall|p: u32| #[trigger] members(after).contains(p) == members(before).insert(
        pos,
    ).contains(p) by {
        lemma_positions_contain(before, p);
        lemma_positions_contain(after, p);
        if is_set(before, p) {
            let j = choose|j: int|
                0 <= j < before.len() && (#[trigger] before[j]).key == p / 256
                    && before[j].payload.holds(p as int % 256);
            let k = if j < i {
                j
            } else {
                j + 1
            };
            assert(after[k] == before[j]);
        }
        if is_set(after, p) {
            let j = choose|j: int|
                0 <= j < after.len() && (#[trigger] after[j]).key == p / 256
                    && after[j].payload.holds(p as int % 256);
            if j == i {
                assert(block.payload.offsets().contains(p as int % 256));
                assert(p as int % 256 == pos as int % 256);
            } else {
                let k = if j < i {
                    j
                } else {
                    j - 1
                };
                assert(before[k] == after[j]);
            }
        }
    }
    assert(members(after) =~= members(before).insert(pos));
}

/// The canonical containers list their positions in ascending order.
pub proof fn canonical_positions_ascend(layout: Seq<Block>)
    requires
        canonical(layout),
    ensures
        strictly_ascending(positions(layout)),
    decreases layout.len(),
{
    if layout.len() > 0 {
        let rest = layout.drop_last();
        assert forall|i: int| 0 <= i < rest.len() implies (#[trigger] rest[i]).key < KEY_LIMIT
            && rest[i].payload.canonical() && rest[i].payload.valid() by {
            assert(rest[i] == layout[i]);
        }
        assert forall|i: int, j: int| 0 <= i < j < rest.len() implies (#[trigger] rest[i]).key < (
        #[trigger] rest[j]).key by {
            assert(rest[i] == layout[i] && rest[j] == layout[j]);
        }
        canonical_positions_ascend(rest);
        let a = positions(rest);
        let block = layout.last();
        let b = block.positions();
        let all = positions(layout);
        assert(layout[layout.len() - 1] == block);
        lemma_offsets_range(block.payload);
        assert forall|i: int, j: int| 0 <= i < j < all.len() implies #[trigger] all[i]
            < #[trigger] all[j] by {
            if j < a.len() {
                assert(all[i] == a[i] && all[j] == a[j]);
            } else if i < a.len() {
                assert(all[i] == a[i] && all[j] == b[j - a.len()]);
                assert(a.contains(a[i]));
                lemma_positions_contain(rest, a[i]);
                let k = choose|k: int|
                    0 <= k < rest.len() && (#[trigger] rest[k]).key == a[i] / 256
                        && rest[k].payload.holds(a[i] as int % 256);
                assert(rest[k] == layout[k]);
                assert(0 <= block.payload.offsets()[j - a.len()] < 256);
            } else {
                let k = i - a.len();
                let l = j - a.len();
                assert(all[i] == b[k] && all[j] == b[l]);
                assert(block.payload.offsets()[k] < block.payload.offsets()[l]);
                assert(0 <= block.payload.offsets()[l] < 256);
                assert(0 <= block.payload.offsets()[k] < 256);
            }
        }
    }
}

/// A position is set where the container with its key has it.
pub(crate) proof fn lemma_is_set_at(layout: Seq<Block>, i: int, offset: int)
    requires
        valid(layout),
        0 <= i < layout.len(),
        0 <= offset < 256,
    ensures
        is_set(layout, (256 * layout[i].key + offset) as u32) == layout[i].payload.holds(offset),
{
    let pos = (256 * layout[i].key + offset) as u32;
    assert(layout[i].key < KEY_LIMIT);
    assert(pos / 256 == layout[i].key && pos as int % 256 == offset);
    if is_set(layout, pos) {
        let j = choose|j: int|
            0 <= j < layout.len() && (#[trigger] layout[j]).key == pos / 256
                && layout[j].payload.holds(pos as int % 256);
        assert(layout[i].key == layout[j].key);
        assert(i == j);
    }
}

/// Canonical containers of the same positions are the same.
proof fn lemma_canonical_payload_unique(a: Payload, b: Payload)
    requires
        a.canonical(),
        b.canonical(),
        forall|o: int| #[trigger] a.holds(o) == b.holds(o),
    ensures
        a == b,
{
    assert forall|o: int| #[trigger] a.offsets().contains(o) == b.offsets().contains(o) by {
        assert(a.holds(o) == b.holds(o));
    }
    lemma_ascending_unique(a.offsets(), b.offsets());
    match (a, b) {
        (Payload::Sparse(x), Payload::Sparse(y)) => {
            assert forall|i: int| 0 <= i < x.len() implies x[i] == y[i] by {
                assert(a.offsets()[i] == b.offsets()[i]);
            }
            assert(x =~= y);
        },
        (Payload::Dense(x), Payload::Dense(y)) => {
            assert forall|j: int| 0 <= j < 8 * x.len() implies #[trigger] bits::byte_bit(x, j)
                == bits::byte_bit(y, j) by {
                lemma_dense_has(x, j);
                lemma_dense_has(y, j);
            }
            bits::lemma_same_bits(x, y);
        },
        _ => {},
    }
}

/// Every key of one set of containers is a key of another that has the same
/// positions.
proof fn lemma_key_shared(a: Seq<Block>, b: Seq<Block>, i: int)
    requires
        canonical(a),
        canonical(b),
        members(a) == members(b),
        0 <= i < a.len(),
    ensures
        exists|j: int| 0 <= j < b.len() && (#[trigger] b[j]).key == a[i].key,
{
    let offsets = a[i].payload.offsets();
    assert(offsets.len() > 0);
    let o = offsets[0];
    lemma_offsets_range(a[i].payload);
    assert(a[i].payload.holds(o));
    lemma_is_set_at(a, i, o);
    let pos = (256 * a[i].key + o) as u32;
    lemma_positions_contain(a, pos);
    lemma_positions_contain(b, pos);
    let j = choose|j: int|
        0 <= j < b.len() && (#[trigger] b[j]).key == pos / 256 && b[j].payload.holds(
            pos as int % 256,
        );
    assert(b[j].key == a[i].key);
}

/// The canonical form is unique: containers that hold the same positions, each
/// in the form prescribed for it, are the same.
pub proof fn canonical_form_is_unique(a: Seq<Block>, b: Seq<Block>)
    requires
        canonical(a),
        canonical(b),
        members(a) == members(b),
    ensures
        a == b,
{
    let ka = a.map_values(|c: Block| c.key as int);
    let kb = b.map_values(|c: Block| c.key as int);
    assert forall|x: int| #[trigger] ka.contains(x) == kb.contains(x) by {
        if ka.contains(x) {
            let i = choose|i: int| 0 <= i < ka.len() && ka[i] == x;
            lemma_key_shared(a, b, i);
            let j = choose|j: int| 0 <= j < b.len() && (#[trigger] b[j]).key == a[i].key;
            assert(kb[j] == x);
        }
        if kb.contains(x) {
            let i = choose|i: int| 0 <= i < kb.len() && kb[i] == x;
            lemma_key_shared(b, a, i);
            let j = choose|j: int| 0 <= j < a.len() && (#[trigger] a[j]).key == b[i].key;
            assert(ka[j] == x);
        }
    }
    assert forall|i: int, j: int| 0 <= i < j < ka.len() implies #[trigger] ka[i]
        < #[trigger] ka[j] by {
        assert(a[i].key < a[j].key);
    }
    assert forall|i: int, j: int| 0 <= i < j < kb.len() implies #[trigger] kb[i]
        < #[trigger] kb[j] by {
        assert(b[i].key < b[j].key);
    }
    lemma_ascending_unique(ka, kb);
    assert forall|i: int| 0 <= i < a.len() implies a[i] == b[i] by {
        assert(ka[i] == kb[i]);
        assert(a[i].key == b[i].key);
        let x = a[i].payload;
        let y = b[i].payload;
        assert forall|o: int| #[trigger] x.holds(o) == y.holds(o) by {
            lemma_offsets_range(x);
            lemma_offsets_range(y);
            if 0 <= o < 256 {
                lemma_is_set_at(a, i, o);
                lemma_is_set_at(b, i, o);
                let pos = (256 * a[i].key + o) as u32;
                lemma_positions_contain(a, pos);
                lemma_positions_contain(b, pos);
            }
        }
        lemma_canonical_payload_unique(x, y);
    }
    assert(a =~= b);
}

/// In canonical form there are as many listed positions as positions set.
pub proof fn canonical_count(layout: Seq<Block>)
    requires
        canonical(layout),
    ensures
        positions(layout).len() == members(layout).len(),
{
    canonical_positions_ascend(layout);
    let all = positions(layout);
    assert(all.no_duplicates()) by {
        assert forall|i: int, j: int| 0 <= i < all.len() && 0 <= j < all.len() && i != j implies
            all[i] != all[j] by {
            if i < j {
                assert(all[i] < all[j]);
            } else {
                assert(all[j] < all[i]);
            }
        }
    }
    all.unique_seq_to_set();
}

/// The first containers list no more positions than all do.
pub(crate) proof fn lemma_positions_prefix(layout: Seq<Block>, n: int)
    requires
        0 <= n <= layout.len(),
    ensures
        positions(layout.take(n)).len() <= positions(layout).len(),
    decreases layout.len(),
{
    if n == layout.len() {
        assert(layout.take(n) =~= layout);
    } else {
        lemma_positions_prefix(layout.drop_last(), n);
        assert(layout.drop_last().take(n) =~= layout.take(n));
    }
}

/// A canonical bitmap has containers where it has positions.
pub(crate) proof fn lemma_empty(layout: Seq<Block>)
    ensures
        layout.len() == 0 ==> members(layout) == Set::<u32>::empty(),
        canonical(layout) && layout.len() > 0 ==> members(layout) != Set::<u32>::empty(),
{
    if layout.len() == 0 {
        assert(members(layout) =~= Set::<u32>::empty());
    } else if canonical(layout) {
        let block = layout.last();
        assert(layout[layout.len() - 1].payload.canonical());
        assert(block.payload.offsets().len() > 0);
        assert(block.positions().len() > 0);
        let all = positions(layout);
        assert(all.contains(all[all.len() - 1]));
        assert(members(layout).contains(all[all.len() - 1]));
    }
}

/// The first containers take no more room than all do.
pub(crate) proof fn lemma_footprint_prefix(layout: Seq<Block>, n: int)
    requires
        0 <= n <= layout.len(),
    ensures
        footprint(layout.take(n)) <= footprint(layout),
    decreases layout.len(),
{
    if n == layout.len() {
        assert(layout.take(n) =~= layout);
    } else {
        lemma_footprint_prefix(layout.drop_last(), n);
        assert(layout.drop_last().take(n) =~= layout.take(n));
    }
}

/// The container prescribed for the positions at which `f` holds: a list if
/// there are fewer than 32, else a bitset.
pub open spec fn payload_of(f: spec_fn(int) -> bool) -> Payload {
    let offsets = bits::indices_where(f, 0, 256);
    if offsets.len() < DENSE_THRESHOLD {
        Payload::Sparse(offsets.map_values(|o: int| o as u8))
    } else {
        Payload::Dense(
            Seq::new(DENSE_CONTAINER_SIZE as nat, |k: int| bits::bits_value(f, 8 * k, 8) as u8),
        )
    }
}

/// Position `offset` of container `key` is in the set.
pub open spec fn at(set: Set<u32>, key: int, offset: int) -> bool {
    0 <= offset < 256 && set.contains((256 * key + offset) as u32)
}

/// A position of container `key` is in the set.
pub open spec fn occupied(set: Set<u32>, key: int) -> bool {
    exists|offset: int| #[trigger] at(set, key, offset)
}

/// The containers prescribed for a set of positions: one for each key of a
/// position, in order.
pub open spec fn layout_of(set: Set<u32>) -> Seq<Block> {
    bits::indices_where(|key: int| occupied(set, key), 0, KEY_LIMIT as int).map_values(
        |key: int|
            Block { key: key as u32, payload: payload_of(|offset: int| at(set, key, offset)) },
    )
}

/// The container prescribed for some positions is canonical and lists them.
proof fn lemma_payload_of(f: spec_fn(int) -> bool)
    requires
        bits::indices_where(f, 0, 256).len() > 0,
    ensures
        payload_of(f).canonical(),
        payload_of(f).offsets() == bits::indices_where(f, 0, 256),
{
    let offsets = bits::indices_where(f, 0, 256);
    bits::lemma_indices_where(f, 0, 256);
    if offsets.len() < DENSE_THRESHOLD {
        assert forall|i: int| 0 <= i < offsets.len() implies payload_of(f).offsets()[i]
            == offsets[i] by {
            assert(0 <= offsets[i] < 256);
        }
        assert(payload_of(f).offsets() =~= offsets);
    } else {
        let bytes = payload_of(f)->Dense_0;
        assert forall|j: int| 0 <= j < 256 implies #[trigger] bits::byte_stream(bytes)(j) == f(
            j,
        ) by {
            let k = j / 8;
            bits::lemma_bits_value_bound(f, 8 * k, 8);
            vstd::arithmetic::power2::lemma2_to64();
            assert(bytes[k] == bits::bits_value(f, 8 * k, 8));
            bits::lemma_bit_of_bits_value(f, 8 * k, 8, (7 - j % 8) as nat);
        }
        bits::lemma_indices_where_congruence(bits::byte_stream(bytes), f, 0, 256);
    }
}

/// Every set of positions has a canonical form: the containers prescribed for it.
pub proof fn canonical_form_exists(set: Set<u32>)
    ensures
        canonical(layout_of(set)),
        members(layout_of(set)) == set,
{
    let f = |key: int| occupied(set, key);
    let keys = bits::indices_where(f, 0, KEY_LIMIT as int);
    let layout = layout_of(set);
    bits::lemma_indices_where(f, 0, KEY_LIMIT as int);
    assert forall|i: int| 0 <= i < layout.len() implies {
        &&& (#[trigger] layout[i]).key == keys[i]
        &&& layout[i].key < KEY_LIMIT
        &&& layout[i].payload.canonical()
        &&& forall|o: int| #[trigger] layout[i].payload.holds(o) == at(set, keys[i], o)
    } by {
        let g = |offset: int| at(set, keys[i], offset);
        assert(f(keys[i]));
        let witness = choose|offset: int| #[trigger] at(set, keys[i], offset);
        bits::lemma_indices_where_contains(g, 0, 256, witness);
        lemma_payload_of(g);
        bits::lemma_indices_where(g, 0, 256);
        assert forall|o: int| #[trigger] layout[i].payload.holds(o) == at(set, keys[i], o) by {
            if at(set, keys[i], o) {
                assert(g(o));
                bits::lemma_indices_where_contains(g, 0, 256, o);
            }
            if layout[i].payload.holds(o) {
                let offsets = bits::indices_where(g, 0, 256);
                let k = choose|k: int| 0 <= k < offsets.len() && offsets[k] == o;
                assert(g(offsets[k]));
            }
        }
    }
    assert forall|i: int, j: int| 0 <= i < j < layout.len() implies (#[trigger] layout[i]).key < (
    #[trigger] layout[j]).key by {
        assert(keys[i] < keys[j]);
    }
    assert forall|pos: u32| members(layout).contains(pos) == set.contains(pos) by {
        lemma_positions_contain(layout, pos);
        let key = pos as int / 256;
        let offset = pos as int % 256;
        assert((256 * key + offset) as u32 == pos);
        if set.contains(pos) {
            assert(at(set, key, offset));
            assert(f(key));
            bits::lemma_indices_where_contains(f, 0, KEY_LIMIT as int, key);
            let i = choose|i: int| 0 <= i < keys.len() && keys[i] == key;
            assert(layout[i].payload.holds(offset));
            assert(is_set(layout, pos));
        }
        if is_set(layout, pos) {
            let i = choose|i: int|
                0 <= i < layout.len() && (#[trigger] layout[i]).key == pos / 256
                    && layout[i].payload.holds(pos as int % 256);
            assert(at(set, keys[i], offset));
        }
    }
    assert(members(layout) =~= set);
}

/// There is one canonical form of a set of positions, so any canonical
/// containers are those prescribed for the positions that they hold.
pub proof fn canonical_layout_is_layout_of(layout: Seq<Block>)
    requires
        canonical(layout),
    ensures
        layout_of(members(layout)) == layout,
{
    canonical_form_exists(members(layout));
    canonical_form_is_unique(layout_of(members(layout)), layout);
}

/// Ascending lists of the same positions are the same list.
pub(crate) proof fn lemma_strictly_ascending_unique(a: Seq<u32>, b: Seq<u32>)
    requires
        strictly_ascending(a),
        strictly_ascending(b),
        a.to_set() == b.to_set(),
    ensures
        a == b,
{
    let x = a.map_values(|p: u32| p as int);
    let y = b.map_values(|p: u32| p as int);
    assert forall|v: int| #[trigger] x.contains(v) == y.contains(v) by {
        if x.contains(v) {
            let i = choose|i: int| 0 <= i < x.len() && x[i] == v;
            assert(a.to_set().contains(a[i]));
            assert(b.contains(a[i]));
            let j = choose|j: int| 0 <= j < b.len() && b[j] == a[i];
            assert(y[j] == v);
        }
        if y.contains(v) {
            let i = choose|i: int| 0 <= i < y.len() && y[i] == v;
            assert(b.to_set().contains(b[i]));
            assert(a.contains(b[i]));
            let j = choose|j: int| 0 <= j < a.len() && a[j] == b[i];
            assert(x[j] == v);
        }
    }
    assert forall|i: int, j: int| 0 <= i < j < x.len() implies #[trigger] x[i]
        < #[trigger] x[j] by {
        assert(a[i] < a[j]);
    }
    assert forall|i: int, j: int| 0 <= i < j < y.len() implies #[trigger] y[i]
        < #[trigger] y[j] by {
        assert(b[i] < b[j]);
    }
    lemma_ascending_unique(x, y);
    assert(a.len() == x.len() && b.len() == y.len() && x.len() == y.len());
    assert forall|i: int| 0 <= i < a.len() implies a[i] == b[i] by {
        assert(x[i] == y[i]);
        assert(x[i] == a[i] as int && y[i] == b[i] as int);
    }
    assert(a =~= b);
}

/// Canonical containers take at most 32 bytes and their key.
pub proof fn canonical_footprint(layout: Seq<Block>)
    requires
        canonical(layout),
    ensures
        footprint(layout) <= (DENSE_CONTAINER_SIZE + 2) * layout.len(),
    decreases layout.len(),
{
    if layout.len() > 0 {
        let rest = layout.drop_last();
        assert(canonical(rest)) by {
            assert(forall|i: int| 0 <= i < rest.len() ==> rest[i] == layout[i]);
        }
        canonical_footprint(rest);
        assert(layout[layout.len() - 1] == layout.last());
    }
}

/// A container lists at most 256 positions.
pub(crate) proof fn lemma_positions_len(layout: Seq<Block>)
    requires
        valid(layout),
    ensures
        positions(layout).len() <= 256 * layout.len(),
    decreases layout.len(),
{
    if layout.len() > 0 {
        let rest = layout.drop_last();
        assert(valid(rest)) by {
            assert(forall|i: int| 0 <= i < rest.len() ==> rest[i] == layout[i]);
        }
        lemma_positions_len(rest);
        assert(layout[layout.len() - 1] == layout.last());
        if let Payload::Dense(bytes) = layout.last().payload {
            bits::lemma_indices_where_len(bits::byte_stream(bytes), 0, 256);
        }
    }
}

/// Canonical containers are sorted.
pub(crate) proof fn lemma_canonical_sorted(layout: Seq<Block>)
    requires
        canonical(layout),
    ensures
        sorted(layout),
{
    assert forall|i: int| 0 <= i < layout.len() implies (#[trigger] layout[i]).payload.sorted() by {
        let payload = layout[i].payload;
        assert(payload.canonical());
        if let Payload::Sparse(listed) = payload {
            assert forall|j: int, k: int| 0 <= j < k < listed.len() implies #[trigger] listed[j]
                <= #[trigger] listed[k] by {
                assert(payload.offsets()[j] < payload.offsets()[k]);
            }
        }
    }
}

/// A canonical container takes a byte for each of its positions, up to 32.
pub proof fn canonical_payload_size(payload: Payload)
    requires
        payload.canonical(),
    ensures
        payload.bytes().len() == if payload.offsets().len() < DENSE_CONTAINER_SIZE {
            payload.offsets().len()
        } else {
            DENSE_CONTAINER_SIZE as nat
        },
{
}

/// One call of an iterator: the first of the positions still to come, or `None`
/// once there are none.
pub open spec fn iteration_step(before: Seq<int>, after: Seq<int>, r: Option<u8>) -> bool {
    match r {
        Some(p) => before.len() > 0 && p == before[0] && after == before.drop_first(),
        None => before.len() == 0 && after.len() == 0,
    }
}

/// Calling an iterator over and over gives the positions of the container, one
/// after the other, and then `None` on every further call.
///
/// `remaining[i]` are the positions still to come before call `i`, and
/// `results[i]` is what that call returns.
pub proof fn iteration_lists_all(
    offsets: Seq<int>,
    remaining: Seq<Seq<int>>,
    results: Seq<Option<u8>>,
)
    requires
        remaining.len() == results.len() + 1,
        remaining[0] == offsets,
        forall|i: int|
            0 <= i < results.len() ==> iteration_step(
                remaining[i],
                remaining[i + 1],
                #[trigger] results[i],
            ),
    ensures
        forall|i: int|
            0 <= i < results.len() ==> match #[trigger] results[i] {
                Some(p) => i < offsets.len() && p == offsets[i],
                None => i >= offsets.len(),
            },
        remaining.last() == if results.len() <= offsets.len() {
            offsets.skip(results.len() as int)
        } else {
            Seq::empty()
        },
    decreases results.len(),
{
    if results.len() == 0 {
        assert(offsets.skip(0) =~= offsets);
    } else {
        let n = results.len() - 1;
        let shorter = results.drop_last();
        assert forall|i: int| 0 <= i < shorter.len() implies iteration_step(
            remaining.drop_last()[i],
            remaining.drop_last()[i + 1],
            #[trigger] shorter[i],
        ) by {
            assert(shorter[i] == results[i]);
        }
        iteration_lists_all(offsets, remaining.drop_last(), shorter);
        assert(iteration_step(remaining[n], remaining[n + 1], results[n]));
        assert forall|i: int| 0 <= i < results.len() implies match #[trigger] results[i] {
            Some(p) => i < offsets.len() && p == offsets[i],
            None => i >= offsets.len(),
        } by {
            if i < n {
                assert(shorter[i] == results[i]);
            }
        }
        assert(remaining.last() =~= if results.len() <= offsets.len() {
            offsets.skip(results.len() as int)
        } else {
            Seq::empty()
        });
    }
}

} // verus!
