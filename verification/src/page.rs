//! Pages of bitmaps in one of two formats, for comparing the formats.
//!
//! * Universe of 50,000 positions; a fixed number of random bits per bitmap.
//! * Bitmaps are packed as `(u32 LE length, bytes)` pairs into a buffer until it
//!   reaches 1 MiB, simulating a Parquet binary page. The bitmap count is how
//!   many fit.
//! * The page is compressed with zstd level 9 for the compressed size.

use crate::bits;
use crate::framing;
use crate::model;
use crate::mumbling::MumblingBitmap;
use crate::outside;
use crate::reader::MumblingReader;
use crate::wire;
use rand_chacha::ChaCha8Rng;
use vstd::prelude::*;

verus! {

/// Positions are below this number.
pub const UNIVERSE: u32 = 50_000;

/// A page is full from this size on.
pub const PAGE_TARGET: usize = 1_048_576;

/// Level at which pages are compressed.
pub const ZSTD_LEVEL: i32 = 9;

/// A Roaring block with this many or more values is a bitmap container.
pub const ARRAY_TO_BITMAP_THRESHOLD: usize = 4096;

/// Size of a Roaring bitmap container.
pub const BITMAP_CONTAINER_BYTES: usize = 8192;

/// More bitmaps than fit in a page.
pub const COUNT_LIMIT: usize = 262_144;

/// A bitmap format.
#[derive(Clone, Copy, Debug, PartialEq, Eq, Structural)]
pub enum Format {
    Roaring,
    Mumbling,
}

/// What can go wrong with a page.
#[derive(Clone, Copy, Debug, PartialEq, Eq, Structural)]
pub enum PageError {
    /// A Roaring bitmap could not be written.
    SerializeRoaring,
    /// The bytes hold no Roaring bitmap.
    DeserializeRoaring,
    /// The page could not be compressed.
    Compress,
    /// The page could not be decompressed.
    Decompress,
}

impl Format {
    /// Name of the format in results.
    pub fn name(self) -> (name: &'static str)
        ensures
            name@ == match self {
                Format::Roaring => "roaring"@,
                Format::Mumbling => "mumbling"@,
            },
    {
        match self {
            Format::Roaring => "roaring",
            Format::Mumbling => "mumbling",
        }
    }
}

/// Distinct positions of the universe in ascending order.
pub open spec fn sampled(positions: Seq<u32>) -> bool {
    &&& model::strictly_ascending(positions)
    &&& forall|i: int| 0 <= i < positions.len() ==> #[trigger] positions[i] < UNIVERSE
}

/// The serialized bitmap of some positions.
pub open spec fn encoded(format: Format, positions: Seq<u32>) -> Seq<u8> {
    match format {
        Format::Roaring => outside::roaring_bytes(positions),
        Format::Mumbling => wire::serialized(model::layout_of(positions.to_set())),
    }
}

/// The positions that a serialized bitmap lists, `None` where the bytes hold no
/// bitmap.
pub open spec fn decoded(format: Format, blob: Seq<u8>) -> Option<Seq<u32>> {
    match format {
        Format::Roaring => outside::roaring_parsed(blob),
        Format::Mumbling => if wire::readable(blob) {
            Some(model::positions(wire::parsed(blob)))
        } else {
            None
        },
    }
}

/// Modelled size in memory of the bitmap of some positions.
pub open spec fn in_memory(format: Format, positions: Seq<u32>) -> nat {
    match format {
        Format::Roaring => roaring_footprint(positions.len()),
        Format::Mumbling => model::footprint(model::layout_of(positions.to_set())),
    }
}

/// Modelled size in memory of a Roaring bitmap with this many positions.
pub open spec fn roaring_footprint(count: nat) -> nat {
    if count >= ARRAY_TO_BITMAP_THRESHOLD {
        BITMAP_CONTAINER_BYTES as nat
    } else {
        2 * count
    }
}

/// Exclusive or of all positions.
pub open spec fn checksum(positions: Seq<u32>) -> u64
    decreases positions.len(),
{
    if positions.len() == 0 {
        0
    } else {
        checksum(positions.drop_last()) ^ (positions.last() as u64)
    }
}

/// Exclusive or of the checksums of serialized bitmaps, `None` where one of them
/// holds no bitmap.
pub open spec fn combined(format: Format, blobs: Seq<Seq<u8>>) -> Option<u64>
    decreases blobs.len(),
{
    if blobs.len() == 0 {
        Some(0)
    } else {
        match (combined(format, blobs.drop_last()), decoded(format, blobs.last())) {
            (Some(guard), Some(positions)) => Some(guard ^ checksum(positions)),
            _ => None,
        }
    }
}

/// Modelled size in memory of serialized bitmaps.
pub open spec fn in_memory_sum(format: Format, blobs: Seq<Seq<u8>>) -> nat
    decreases blobs.len(),
{
    if blobs.len() == 0 {
        0
    } else {
        in_memory_sum(format, blobs.drop_last()) + in_memory(
            format,
            decoded(format, blobs.last())->0,
        )
    }
}

/// Indices that fit in 32 bits, in ascending order.
pub open spec fn in_order(indices: Seq<usize>) -> Seq<u32> {
    bits::indices_where(|p: int| indices.contains(p as usize), 0, u32::MAX + 1).map_values(
        |p: int| p as u32,
    )
}

/// The generator that starts from a seed, after a number of draws of `k`
/// positions.
pub open spec fn generator(seed: u64, k: nat, draws: nat) -> ChaCha8Rng
    decreases draws,
{
    if draws == 0 {
        outside::chacha_seeded(seed)
    } else {
        outside::sample_advanced(generator(seed, k, (draws - 1) as nat), UNIVERSE as nat, k)
    }
}

/// Draw `i` of `k` positions, in ascending order, from the generator that starts
/// from a seed.
pub open spec fn drawn(seed: u64, k: nat, i: nat) -> Seq<u32> {
    in_order(outside::sample_drawn(generator(seed, k, i), UNIVERSE as nat, k))
}

/// The serialized bitmaps of the first `count` draws.
pub open spec fn drawn_bitmaps(format: Format, seed: u64, k: nat, count: nat) -> Seq<Seq<u8>> {
    Seq::new(count, |i: int| encoded(format, drawn(seed, k, i as nat)))
}

/// Indices in order ascend, and are those indices.
pub(crate) proof fn lemma_in_order_lists(indices: Seq<usize>, p: u32)
    ensures
        in_order(indices).contains(p) <==> indices.contains(p as usize),
        forall|i: int, j: int|
            0 <= i < j < in_order(indices).len() ==> #[trigger] in_order(indices)[i]
                < #[trigger] in_order(indices)[j],
{
    let f = |p: int| indices.contains(p as usize);
    let listed = bits::indices_where(f, 0, u32::MAX + 1);
    let positions = in_order(indices);
    bits::lemma_indices_where(f, 0, u32::MAX + 1);
    assert forall|i: int, j: int| 0 <= i < j < positions.len() implies #[trigger] positions[i]
        < #[trigger] positions[j] by {
        assert(listed[i] < listed[j]);
    }
    if positions.contains(p) {
        let i = choose|i: int| 0 <= i < positions.len() && positions[i] == p;
        assert(f(listed[i]));
        assert(listed[i] == p);
    }
    if indices.contains(p as usize) {
        assert(f(p as int));
        bits::lemma_indices_where_contains(f, 0, u32::MAX + 1, p as int);
        let i = choose|i: int| 0 <= i < listed.len() && listed[i] == p;
        assert(positions[i] == p);
    }
}

/// A list of distinct indices in ascending order is the only one.
proof fn lemma_in_order(indices: Seq<usize>, positions: Seq<u32>)
    requires
        model::strictly_ascending(positions),
        forall|p: u32| #[trigger] positions.contains(p) == indices.contains(p as usize),
    ensures
        positions == in_order(indices),
{
    let f = |p: int| indices.contains(p as usize);
    let listed = bits::indices_where(f, 0, u32::MAX + 1);
    let values = positions.map_values(|p: u32| p as int);
    bits::lemma_indices_where(f, 0, u32::MAX + 1);
    assert forall|v: int| #[trigger] values.contains(v) == listed.contains(v) by {
        if values.contains(v) {
            let i = choose|i: int| 0 <= i < values.len() && values[i] == v;
            assert(positions.contains(positions[i]));
            bits::lemma_indices_where_contains(f, 0, u32::MAX + 1, v);
        }
        if listed.contains(v) {
            let i = choose|i: int| 0 <= i < listed.len() && listed[i] == v;
            assert(f(listed[i]));
            assert(positions.contains(v as u32));
            let j = choose|j: int| 0 <= j < positions.len() && positions[j] == v as u32;
            assert(values[j] == v);
        }
    }
    assert forall|i: int, j: int| 0 <= i < j < values.len() implies #[trigger] values[i]
        < #[trigger] values[j] by {
        assert(positions[i] < positions[j]);
    }
    model::lemma_ascending_unique(values, listed);
    assert forall|i: int| 0 <= i < positions.len() implies positions[i] == in_order(
        indices,
    )[i] by {
        assert(values[i] == positions[i] as int && values[i] == listed[i]);
    }
    assert(positions =~= in_order(indices));
}

/// The number that a density's random numbers start from.
pub fn seed(percent_bits: u64) -> (r: u64)
    ensures
        r == 0x6D75_6D62_6C69_6E67u64 ^ percent_bits,
{
    0x6D75_6D62_6C69_6E67u64 ^ percent_bits
}

/// Sorts distinct indices, which fit in 32 bits.
pub fn sorted_positions(indices: &[usize]) -> (positions: Vec<u32>)
    requires
        indices@.no_duplicates(),
        forall|i: int| 0 <= i < indices@.len() ==> #[trigger] indices@[i] <= u32::MAX,
    ensures
        positions@ == in_order(indices@),
        model::strictly_ascending(positions@),
        forall|i: int, j: int|
            0 <= i < j < positions@.len() ==> #[trigger] positions@[i] < #[trigger] positions@[j],
        positions@.len() == indices@.len(),
        forall|p: u32| #[trigger] positions@.contains(p) == indices@.contains(p as usize),
{
    let mut positions: Vec<u32> = Vec::with_capacity(indices.len());
    let mut i: usize = 0;
    while i < indices.len()
        invariant
            i <= indices.len(),
            positions@.len() == i,
            forall|k: int| 0 <= k < indices@.len() ==> #[trigger] indices@[k] <= u32::MAX,
            forall|k: int| 0 <= k < i ==> #[trigger] positions@[k] == indices@[k],
        decreases indices.len() - i,
    {
        positions.push(indices[i] as u32);
        i = i + 1;
    }
    let ghost listed = positions@;
    outside::sort_positions(&mut positions);
    proof {
        broadcast use vstd::seq_lib::to_multiset_contains;

        let sorted = positions@;
        assert(listed.no_duplicates());
        listed.lemma_multiset_has_no_duplicates();
        sorted.lemma_multiset_has_no_duplicates_conv();
        assert forall|a: int, b: int| 0 <= a < b < sorted.len() implies #[trigger] sorted[a]
            < #[trigger] sorted[b] by {
            assert(sorted[a] <= sorted[b] && sorted[a] != sorted[b]);
        }
        vstd::seq_lib::to_multiset_len(sorted);
        vstd::seq_lib::to_multiset_len(listed);
        assert forall|p: u32| #[trigger] sorted.contains(p) == indices@.contains(p as usize) by {
            assert(sorted.contains(p) <==> sorted.to_multiset().count(p) > 0);
            assert(listed.contains(p) <==> listed.to_multiset().count(p) > 0);
            if listed.contains(p) {
                let k = choose|k: int| 0 <= k < listed.len() && listed[k] == p;
                assert(indices@[k] == p as usize);
            }
            if indices@.contains(p as usize) {
                let k = choose|k: int| 0 <= k < indices@.len() && indices@[k] == p as usize;
                assert(listed[k] == p);
            }
        }
        lemma_in_order(indices@, sorted);
    }
    positions
}

/// Samples `k` distinct positions in `[0, UNIVERSE)`.
pub fn sample_positions(rng: &mut ChaCha8Rng, k: usize) -> (positions: Vec<u32>)
    requires
        k <= UNIVERSE,
    ensures
        positions@ == in_order(outside::sample_drawn(*old(rng), UNIVERSE as nat, k as nat)),
        *final(rng) == outside::sample_advanced(*old(rng), UNIVERSE as nat, k as nat),
        forall|p: u32| #[trigger]
            positions@.contains(p) == outside::sample_drawn(
                *old(rng),
                50_000,
                k as nat,
            ).contains(p as usize),
        forall|i: int, j: int|
            0 <= i < j < positions@.len() ==> #[trigger] positions@[i] < #[trigger] positions@[j],
        forall|i: int| 0 <= i < positions@.len() ==> #[trigger] positions@[i] < 50_000,
        positions@.len() == k,
        sampled(positions@),
{
    let indices = outside::sample_indices(rng, UNIVERSE as usize, k);
    let positions = sorted_positions(indices.as_slice());
    proof {
        assert forall|i: int| 0 <= i < positions@.len() implies #[trigger] positions@[i]
            < UNIVERSE by {
            assert(positions@.contains(positions@[i]));
            assert(indices@.contains(positions@[i] as usize));
        }
    }
    positions
}

/// Models the decoded footprint of a Roaring bitmap. The universe fits in a
/// single 64K block, so this is one array container (2 bytes per value) or one
/// bitmap container (8 KiB) once the block holds >= 4096 values.
pub fn roaring_in_memory_bytes(positions: &[u32]) -> (r: usize)
    ensures
        r == roaring_footprint(positions@.len()),
{
    if positions.len() >= ARRAY_TO_BITMAP_THRESHOLD {
        BITMAP_CONTAINER_BYTES
    } else {
        positions.len() * 2
    }
}

/// The positions that a serialized Mumbling bitmap of the universe lists are
/// those it was made of, and neither form of it is large.
pub(crate) proof fn lemma_mumbling_sampled(layout: Seq<model::Block>, positions: Seq<u32>)
    requires
        model::canonical(layout),
        model::members(layout) == positions.to_set(),
        sampled(positions),
    ensures
        model::layout_of(positions.to_set()) == layout,
        wire::serializable(layout),
        decoded(Format::Mumbling, wire::serialized(layout)) == Some(positions),
        wire::serialized(layout).len() <= u32::MAX,
        model::footprint(layout) <= BITMAP_CONTAINER_BYTES,
{
    model::canonical_layout_is_layout_of(layout);
    assert forall|pos: u32| #[trigger] model::members(layout).contains(pos) implies pos
        < UNIVERSE by {
        assert(positions.contains(pos));
    }
    wire::lemma_container_count(layout, UNIVERSE as int);
    wire::container_limit_suffices(layout);
    wire::deserialize_undoes_serialize(layout);
    model::canonical_positions_ascend(layout);
    model::lemma_strictly_ascending_unique(model::positions(layout), positions);
    wire::serialized_within_bound(layout);
    model::canonical_footprint(layout);
}

/// Serializes the bitmap of the positions. Returns the bytes and the modelled
/// size of the bitmap in memory.
pub fn encode_one(format: Format, positions: &[u32]) -> (r: Result<(Vec<u8>, usize), PageError>)
    requires
        sampled(positions@),
    ensures
        r matches Ok((blob, bytes)) && {
            &&& blob@ == encoded(format, positions@)
            &&& decoded(format, blob@) == Some(positions@)
            &&& blob@.len() <= u32::MAX
            &&& bytes == in_memory(format, positions@)
            &&& bytes <= BITMAP_CONTAINER_BYTES
        },
{
    match format {
        Format::Roaring => {
            let bitmap = outside::roaring_collect(positions);
            proof {
                model::lemma_strictly_ascending_unique(
                    outside::roaring_positions(bitmap),
                    positions@,
                );
            }
            match outside::roaring_serialize(&bitmap) {
                Ok(bytes) => Ok((bytes, roaring_in_memory_bytes(positions))),
                Err(_) => Err(PageError::SerializeRoaring),
            }
        },
        Format::Mumbling => {
            let bitmap = MumblingBitmap::from_iter(vstd::slice::slice_to_vec(positions));
            proof {
                lemma_mumbling_sampled(bitmap.layout(), positions@);
            }
            let bytes = bitmap.serialize();
            Ok((bytes, bitmap.in_memory_bytes()))
        },
    }
}

/// Exclusive or of all positions.
fn fold_positions(positions: &[u32]) -> (guard: u64)
    ensures
        guard == checksum(positions@),
{
    let mut guard: u64 = 0;
    let mut i: usize = 0;
    while i < positions.len()
        invariant
            i <= positions.len(),
            guard == checksum(positions@.take(i as int)),
        decreases positions.len() - i,
    {
        assert(positions@.take(i + 1).drop_last() =~= positions@.take(i as int));
        guard = guard ^ (positions[i] as u64);
        i = i + 1;
    }
    assert(positions@.take(positions@.len() as int) =~= positions@);
    guard
}

/// Decodes one blob into its set positions and returns a checksum so the work
/// is not optimized away.
///
/// Both formats do the same work: parse the serialized bytes and enumerate
/// every set position. Roaring builds its containers eagerly; Mumbling uses the
/// zero-copy [`MumblingReader`], which parses the header and descriptor array
/// and then iterates directly over the borrowed buffer.
pub fn decode_one(format: Format, blob: &[u8]) -> (r: Result<u64, PageError>)
    requires
        format is Mumbling ==> wire::readable(blob@),
    ensures
        match r {
            Ok(guard) => decoded(format, blob@) matches Some(positions) && guard == checksum(
                positions,
            ),
            Err(e) => decoded(format, blob@) is None && e is DeserializeRoaring,
        },
{
    match format {
        Format::Roaring => match outside::roaring_deserialize(blob) {
            Ok(bitmap) => {
                let positions = outside::roaring_list(&bitmap);
                Ok(fold_positions(positions.as_slice()))
            },
            Err(_) => Err(PageError::DeserializeRoaring),
        },
        Format::Mumbling => {
            assert(blob.len() <= usize::MAX);
            let reader = MumblingReader::new(blob);
            let positions = reader.iter();
            Ok(fold_positions(positions.as_slice()))
        },
    }
}

/// One blob without a bitmap is enough for there to be no checksum.
proof fn lemma_combined_none(format: Format, blobs: Seq<Seq<u8>>, rest: Seq<Seq<u8>>)
    requires
        combined(format, blobs) is None,
    ensures
        combined(format, blobs + rest) is None,
    decreases rest.len(),
{
    if rest.len() == 0 {
        assert(blobs + rest =~= blobs);
    } else {
        lemma_combined_none(format, blobs, rest.drop_last());
        assert((blobs + rest).drop_last() =~= blobs + rest.drop_last());
    }
}

/// The blobs of a list.
pub open spec fn contents(blobs: Seq<Vec<u8>>) -> Seq<Seq<u8>> {
    blobs.map_values(|blob: Vec<u8>| blob@)
}

/// Decodes every blob once. Returns the exclusive or of their checksums.
pub fn decode_blobs(format: Format, blobs: &[Vec<u8>]) -> (r: Result<u64, PageError>)
    requires
        format is Mumbling ==> forall|i: int|
            0 <= i < blobs@.len() ==> wire::readable((#[trigger] blobs@[i])@),
    ensures
        match r {
            Ok(guard) => combined(format, contents(blobs@)) == Some(guard),
            Err(e) => combined(format, contents(blobs@)) is None && e is DeserializeRoaring,
        },
{
    let ghost all = contents(blobs@);
    let mut guard: u64 = 0;
    let mut i: usize = 0;
    while i < blobs.len()
        invariant
            i <= blobs.len(),
            all == contents(blobs@),
            format is Mumbling ==> forall|k: int|
                0 <= k < blobs@.len() ==> wire::readable((#[trigger] blobs@[k])@),
            combined(format, all.take(i as int)) == Some(guard),
        decreases blobs.len() - i,
    {
        proof {
            assert(all.take(i + 1).drop_last() =~= all.take(i as int));
            assert(all.take(i + 1).last() == blobs@[i as int]@);
        }
        match decode_one(format, blobs[i].as_slice()) {
            Ok(sum) => {
                guard = guard ^ sum;
            },
            Err(e) => {
                proof {
                    lemma_combined_none(format, all.take(i + 1), all.skip(i + 1));
                    assert(all.take(i + 1) + all.skip(i + 1) =~= all);
                }
                return Err(e);
            },
        }
        i = i + 1;
    }
    assert(all.take(all.len() as int) =~= all);
    Ok(guard)
}

/// Decodes the first `count` blobs of a page, or all where there are fewer.
/// Returns the exclusive or of their checksums.
pub fn decode_page(format: Format, page: &[u8], count: usize) -> (r: Result<u64, PageError>)
    requires
        framing::complete(page@, count as nat),
        format is Mumbling ==> forall|i: int|
            0 <= i < framing::frames(page@, count as nat).len() ==> wire::readable(
                #[trigger] framing::frames(page@, count as nat)[i],
            ),
    ensures
        match r {
            Ok(guard) => combined(format, framing::frames(page@, count as nat)) == Some(guard),
            Err(e) => combined(format, framing::frames(page@, count as nat)) is None
                && e is DeserializeRoaring,
        },
{
    let ghost all = framing::frames(page@, count as nat);
    let mut guard: u64 = 0;
    let mut cursor: usize = 0;
    let mut decoded_count: usize = 0;
    let ghost mut done = Seq::<Seq<u8>>::empty();
    proof {
        assert(page@.skip(0) =~= page@);
        assert(done + all =~= all);
    }
    while page.len() - cursor >= framing::LENGTH_SIZE && decoded_count < count
        invariant
            cursor <= page@.len(),
            decoded_count <= count,
            all == framing::frames(page@, count as nat),
            all == done + framing::frames(
                page@.skip(cursor as int),
                (count - decoded_count) as nat,
            ),
            framing::complete(page@.skip(cursor as int), (count - decoded_count) as nat),
            format is Mumbling ==> forall|i: int|
                0 <= i < all.len() ==> wire::readable(#[trigger] all[i]),
            combined(format, done) == Some(guard),
        decreases count - decoded_count,
    {
        let ghost rest = page@.skip(cursor as int);
        let len: usize = framing::read_length(page, cursor) as usize;
        let start: usize = cursor + framing::LENGTH_SIZE;
        let end: usize = start + len;
        let blob = vstd::slice::slice_subrange(page, start, end);
        let ghost more = framing::frames(
            rest.skip(framing::LENGTH_SIZE + len),
            (count - decoded_count - 1) as nat,
        );
        proof {
            assert(blob@ =~= rest.subrange(
                framing::LENGTH_SIZE as int,
                framing::LENGTH_SIZE + len,
            ));
            assert(rest.skip(framing::LENGTH_SIZE + len) =~= page@.skip(end as int));
            assert(all == done + (seq![blob@] + more));
            assert(all[done.len() as int] == blob@);
            assert(done.push(blob@).drop_last() =~= done);
            assert(all =~= done.push(blob@) + more);
        }
        match decode_one(format, blob) {
            Ok(sum) => {
                guard = guard ^ sum;
            },
            Err(e) => {
                proof {
                    lemma_combined_none(format, done.push(blob@), more);
                }
                return Err(e);
            },
        }
        proof {
            done = done.push(blob@);
        }
        cursor = end;
        decoded_count = decoded_count + 1;
    }
    assert(done =~= all);
    Ok(guard)
}

/// A blob is the serialized form of a bitmap of the universe with this many
/// positions.
pub open spec fn holds_bitmap(format: Format, blob: Seq<u8>, bits: nat) -> bool {
    decoded(format, blob) matches Some(positions) && {
        &&& sampled(positions)
        &&& positions.len() == bits
        &&& blob == encoded(format, positions)
    }
}

/// Decoding a blob gives these distinct positions of the universe, in ascending
/// order.
#[verifier::opaque]
pub open spec fn lists(format: Format, blob: Seq<u8>, positions: Seq<u32>) -> bool {
    &&& sampled(positions)
    &&& decoded(format, blob) == Some(positions)
}

/// Blobs that hold bitmaps have a checksum.
proof fn lemma_combined_some(format: Format, blobs: Seq<Seq<u8>>)
    requires
        forall|i: int|
            0 <= i < blobs.len() ==> decoded(format, #[trigger] blobs[i]) is Some,
    ensures
        combined(format, blobs) is Some,
    decreases blobs.len(),
{
    if blobs.len() > 0 {
        let rest = blobs.drop_last();
        assert forall|i: int| 0 <= i < rest.len() implies decoded(
            format,
            #[trigger] rest[i],
        ) is Some by {
            assert(rest[i] == blobs[i]);
        }
        lemma_combined_some(format, rest);
        assert(decoded(format, blobs[blobs.len() - 1]) is Some);
    }
}

/// A page of bitmaps of one format, each with the same number of positions.
#[derive(Debug)]
pub struct Page {
    format: Format,
    bits_per_bitmap: usize,
    /// Individual serialized bitmaps.
    blobs: Vec<Vec<u8>>,
    /// The concatenated page buffer.
    bytes: Vec<u8>,
    in_memory_total: usize,
}

impl Page {
    /// The format of the bitmaps.
    pub closed spec fn bitmap_format(&self) -> Format {
        self.format
    }

    /// The number of positions in each bitmap.
    pub closed spec fn bits(&self) -> nat {
        self.bits_per_bitmap as nat
    }

    /// The serialized bitmaps.
    pub closed spec fn bitmaps(&self) -> Seq<Seq<u8>> {
        contents(self.blobs@)
    }

    /// The buffer holds the bitmaps, each of them one of the universe with the
    /// right number of positions.
    #[verifier::type_invariant]
    pub closed spec fn inv(&self) -> bool {
        &&& self.bits_per_bitmap <= UNIVERSE
        &&& self.blobs@.len() <= COUNT_LIMIT
        &&& self.bytes@ == framing::framed(self.bitmaps())
        &&& framing::frameable(self.bitmaps())
        &&& forall|i: int|
            0 <= i < self.blobs@.len() ==> holds_bitmap(
                self.format,
                #[trigger] self.bitmaps()[i],
                self.bits_per_bitmap as nat,
            )
        &&& self.in_memory_total == in_memory_sum(self.format, self.bitmaps())
        &&& self.in_memory_total <= BITMAP_CONTAINER_BYTES * self.blobs@.len()
    }

    /// Creates a page without bitmaps.
    pub fn empty(format: Format, bits_per_bitmap: usize) -> (page: Self)
        requires
            bits_per_bitmap <= UNIVERSE,
        ensures
            page.bitmap_format() == format,
            page.bits() == bits_per_bitmap,
            page.bitmaps() == Seq::<Seq<u8>>::empty(),
    {
        let page = Page {
            format,
            bits_per_bitmap,
            blobs: Vec::new(),
            bytes: Vec::new(),
            in_memory_total: 0,
        };
        assert(page.bitmaps() =~= Seq::<Seq<u8>>::empty());
        page
    }

    /// Adds the bitmap of the positions.
    pub fn with_bitmap(self, positions: &[u32]) -> (r: Result<Self, PageError>)
        requires
            sampled(positions@),
            positions@.len() == self.bits(),
            self.bitmaps().len() < COUNT_LIMIT,
        ensures
            r matches Ok(page) && {
                &&& page.bitmap_format() == self.bitmap_format()
                &&& page.bits() == self.bits()
                &&& page.bitmaps() == self.bitmaps().push(
                    encoded(self.bitmap_format(), positions@),
                )
                &&& lists(self.bitmap_format(), page.bitmaps().last(), positions@)
            },
    {
        proof {
            use_type_invariant(&self);
        }
        let ghost before = self.bitmaps();
        let format = self.format;
        let bits_per_bitmap: usize = self.bits_per_bitmap;
        let in_memory_total: usize = self.in_memory_total;
        let mut blobs = self.blobs;
        let mut bytes = self.bytes;
        match encode_one(format, positions) {
            Ok((blob, in_memory_bytes)) => {
                let ghost after = before.push(blob@);
                assert(lists(format, blob@, positions@)) by {
                    reveal(lists);
                }
                framing::push_frame(&mut bytes, blob.as_slice());
                proof {
                    framing::lemma_framed_push(before, blob@);
                    assert(after.drop_last() =~= before);
                }
                blobs.push(blob);
                proof {
                    assert(contents(blobs@) =~= after);
                }
                Ok(
                    Page {
                        format,
                        bits_per_bitmap,
                        blobs,
                        bytes,
                        in_memory_total: in_memory_total + in_memory_bytes,
                    },
                )
            },
            Err(e) => Err(e),
        }
    }

    /// Fills a page with random bitmaps: adds one as long as the page is smaller
    /// than the target. The bitmaps are those of the draws from the seed, in order.
    pub fn fill(format: Format, seed: u64, bits_per_bitmap: usize) -> (r: Result<Self, PageError>)
        requires
            bits_per_bitmap <= UNIVERSE,
        ensures
            r matches Ok(page) && {
                &&& page.bitmap_format() == format
                &&& page.bits() == bits_per_bitmap
                &&& page.bitmaps() == drawn_bitmaps(
                    format,
                    seed,
                    bits_per_bitmap as nat,
                    page.bitmaps().len(),
                )
                &&& forall|i: int|
                    0 <= i < page.bitmaps().len() ==> {
                        let positions = drawn(seed, bits_per_bitmap as nat, i as nat);
                        &&& lists(format, #[trigger] page.bitmaps()[i], positions)
                        &&& positions.len() == bits_per_bitmap
                    }
                &&& page.bitmaps().len() > 0
                &&& framing::framed(page.bitmaps()).len() >= 1_048_576
                &&& framing::framed(page.bitmaps().drop_last()).len() < 1_048_576
                &&& exists|generators: Seq<ChaCha8Rng>|
                    {
                        &&& #[trigger] generators.len() == page.bitmaps().len()
                        &&& generators[0] == outside::chacha_seeded(seed)
                        &&& forall|i: int|
                            0 <= i < generators.len() - 1 ==> generators[i + 1]
                                == outside::sample_advanced(
                                #[trigger] generators[i],
                                50_000,
                                bits_per_bitmap as nat,
                            )
                        &&& forall|i: int|
                            0 <= i < generators.len() ==> page.bitmaps()[i] == encoded(
                                format,
                                in_order(
                                    outside::sample_drawn(
                                        #[trigger] generators[i],
                                        50_000,
                                        bits_per_bitmap as nat,
                                    ),
                                ),
                            )
                    }
            },
    {
        let mut rng = outside::seeded_rng(seed);
        let mut page = Page::empty(format, bits_per_bitmap);
        proof {
            use_type_invariant(&page);
        }
        while page.bytes.len() < PAGE_TARGET
            invariant
                bits_per_bitmap <= UNIVERSE,
                page.inv(),
                page.bitmap_format() == format,
                page.bits() == bits_per_bitmap,
                rng == generator(seed, bits_per_bitmap as nat, page.bitmaps().len()),
                page.bitmaps() == drawn_bitmaps(
                    format,
                    seed,
                    bits_per_bitmap as nat,
                    page.bitmaps().len(),
                ),
                forall|i: int|
                    0 <= i < page.bitmaps().len() ==> {
                        let positions = drawn(seed, bits_per_bitmap as nat, i as nat);
                        &&& lists(format, #[trigger] page.bitmaps()[i], positions)
                        &&& positions.len() == bits_per_bitmap
                    },
                page.bitmaps().len() > 0 ==> framing::framed(page.bitmaps().drop_last()).len()
                    < PAGE_TARGET,
            decreases
                    if page.bytes@.len() < PAGE_TARGET {
                        PAGE_TARGET - page.bytes@.len()
                    } else {
                        0
                    },
        {
            let positions = sample_positions(&mut rng, bits_per_bitmap);
            let ghost before = page.bitmaps();
            proof {
                framing::lemma_framed_len(before);
                assert(forall|i: int|
                    0 <= i < before.len() ==> {
                        let listed = drawn(seed, bits_per_bitmap as nat, i as nat);
                        &&& lists(format, #[trigger] before[i], listed)
                        &&& listed.len() == bits_per_bitmap
                    });
            }
            match page.with_bitmap(positions.as_slice()) {
                Ok(longer) => {
                    proof {
                        use_type_invariant(&longer);
                        let blob = encoded(format, positions@);
                        framing::lemma_framed_push(before, blob);
                        assert(before.push(blob).drop_last() =~= before);
                        assert(before.push(blob) =~= drawn_bitmaps(
                            format,
                            seed,
                            bits_per_bitmap as nat,
                            before.len() + 1,
                        ));
                        let k = bits_per_bitmap as nat;
                        assert(positions@ == drawn(seed, k, before.len()));
                        assert(longer.bitmaps() == before.push(blob));
                        assert forall|i: int| 0 <= i < longer.bitmaps().len() implies {
                            let listed = drawn(seed, k, i as nat);
                            &&& lists(format, #[trigger] longer.bitmaps()[i], listed)
                            &&& listed.len() == bits_per_bitmap
                        } by {
                            if i < before.len() {
                                assert(longer.bitmaps()[i] == before[i]);
                            } else {
                                assert(longer.bitmaps()[i] == longer.bitmaps().last());
                            }
                        }
                    }
                    page = longer;
                },
                Err(e) => {
                    return Err(e);
                },
            }
        }
        proof {
            assert(page.bitmaps().len() > 0);
            let k = bits_per_bitmap as nat;
            let generators = Seq::new(page.bitmaps().len(), |i: int| generator(seed, k, i as nat));
            assert(generators.len() == page.bitmaps().len());
            assert forall|i: int| 0 <= i < generators.len() - 1 implies generators[i + 1]
                == outside::sample_advanced(#[trigger] generators[i], 50_000, k) by {
                assert(generators[i + 1] == generator(seed, k, (i + 1) as nat));
            }
            assert forall|i: int| 0 <= i < generators.len() implies page.bitmaps()[i] == encoded(
                format,
                in_order(outside::sample_drawn(#[trigger] generators[i], 50_000, k)),
            ) by {
                assert(page.bitmaps()[i] == drawn_bitmaps(format, seed, k, page.bitmaps().len())[i]);
            }
        }
        Ok(page)
    }

    /// Format of the bitmaps.
    pub fn format(&self) -> (r: Format)
        ensures
            r == self.bitmap_format(),
    {
        self.format
    }

    /// Number of positions in each bitmap.
    pub fn bits_per_bitmap(&self) -> (r: usize)
        ensures
            r == self.bits(),
    {
        self.bits_per_bitmap
    }

    /// Number of bitmaps.
    pub fn bitmap_count(&self) -> (r: usize)
        ensures
            r == self.bitmaps().len(),
    {
        self.blobs.len()
    }

    /// Number of positions in all bitmaps.
    pub fn total_bits_set(&self) -> (r: u64)
        ensures
            r == self.bitmaps().len() * self.bits(),
    {
        proof {
            use_type_invariant(self);
            let n = self.blobs@.len() as int;
            let k = self.bits_per_bitmap as int;
            assert(n * k <= 262_144 * 50_000) by (nonlinear_arith)
                requires
                    0 <= n <= 262_144,
                    0 <= k <= 50_000,
            ;
        }
        self.blobs.len() as u64 * self.bits_per_bitmap as u64
    }

    /// The page: each bitmap with its length before it.
    pub fn as_bytes(&self) -> (r: &[u8])
        ensures
            r@ == framing::framed(self.bitmaps()),
    {
        proof {
            use_type_invariant(self);
        }
        self.bytes.as_slice()
    }

    /// Modelled size of the decoded bitmaps in memory.
    pub fn in_memory_total(&self) -> (r: usize)
        ensures
            r == in_memory_sum(self.bitmap_format(), self.bitmaps()),
    {
        proof {
            use_type_invariant(self);
        }
        self.in_memory_total
    }

    /// Decodes every bitmap once. Returns the exclusive or of their checksums.
    pub fn decode(&self) -> (r: Result<u64, PageError>)
        ensures
            r matches Ok(guard) && combined(self.bitmap_format(), self.bitmaps()) == Some(guard),
    {
        proof {
            use_type_invariant(self);
            assert forall|i: int| 0 <= i < self.blobs@.len() implies decoded(
                self.format,
                (#[trigger] self.blobs@[i])@,
            ) is Some by {
                assert(holds_bitmap(self.format, self.bitmaps()[i], self.bits_per_bitmap as nat));
            }
            assert forall|i: int| 0 <= i < self.bitmaps().len() implies decoded(
                self.format,
                #[trigger] self.bitmaps()[i],
            ) is Some by {
                assert(self.bitmaps()[i] == self.blobs@[i]@);
            }
            lemma_combined_some(self.format, self.bitmaps());
        }
        decode_blobs(self.format, self.blobs.as_slice())
    }

    /// Compresses the page.
    pub fn compress(&self) -> (r: Result<CompressedPage, PageError>)
        ensures
            match r {
                Ok(page) => {
                    &&& page.bitmap_format() == self.bitmap_format()
                    &&& page.bitmaps() == self.bitmaps()
                    &&& outside::zstd_compressed(framing::framed(self.bitmaps()), 9) == Some(
                        page.bytes(),
                    )
                },
                Err(e) => {
                    &&& e is Compress
                    &&& outside::zstd_compressed(framing::framed(self.bitmaps()), 9) is None
                },
            },
    {
        proof {
            use_type_invariant(self);
        }
        match outside::zstd_encode(self.bytes.as_slice(), ZSTD_LEVEL) {
            Ok(bytes) => {
                proof {
                    let all = self.bitmaps();
                    framing::frames_undo_framed(all, Seq::empty());
                    assert(framing::framed(all) + Seq::<u8>::empty() =~= framing::framed(all));
                    assert forall|i: int| 0 <= i < all.len() implies decoded(
                        self.format,
                        #[trigger] all[i],
                    ) is Some by {
                        assert(holds_bitmap(self.format, all[i], self.bits_per_bitmap as nat));
                    }
                }
                Ok(CompressedPage { format: self.format, count: self.blobs.len(), bytes })
            },
            Err(_) => Err(PageError::Compress),
        }
    }
}

/// A compressed page of bitmaps.
#[derive(Debug)]
pub struct CompressedPage {
    format: Format,
    count: usize,
    bytes: Vec<u8>,
}

impl CompressedPage {
    /// The format of the bitmaps.
    pub closed spec fn bitmap_format(&self) -> Format {
        self.format
    }

    /// The compressed page.
    pub closed spec fn bytes(&self) -> Seq<u8> {
        self.bytes@
    }

    /// The serialized bitmaps in the page.
    pub closed spec fn bitmaps(&self) -> Seq<Seq<u8>> {
        framing::frames(outside::zstd_decompressed(self.bytes@)->0, self.count as nat)
    }

    /// The page can be decompressed and holds bitmaps.
    #[verifier::type_invariant]
    pub closed spec fn inv(&self) -> bool {
        &&& outside::zstd_decompressed(self.bytes@) matches Some(page) && framing::complete(
            page,
            self.count as nat,
        )
        &&& forall|i: int|
            0 <= i < self.bitmaps().len() ==> decoded(
                self.format,
                #[trigger] self.bitmaps()[i],
            ) is Some
    }

    /// Size of the compressed page.
    pub fn compressed_size(&self) -> (r: usize)
        ensures
            r == self.bytes().len(),
    {
        self.bytes.len()
    }

    /// Decompresses the page and decodes every bitmap in it. Returns the
    /// exclusive or of their checksums.
    pub fn decode(&self) -> (r: Result<u64, PageError>)
        ensures
            r matches Ok(guard) && combined(self.bitmap_format(), self.bitmaps()) == Some(guard),
    {
        proof {
            use_type_invariant(self);
        }
        match outside::zstd_decode(self.bytes.as_slice()) {
            Ok(page) => {
                proof {
                    lemma_combined_some(self.format, self.bitmaps());
                }
                decode_page(self.format, page.as_slice(), self.count)
            },
            Err(_) => Err(PageError::Decompress),
        }
    }
}

} // verus!
