//! What the library takes from the standard library and from other crates
//! without proof.

use crate::model;
use rand::seq::index;
use rand::SeedableRng;
use rand_chacha::ChaCha8Rng;
use roaring::RoaringBitmap;
use vstd::prelude::*;

verus! {

/// `[u32]::sort_unstable`: puts the values in ascending order. The values stay
/// the same, each as often as it occurs.
#[verifier::external_body]
pub(crate) fn sort_positions(positions: &mut Vec<u32>)
    ensures
        forall|i: int, j: int|
            0 <= i < j < final(positions)@.len() ==> #[trigger] final(positions)@[i]
                <= #[trigger] final(positions)@[j],
        final(positions)@.to_multiset() == old(positions)@.to_multiset(),
{
    positions.sort_unstable();
}

/// The error of `std::io`, which the calls below hand on.
#[verifier::external_type_specification]
#[verifier::external_body]
pub struct ExIoError(std::io::Error);

/// The random number generator of `rand_chacha`, carried through.
#[verifier::external_type_specification]
#[verifier::external_body]
pub struct ExChaCha8Rng(ChaCha8Rng);

/// The generator that `ChaCha8Rng::seed_from_u64` makes of a seed.
pub uninterp spec fn chacha_seeded(seed: u64) -> ChaCha8Rng;

/// The indices that `rand::seq::index::sample` draws from a generator.
pub uninterp spec fn sample_drawn(rng: ChaCha8Rng, length: nat, amount: nat) -> Seq<usize>;

/// The generator after `rand::seq::index::sample` has drawn from it.
pub uninterp spec fn sample_advanced(rng: ChaCha8Rng, length: nat, amount: nat) -> ChaCha8Rng;

/// `ChaCha8Rng::seed_from_u64`: the generator that starts from the seed, the same
/// one for the same seed.
#[verifier::external_body]
pub(crate) fn seeded_rng(seed: u64) -> (rng: ChaCha8Rng)
    ensures
        rng == chacha_seeded(seed),
{
    ChaCha8Rng::seed_from_u64(seed)
}

/// `rand::seq::index::sample`: exactly `amount` distinct indices below
/// `length`. Which ones, in what order, and how the generator goes on, depends on
/// the generator and the two numbers alone. It panics where more indices are
/// asked for than there are.
#[verifier::external_body]
pub(crate) fn sample_indices(rng: &mut ChaCha8Rng, length: usize, amount: usize) -> (indices: Vec<
    usize,
>)
    requires
        amount <= length <= u32::MAX,
    ensures
        indices@ == sample_drawn(*old(rng), length as nat, amount as nat),
        *final(rng) == sample_advanced(*old(rng), length as nat, amount as nat),
        indices@.len() == amount,
        indices@.no_duplicates(),
        forall|i: int| 0 <= i < indices@.len() ==> #[trigger] indices@[i] < length,
{
    index::sample(rng, length, amount).into_vec()
}

/// The bitmap of the `roaring` crate.
#[verifier::external_type_specification]
#[verifier::external_body]
pub struct ExRoaringBitmap(RoaringBitmap);

/// The positions that a Roaring bitmap yields when it is iterated, in order.
pub uninterp spec fn roaring_positions(bitmap: RoaringBitmap) -> Seq<u32>;

/// The bitmap was built from positions: its containers are not empty, have
/// distinct keys in ascending order, and are arrays where they hold at most
/// 4096 values and bitmaps where they hold more. A bitmap read from foreign
/// bytes need not be like that.
pub uninterp spec fn roaring_regular(bitmap: RoaringBitmap) -> bool;

/// The serialized form of a regular bitmap with these positions.
pub uninterp spec fn roaring_bytes(positions: Seq<u32>) -> Seq<u8>;

/// The positions of the bitmap that serialized bytes hold, `None` where
/// `RoaringBitmap::deserialize_from` rejects them.
pub uninterp spec fn roaring_parsed(bytes: Seq<u8>) -> Option<Seq<u32>>;

/// Collecting positions into a `RoaringBitmap`: they are inserted one by one, so
/// the bitmap is regular and yields each of them once, in ascending order.
#[verifier::external_body]
pub(crate) fn roaring_collect(positions: &[u32]) -> (bitmap: RoaringBitmap)
    ensures
        roaring_regular(bitmap),
        model::strictly_ascending(roaring_positions(bitmap)),
        roaring_positions(bitmap).to_set() == positions@.to_set(),
{
    positions.iter().copied().collect()
}

/// `RoaringBitmap::serialize_into` a vector. The bytes of a regular bitmap are
/// determined by its positions, and reading them gives the positions back. They
/// are a header of 8 bytes and, for each of at most 65536 containers, 8 bytes
/// and a payload of at most 8192. Its errors are those of the writer, and a
/// vector, which grows as needed, has none.
#[verifier::external_body]
pub(crate) fn roaring_serialize(bitmap: &RoaringBitmap) -> (r: Result<Vec<u8>, std::io::Error>)
    requires
        roaring_regular(*bitmap),
    ensures
        r is Ok,
        r matches Ok(bytes) ==> {
            &&& bytes@ == roaring_bytes(roaring_positions(*bitmap))
            &&& roaring_parsed(bytes@) == Some(roaring_positions(*bitmap))
            &&& bytes@.len() <= 8 + 65536 * 8200
        },
{
    let mut bytes = Vec::with_capacity(bitmap.serialized_size());
    bitmap.serialize_into(&mut bytes)?;
    Ok(bytes)
}

/// `RoaringBitmap::deserialize_from` a byte slice: rejects the bytes or gives
/// the bitmap that they hold.
#[verifier::external_body]
pub(crate) fn roaring_deserialize(bytes: &[u8]) -> (r: Result<RoaringBitmap, std::io::Error>)
    ensures
        match r {
            Ok(bitmap) => roaring_parsed(bytes@) == Some(roaring_positions(bitmap)),
            Err(_) => roaring_parsed(bytes@) is None,
        },
{
    RoaringBitmap::deserialize_from(bytes)
}

/// `RoaringBitmap::iter`, with what it yields put in a vector.
#[verifier::external_body]
pub(crate) fn roaring_list(bitmap: &RoaringBitmap) -> (positions: Vec<u32>)
    ensures
        positions@ == roaring_positions(*bitmap),
{
    bitmap.iter().collect()
}

/// The zstd frame that `zstd::encode_all`, with the zstd library that comes with
/// the crate, makes of data at a level, `None` where it fails.
pub uninterp spec fn zstd_compressed(data: Seq<u8>, level: i32) -> Option<Seq<u8>>;

/// The data that zstd frames hold, `None` where `zstd::decode_all` rejects them.
pub uninterp spec fn zstd_decompressed(bytes: Seq<u8>) -> Option<Seq<u8>>;

/// `zstd::encode_all`: a frame that holds the data, or an error. Which of the two
/// depends on the data and the level alone; running out of memory is left aside.
#[verifier::external_body]
pub(crate) fn zstd_encode(data: &[u8], level: i32) -> (r: Result<Vec<u8>, std::io::Error>)
    ensures
        match r {
            Ok(bytes) => {
                &&& zstd_compressed(data@, level) == Some(bytes@)
                &&& zstd_decompressed(bytes@) == Some(data@)
            },
            Err(_) => zstd_compressed(data@, level) is None,
        },
{
    zstd::encode_all(data, level)
}

/// `zstd::decode_all`: the data that the frames hold, or an error. Which of the
/// two depends on the bytes alone; running out of memory is left aside.
#[verifier::external_body]
pub(crate) fn zstd_decode(bytes: &[u8]) -> (r: Result<Vec<u8>, std::io::Error>)
    ensures
        match r {
            Ok(data) => zstd_decompressed(bytes@) == Some(data@),
            Err(_) => zstd_decompressed(bytes@) is None,
        },
{
    zstd::decode_all(bytes)
}

} // verus!
