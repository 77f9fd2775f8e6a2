//! What pages of bitmaps are, in terms of their bytes, of positions and of
//! arithmetic alone.

use crate::framing;
use crate::model;
use crate::mumbling::MumblingBitmap;
use crate::outside;
use crate::page;
use crate::wire;
use vstd::prelude::*;
use vstd::std_specs::cmp::PartialEqSpec;

verus! {

/// Two bitmaps compare equal if and only if they have the same containers, which
/// for bitmaps built from positions means that they hold the same positions.
pub proof fn equality_of_bitmaps(a: MumblingBitmap, b: MumblingBitmap)
    ensures
        a.eq_spec(&b) <==> a.layout() == b.layout(),
        a.layout() == model::layout_of(a@) && b.layout() == model::layout_of(b@) ==> (a.eq_spec(&b)
            <==> a@ == b@),
{
}

/// A list ascends where each position is below all those after it.
pub proof fn ascending_lists(s: Seq<u32>)
    ensures
        model::strictly_ascending(s) <==> forall|i: int, j: int|
            0 <= i < j < s.len() ==> #[trigger] s[i] < #[trigger] s[j],
        page::sampled(s) <==> {
            &&& forall|i: int, j: int| 0 <= i < j < s.len() ==> #[trigger] s[i] < #[trigger] s[j]
            &&& forall|i: int| 0 <= i < s.len() ==> #[trigger] s[i] < 50_000
        },
{
}

/// A page holds its byte strings one after the other, each with its length before
/// it in four bytes, the low one first.
pub proof fn framed_by_parts(a: Seq<Seq<u8>>, b: Seq<Seq<u8>>)
    ensures
        framing::framed(a + b) == framing::framed(a) + framing::framed(b),
        framing::framed(Seq::<Seq<u8>>::empty()) == Seq::<u8>::empty(),
    decreases b.len(),
{
    if b.len() == 0 {
        assert(a + b =~= a);
        assert(framing::framed(a) + framing::framed(b) =~= framing::framed(a));
    } else {
        framed_by_parts(a, b.drop_last());
        assert((a + b).drop_last() =~= a + b.drop_last());
        assert(framing::framed(a + b) =~= framing::framed(a) + framing::framed(b));
    }
}

/// One byte string in a page: its length in four bytes, then itself.
pub proof fn framed_alone(blob: Seq<u8>)
    requires
        blob.len() <= u32::MAX,
    ensures
        ({
            let page = framing::framed(seq![blob]);
            &&& page.len() == 4 + blob.len()
            &&& page[0] + 256 * page[1] + 65536 * page[2] + 16777216 * page[3] == blob.len()
            &&& page.skip(4) == blob
        }),
        framing::length_bytes(blob.len()) == framing::framed(seq![blob]).take(4),
{
    let one = seq![blob];
    assert(one.drop_last() =~= Seq::<Seq<u8>>::empty());
    assert(framing::framed(one.drop_last()) =~= Seq::<u8>::empty());
    let head = framing::length_bytes(blob.len());
    let page = framing::framed(one);
    assert(page =~= head + blob);
    assert(page[0] == head[0] && page[1] == head[1] && page[2] == head[2] && page[3] == head[3]);
    let n = blob.len();
    assert(n / 65536 == (n / 256) / 256 && n / 16777216 == ((n / 256) / 256) / 256);
    assert(page.skip(4) =~= blob);
    assert(page.take(4) =~= head);
}

/// Reading a page gives the byte strings that it begins with: as many as asked
/// for, or all where what is left is too short for a length.
pub proof fn frames_are_what_the_page_begins_with(page: Seq<u8>, count: nat) -> (rest: Seq<u8>)
    requires
        framing::complete(page, count),
    ensures
        page == framing::framed(framing::frames(page, count)) + rest,
        framing::frames(page, count).len() <= count,
        framing::frames(page, count).len() < count ==> rest.len() < 4,
        forall|i: int|
            0 <= i < framing::frames(page, count).len() ==> (#[trigger] framing::frames(
                page,
                count,
            )[i]).len() <= u32::MAX,
    decreases count,
{
    let all = framing::frames(page, count);
    if count == 0 || page.len() < 4 {
        assert(framing::framed(all) + page =~= page);
        page
    } else {
        let end = 4 + framing::length_of(page);
        let first = page.subrange(4, end);
        let after = page.skip(end);
        let more = framing::frames(after, (count - 1) as nat);
        let rest = frames_are_what_the_page_begins_with(after, (count - 1) as nat);
        framed_by_parts(seq![first], more);
        lemma_first_frame(page);
        lemma_three_parts(page, end, framing::framed(more), rest);
        assert(all == seq![first] + more);
        assert forall|i: int| 0 <= i < all.len() implies (#[trigger] all[i]).len() <= u32::MAX by {
            if i > 0 {
                assert(all[i] == more[i - 1]);
            }
        }
        rest
    }
}

/// A page is its front and what follows it.
proof fn lemma_three_parts(page: Seq<u8>, end: int, b: Seq<u8>, c: Seq<u8>)
    requires
        0 <= end <= page.len(),
        page.skip(end) == b + c,
    ensures
        page == page.take(end) + b + c,
{
    assert(page =~= page.take(end) + page.skip(end));
    assert(page.take(end) + b + c =~= page.take(end) + (b + c));
}

/// The first byte string of a page, with its length, is what the page begins with.
proof fn lemma_first_frame(page: Seq<u8>)
    requires
        page.len() >= 4,
        4 + framing::length_of(page) <= page.len(),
    ensures
        framing::framed(seq![page.subrange(4, 4 + framing::length_of(page))]) == page.take(
            4 + framing::length_of(page),
        ),
        page.subrange(4, 4 + framing::length_of(page)).len() <= u32::MAX,
{
    let len = framing::length_of(page);
    let end = 4 + len;
    let first = page.subrange(4, end);
    framed_alone(first);
    let head = framing::framed(seq![first]);
    lemma_length_unique(page, head, len);
    assert forall|i: int| 0 <= i < end implies head[i] == page[i] by {
        if i >= 4 {
            assert(head.skip(4)[i - 4] == first[i - 4]);
        }
    }
    assert(head =~= page.take(end));
}

/// Four bytes are determined by the number that they state.
proof fn lemma_length_unique(a: Seq<u8>, b: Seq<u8>, n: int)
    requires
        a.len() >= 4,
        b.len() >= 4,
        a[0] + 256 * a[1] + 65536 * a[2] + 16777216 * a[3] == n,
        b[0] + 256 * b[1] + 65536 * b[2] + 16777216 * b[3] == n,
    ensures
        a[0] == b[0],
        a[1] == b[1],
        a[2] == b[2],
        a[3] == b[3],
{
}

/// The byte strings of a page are complete where the length stated for each does
/// not reach beyond the page.
pub proof fn complete_pages(blobs: Seq<Seq<u8>>, rest: Seq<u8>, count: nat)
    requires
        forall|i: int| 0 <= i < blobs.len() ==> (#[trigger] blobs[i]).len() <= u32::MAX,
        blobs.len() <= count,
        blobs.len() < count ==> rest.len() < 4,
    ensures
        framing::complete(framing::framed(blobs) + rest, count),
        framing::frames(framing::framed(blobs) + rest, count) == blobs,
    decreases blobs.len(),
{
    let page = framing::framed(blobs) + rest;
    if blobs.len() == 0 {
        assert(page =~= rest);
        assert(framing::frames(page, count) =~= blobs);
    } else {
        let first = blobs[0];
        let more = blobs.skip(1);
        assert(blobs =~= seq![first] + more);
        framed_by_parts(seq![first], more);
        framed_alone(first);
        let head = framing::framed(seq![first]);
        let after = framing::framed(more) + rest;
        assert(page =~= head + after);
        assert(page[0] == head[0] && page[1] == head[1] && page[2] == head[2] && page[3]
            == head[3]);
        let end = 4 + first.len() as int;
        assert(framing::length_of(page) == first.len());
        assert(page.subrange(4, end) =~= head.skip(4));
        assert(page.skip(end) =~= after);
        assert forall|i: int| 0 <= i < more.len() implies (#[trigger] more[i]).len()
            <= u32::MAX by {
            assert(more[i] == blobs[i + 1]);
        }
        complete_pages(more, rest, (count - 1) as nat);
    }
}

/// The checksum of positions is the exclusive or of all of them.
pub proof fn checksum_by_parts(a: Seq<u32>, b: Seq<u32>)
    ensures
        page::checksum(a + b) == page::checksum(a) ^ page::checksum(b),
        page::checksum(Seq::<u32>::empty()) == 0,
        b.len() == 1 ==> page::checksum(b) == b[0],
    decreases b.len(),
{
    let x = page::checksum(a);
    if b.len() == 0 {
        assert(a + b =~= a);
        assert(x ^ 0 == x) by (bit_vector);
    } else {
        checksum_by_parts(a, b.drop_last());
        assert((a + b).drop_last() =~= a + b.drop_last());
        let y = page::checksum(b.drop_last());
        let z = b.last() as u64;
        assert((x ^ y) ^ z == x ^ (y ^ z)) by (bit_vector);
        if b.len() == 1 {
            assert(0 ^ z == z) by (bit_vector);
        }
    }
}

/// The checksum of serialized bitmaps is the exclusive or of all positions of all
/// of them, and there is none where one of them holds no bitmap.
pub proof fn combined_by_parts(format: page::Format, a: Seq<Seq<u8>>, b: Seq<Seq<u8>>)
    ensures
        page::combined(format, a + b) == match (
            page::combined(format, a),
            page::combined(format, b),
        ) {
            (Some(x), Some(y)) => Some(x ^ y),
            _ => None,
        },
        page::combined(format, Seq::<Seq<u8>>::empty()) == Some(0u64),
        b.len() == 1 ==> page::combined(format, b) == match page::decoded(format, b[0]) {
            Some(positions) => Some(page::checksum(positions)),
            None => None,
        },
    decreases b.len(),
{
    if b.len() == 0 {
        assert(a + b =~= a);
        if let Some(x) = page::combined(format, a) {
            assert(x ^ 0 == x) by (bit_vector);
        }
    } else {
        combined_by_parts(format, a, b.drop_last());
        assert((a + b).drop_last() =~= a + b.drop_last());
        if let (Some(x), Some(y), Some(positions)) = (
            page::combined(format, a),
            page::combined(format, b.drop_last()),
            page::decoded(format, b.last()),
        ) {
            let z = page::checksum(positions);
            assert((x ^ y) ^ z == x ^ (y ^ z)) by (bit_vector);
        }
        if b.len() == 1 {
            if let Some(positions) = page::decoded(format, b.last()) {
                let z = page::checksum(positions);
                assert(0 ^ z == z) by (bit_vector);
            }
        }
    }
}

/// Sizes in memory add up over serialized bitmaps.
pub proof fn in_memory_by_parts(format: page::Format, a: Seq<Seq<u8>>, b: Seq<Seq<u8>>)
    ensures
        page::in_memory_sum(format, a + b) == page::in_memory_sum(format, a) + page::in_memory_sum(
            format,
            b,
        ),
        b.len() == 1 && page::decoded(format, b[0]) is Some ==> page::in_memory_sum(format, b)
            == page::in_memory(format, page::decoded(format, b[0])->0),
    decreases b.len(),
{
    if b.len() == 0 {
        assert(a + b =~= a);
    } else {
        in_memory_by_parts(format, a, b.drop_last());
        assert((a + b).drop_last() =~= a + b.drop_last());
    }
}

/// A Roaring bitmap of the universe takes two bytes for each position, or 8192
/// bytes from 4096 positions on; a Mumbling bitmap what its containers take.
pub proof fn in_memory_of_positions(positions: Seq<u32>)
    ensures
        positions.len() < 4096 ==> page::in_memory(page::Format::Roaring, positions) == 2
            * positions.len(),
        positions.len() >= 4096 ==> page::in_memory(page::Format::Roaring, positions) == 8192,
        page::roaring_footprint(positions.len()) == page::in_memory(
            page::Format::Roaring,
            positions,
        ),
        page::in_memory(page::Format::Mumbling, positions) == model::footprint(
            model::layout_of(positions.to_set()),
        ),
{
}

/// The two formats: Roaring's bytes are those of the `roaring` crate, Mumbling's
/// the serialized bitmap of the positions. Bytes hold what reading them lists.
pub proof fn formats_of_positions(positions: Seq<u32>, blob: Seq<u8>)
    ensures
        page::encoded(page::Format::Roaring, positions) == outside::roaring_bytes(positions),
        page::encoded(page::Format::Mumbling, positions) == wire::serialized(
            model::layout_of(positions.to_set()),
        ),
        page::decoded(page::Format::Roaring, blob) == outside::roaring_parsed(blob),
        wire::readable(blob) ==> page::decoded(page::Format::Mumbling, blob) == Some(
            model::positions(wire::parsed(blob)),
        ),
        !wire::readable(blob) ==> page::decoded(page::Format::Mumbling, blob) is None,
{
}

/// Putting indices in order gives an ascending list of exactly these indices.
pub proof fn in_order_lists_all(indices: Seq<usize>, p: u32)
    ensures
        page::in_order(indices).contains(p) <==> indices.contains(p as usize),
        forall|i: int, j: int|
            0 <= i < j < page::in_order(indices).len() ==> #[trigger] page::in_order(indices)[i]
                < #[trigger] page::in_order(indices)[j],
{
    page::lemma_in_order_lists(indices, p);
}

/// The bitmaps of a page are drawn one after the other from one generator: it is
/// seeded once, and every draw goes on where the one before has left it.
pub proof fn draws_go_on(format: page::Format, seed: u64, k: nat, count: nat, i: nat)
    requires
        i < count,
    ensures
        page::generator(seed, k, 0) == outside::chacha_seeded(seed),
        page::generator(seed, k, i + 1) == outside::sample_advanced(
            page::generator(seed, k, i),
            50_000,
            k,
        ),
        page::drawn(seed, k, i) == page::in_order(
            outside::sample_drawn(page::generator(seed, k, i), 50_000, k),
        ),
        page::drawn_bitmaps(format, seed, k, count).len() == count,
        page::drawn_bitmaps(format, seed, k, count)[i as int] == page::encoded(
            format,
            page::drawn(seed, k, i),
        ),
{
}

/// A blob lists positions where decoding it gives them.
pub proof fn listed_positions(format: page::Format, blob: Seq<u8>, positions: Seq<u32>)
    ensures
        page::lists(format, blob, positions) <==> {
            &&& page::decoded(format, blob) == Some(positions)
            &&& forall|i: int, j: int|
                0 <= i < j < positions.len() ==> #[trigger] positions[i] < #[trigger] positions[j]
            &&& forall|i: int| 0 <= i < positions.len() ==> #[trigger] positions[i] < 50_000
        },
{
    reveal(page::lists);
}

/// The contents of a list of byte vectors are those of all of them, in order.
pub proof fn contents_of_list(blobs: Seq<Vec<u8>>)
    ensures
        page::contents(blobs).len() == blobs.len(),
        forall|i: int| 0 <= i < blobs.len() ==> #[trigger] page::contents(blobs)[i] == blobs[i]@,
{
}

} // verus!
