//! What holds of bitmaps as a whole.

use crate::framing;
use crate::model;
use crate::page;
use crate::reader;
use crate::wire;
use vstd::prelude::*;

verus! {

/// Bitmaps in canonical form are equal if and only if they hold the same
/// positions.
pub proof fn equal_iff_same_positions(a: Seq<model::Block>, b: Seq<model::Block>)
    requires
        model::canonical(a),
        model::canonical(b),
    ensures
        a == b <==> model::members(a) == model::members(b),
        a == b <==> model::positions(a) == model::positions(b),
{
    if model::members(a) == model::members(b) {
        model::canonical_form_is_unique(a, b);
    }
}

/// Positions inserted one by one, in any order and repeatedly, build the same
/// bitmap as all of them at once, and a position is reported as newly set if and
/// only if it was neither there at first nor inserted before.
///
/// `layouts[i]` is the bitmap before the insertion of `inserted[i]`, which
/// reports `newly[i]`.
pub proof fn insertions_build_bulk(
    layouts: Seq<Seq<model::Block>>,
    inserted: Seq<u32>,
    newly: Seq<bool>,
)
    requires
        layouts.len() == inserted.len() + 1,
        newly.len() == inserted.len(),
        model::canonical(layouts[0]),
        forall|i: int|
            0 <= i < inserted.len() ==> model::layout_inserted(
                layouts[i],
                layouts[i + 1],
                #[trigger] inserted[i],
                newly[i],
            ),
    ensures
        layouts.last() == model::layout_of(model::members(layouts[0]).union(inserted.to_set())),
        forall|i: int|
            0 <= i < newly.len() ==> #[trigger] newly[i] == !(model::members(layouts[0]).contains(
                inserted[i],
            ) || inserted.take(i).contains(inserted[i])),
    decreases inserted.len(),
{
    let start = model::members(layouts[0]);
    if inserted.len() == 0 {
        assert(start.union(inserted.to_set()) =~= start);
        model::canonical_layout_is_layout_of(layouts[0]);
    } else {
        let n = inserted.len() - 1;
        let pos = inserted[n];
        let rest = inserted.drop_last();
        assert forall|i: int| 0 <= i < rest.len() implies model::layout_inserted(
            layouts.drop_last()[i],
            layouts.drop_last()[i + 1],
            #[trigger] rest[i],
            newly.drop_last()[i],
        ) by {
            assert(inserted[i] == rest[i]);
        }
        insertions_build_bulk(layouts.drop_last(), rest, newly.drop_last());
        let before = layouts[n];
        let after = layouts[n + 1];
        let held = start.union(rest.to_set());
        model::canonical_form_exists(held);
        assert(before == model::layout_of(held));
        assert(model::layout_inserted(before, after, inserted[n], newly[n]));
        model::lemma_canonical_sorted(before);
        model::lemma_layout_inserted(before, after, pos, newly[n]);
        model::lemma_positions_contain(before, pos);
        assert(held.insert(pos) =~= start.union(inserted.to_set())) by {
            assert forall|p: u32| inserted.contains(p) == (rest.contains(p) || p == pos) by {
                if rest.contains(p) {
                    let k = choose|k: int| 0 <= k < rest.len() && rest[k] == p;
                    assert(inserted[k] == p);
                }
                if inserted.contains(p) {
                    let k = choose|k: int| 0 <= k < inserted.len() && inserted[k] == p;
                    if k < n {
                        assert(rest[k] == p);
                    }
                }
            }
        }
        model::canonical_layout_is_layout_of(after);
        assert forall|i: int| 0 <= i < newly.len() implies #[trigger] newly[i] == !(start.contains(
            inserted[i],
        ) || inserted.take(i).contains(inserted[i])) by {
            if i < n {
                assert(newly.drop_last()[i] == newly[i] && rest[i] == inserted[i]);
                assert(rest.take(i) =~= inserted.take(i));
            } else {
                assert(inserted.take(n) =~= rest);
            }
        }
    }
}

/// Inserting a position that has just been inserted changes nothing and reports
/// so.
pub proof fn insert_again_changes_nothing(
    before: Seq<model::Block>,
    once: Seq<model::Block>,
    twice: Seq<model::Block>,
    pos: u32,
    newly_once: bool,
    newly_twice: bool,
)
    requires
        model::valid(before),
        model::sorted(before),
        model::layout_inserted(before, once, pos, newly_once),
        model::layout_inserted(once, twice, pos, newly_twice),
    ensures
        twice == once,
        !newly_twice,
{
    model::lemma_layout_inserted(before, once, pos, newly_once);
    model::lemma_positions_contain(before, pos);
    model::lemma_positions_contain(once, pos);
    model::lemma_layout_inserted(once, twice, pos, newly_twice);
}

/// The reader of a serialized bitmap can be asked for any position and for all
/// of them, and it finds those of the bitmap; materializing it gives the bitmap
/// back.
pub proof fn reader_agrees_with_bitmap(layout: Seq<model::Block>, pos: u32)
    requires
        model::canonical(layout),
        wire::serializable(layout),
    ensures
        wire::readable(wire::serialized(layout)),
        reader::position_readable(wire::serialized(layout), pos),
        model::sorted(wire::parsed(wire::serialized(layout))),
        model::members(wire::parsed(wire::serialized(layout))) == model::members(layout),
        model::positions(wire::parsed(wire::serialized(layout))) == model::positions(layout),
        wire::header_cardinality(wire::serialized(layout)) == model::positions(layout).len(),
        model::layout_of(model::members(wire::parsed(wire::serialized(layout)))) == layout,
{
    wire::deserialize_undoes_serialize(layout);
    reader::readable_at_every_position(wire::serialized(layout), pos);
    model::lemma_canonical_sorted(layout);
    model::canonical_layout_is_layout_of(layout);
}

/// Different bitmaps are serialized differently.
pub proof fn serialized_tells_bitmaps_apart(a: Seq<model::Block>, b: Seq<model::Block>)
    requires
        model::valid(a),
        model::valid(b),
        wire::serializable(a),
        wire::serializable(b),
        wire::serialized(a) == wire::serialized(b),
    ensures
        a == b,
{
    wire::deserialize_undoes_serialize(a);
    wire::deserialize_undoes_serialize(b);
}

/// A serialized Mumbling bitmap of the universe lists the positions that it was
/// made of.
pub proof fn mumbling_lists_its_positions(positions: Seq<u32>)
    requires
        page::sampled(positions),
    ensures
        page::decoded(
            page::Format::Mumbling,
            page::encoded(page::Format::Mumbling, positions),
        ) == Some(positions),
{
    model::canonical_form_exists(positions.to_set());
    page::lemma_mumbling_sampled(model::layout_of(positions.to_set()), positions);
}

/// Decoding does the same work in both formats: serialized bitmaps that list the
/// same positions have the same checksum.
pub proof fn formats_agree(roaring: Seq<Seq<u8>>, mumbling: Seq<Seq<u8>>)
    requires
        roaring.len() == mumbling.len(),
        forall|i: int|
            0 <= i < roaring.len() ==> page::decoded(page::Format::Roaring, #[trigger] roaring[i])
                == page::decoded(page::Format::Mumbling, mumbling[i]),
    ensures
        page::combined(page::Format::Roaring, roaring) == page::combined(
            page::Format::Mumbling,
            mumbling,
        ),
    decreases roaring.len(),
{
    if roaring.len() > 0 {
        let a = roaring.drop_last();
        let b = mumbling.drop_last();
        assert forall|i: int| 0 <= i < a.len() implies page::decoded(
            page::Format::Roaring,
            #[trigger] a[i],
        ) == page::decoded(page::Format::Mumbling, b[i]) by {
            assert(a[i] == roaring[i] && b[i] == mumbling[i]);
        }
        formats_agree(a, b);
        assert(roaring.last() == roaring[roaring.len() - 1]);
    }
}

/// A page with more bitmaps of the same draws is longer.
proof fn lemma_more_draws_are_longer(format: page::Format, seed: u64, bits: nat, a: nat, b: nat)
    requires
        a < b,
    ensures
        framing::framed(page::drawn_bitmaps(format, seed, bits, a)).len() < framing::framed(
            page::drawn_bitmaps(format, seed, bits, b),
        ).len(),
    decreases b - a,
{
    let longer = page::drawn_bitmaps(format, seed, bits, b);
    assert(longer.drop_last() =~= page::drawn_bitmaps(format, seed, bits, (b - 1) as nat));
    if a + 1 < b {
        lemma_more_draws_are_longer(format, seed, bits, a, (b - 1) as nat);
    }
}

/// Filling a page depends on the format, the seed and the number of positions
/// alone: pages of the draws from one seed that stop where they reach the target
/// are the same.
pub proof fn filled_pages_are_reproducible(
    format: page::Format,
    seed: u64,
    bits: nat,
    a: Seq<Seq<u8>>,
    b: Seq<Seq<u8>>,
)
    requires
        a == page::drawn_bitmaps(format, seed, bits, a.len()),
        b == page::drawn_bitmaps(format, seed, bits, b.len()),
        a.len() > 0,
        b.len() > 0,
        framing::framed(a).len() >= 1_048_576,
        framing::framed(b).len() >= 1_048_576,
        framing::framed(a.drop_last()).len() < 1_048_576,
        framing::framed(b.drop_last()).len() < 1_048_576,
    ensures
        a == b,
{
    let n = (a.len() - 1) as nat;
    let m = (b.len() - 1) as nat;
    assert(a.drop_last() =~= page::drawn_bitmaps(format, seed, bits, n));
    assert(b.drop_last() =~= page::drawn_bitmaps(format, seed, bits, m));
    if a.len() < m {
        lemma_more_draws_are_longer(format, seed, bits, a.len(), m);
    }
    if b.len() < n {
        lemma_more_draws_are_longer(format, seed, bits, b.len(), n);
    }
}

} // verus!
