//! Pages of byte strings: each as a `(u32 LE length, bytes)` pair, one after the
//! other.

use vstd::prelude::*;

verus! {

/// Size of the length before each byte string.
pub const LENGTH_SIZE: usize = 4;

/// A length in four bytes, the low one first.
pub open spec fn length_bytes(n: nat) -> Seq<u8> {
    seq![
        (n % 256) as u8,
        ((n / 256) % 256) as u8,
        ((n / 65536) % 256) as u8,
        ((n / 16777216) % 256) as u8,
    ]
}

/// The length that the first four bytes state.
pub open spec fn length_of(page: Seq<u8>) -> int {
    page[0] + 256 * page[1] + 65536 * page[2] + 16777216 * page[3]
}

/// The page that holds the given byte strings.
pub open spec fn framed(blobs: Seq<Seq<u8>>) -> Seq<u8>
    decreases blobs.len(),
{
    if blobs.len() == 0 {
        Seq::empty()
    } else {
        framed(blobs.drop_last()) + length_bytes(blobs.last().len()) + blobs.last()
    }
}

/// The first `count` byte strings of a page; fewer where the page ends before.
pub open spec fn frames(page: Seq<u8>, count: nat) -> Seq<Seq<u8>>
    decreases count,
{
    if count == 0 || page.len() < LENGTH_SIZE {
        Seq::empty()
    } else {
        let end = LENGTH_SIZE + length_of(page);
        seq![page.subrange(LENGTH_SIZE as int, end)] + frames(page.skip(end), (count - 1) as nat)
    }
}

/// The first `count` byte strings of a page are there with the length stated
/// for each.
pub open spec fn complete(page: Seq<u8>, count: nat) -> bool
    decreases count,
{
    count == 0 || page.len() < LENGTH_SIZE || {
        let end = LENGTH_SIZE + length_of(page);
        end <= page.len() && complete(page.skip(end), (count - 1) as nat)
    }
}

/// Every byte string has a length that four bytes can state.
pub open spec fn frameable(blobs: Seq<Seq<u8>>) -> bool {
    forall|i: int| 0 <= i < blobs.len() ==> (#[trigger] blobs[i]).len() <= u32::MAX
}

/// Adds a byte string to a page.
pub fn push_frame(page: &mut Vec<u8>, blob: &[u8])
    requires
        blob@.len() <= u32::MAX,
    ensures
        final(page)@ == old(page)@ + length_bytes(blob@.len()) + blob@,
{
    let len: usize = blob.len();
    page.push((len % 256) as u8);
    page.push(((len / 256) % 256) as u8);
    page.push(((len / 65536) % 256) as u8);
    page.push(((len / 16777216) % 256) as u8);
    assert(page@ =~= old(page)@ + length_bytes(len as nat));
    page.extend_from_slice(blob);
    assert(page@ =~= old(page)@ + length_bytes(len as nat) + blob@);
}

/// Reads the length at `cursor`.
pub fn read_length(page: &[u8], cursor: usize) -> (len: u32)
    requires
        cursor + LENGTH_SIZE <= page@.len(),
    ensures
        len == length_of(page@.skip(cursor as int)),
        len == page@[cursor as int] + 256 * page@[cursor + 1] + 65536 * page@[cursor + 2] + 16777216
            * page@[cursor + 3],
{
    page[cursor] as u32 + 256 * page[cursor + 1] as u32 + 65536 * page[cursor + 2] as u32 + 16777216
        * page[cursor + 3] as u32
}

/// A page grows by what is added at its end.
pub(crate) proof fn lemma_framed_push(blobs: Seq<Seq<u8>>, blob: Seq<u8>)
    ensures
        framed(blobs.push(blob)) == framed(blobs) + length_bytes(blob.len()) + blob,
{
    assert(blobs.push(blob).drop_last() =~= blobs);
}

/// The length before the first byte string is found again.
proof fn lemma_length_found(n: nat, rest: Seq<u8>)
    requires
        n <= u32::MAX,
    ensures
        length_of(length_bytes(n) + rest) == n,
{
    let s = length_bytes(n) + rest;
    assert(s[0] == n % 256 && s[1] == (n / 256) % 256);
    assert(s[2] == (n / 65536) % 256 && s[3] == (n / 16777216) % 256);
    assert(n / 65536 == (n / 256) / 256 && n / 16777216 == ((n / 256) / 256) / 256);
}

/// A page can be built from its front, too.
proof fn lemma_framed_first(blobs: Seq<Seq<u8>>)
    requires
        blobs.len() > 0,
    ensures
        framed(blobs) == length_bytes(blobs[0].len()) + blobs[0] + framed(blobs.skip(1)),
    decreases blobs.len(),
{
    let rest = blobs.skip(1);
    let front = length_bytes(blobs[0].len()) + blobs[0];
    if blobs.len() == 1 {
        assert(framed(blobs.drop_last()) =~= Seq::<u8>::empty());
        assert(framed(rest) =~= Seq::<u8>::empty());
        assert(framed(blobs) =~= front + framed(rest));
    } else {
        let shorter = blobs.drop_last();
        lemma_framed_first(shorter);
        assert(shorter.skip(1) =~= rest.drop_last());
        assert(rest.last() == blobs.last());
        assert(framed(blobs) =~= front + framed(rest));
    }
}

/// Reading a page gives back what it was made of, whatever follows it.
pub proof fn frames_undo_framed(blobs: Seq<Seq<u8>>, tail: Seq<u8>)
    requires
        frameable(blobs),
    ensures
        complete(framed(blobs) + tail, blobs.len()),
        frames(framed(blobs) + tail, blobs.len()) == blobs,
    decreases blobs.len(),
{
    let page = framed(blobs) + tail;
    if blobs.len() == 0 {
        assert(frames(page, 0) =~= blobs);
    } else {
        let first = blobs[0];
        let rest = blobs.skip(1);
        lemma_framed_first(blobs);
        let remainder = framed(rest) + tail;
        assert(page =~= length_bytes(first.len()) + (first + remainder));
        lemma_length_found(first.len(), first + remainder);
        let end = LENGTH_SIZE + first.len() as int;
        assert(page.subrange(LENGTH_SIZE as int, end) =~= first);
        assert(page.skip(end) =~= remainder);
        assert forall|i: int| 0 <= i < rest.len() implies (#[trigger] rest[i]).len() <= u32::MAX by {
            assert(rest[i] == blobs[i + 1]);
        }
        frames_undo_framed(rest, tail);
        assert(seq![first] + rest =~= blobs);
    }
}

/// A page takes at least four bytes for each byte string.
pub(crate) proof fn lemma_framed_len(blobs: Seq<Seq<u8>>)
    ensures
        framed(blobs).len() >= LENGTH_SIZE * blobs.len(),
    decreases blobs.len(),
{
    if blobs.len() > 0 {
        lemma_framed_len(blobs.drop_last());
    }
}

} // verus!
