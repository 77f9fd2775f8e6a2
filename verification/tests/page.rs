use mumbling::framing::{push_frame, read_length};
use mumbling::page::{
    decode_blobs, decode_one, decode_page, encode_one, roaring_in_memory_bytes, sample_positions,
    seed, sorted_positions, Format, Page, PageError, PAGE_TARGET, UNIVERSE,
};
use mumbling::{MumblingBitmap, MumblingReader};
use rand::seq::index;
use rand::SeedableRng;
use rand_chacha::ChaCha8Rng;
use roaring::RoaringBitmap;

fn xor(positions: &[u32]) -> u64 {
    positions.iter().fold(0, |acc, &pos| acc ^ pos as u64)
}

#[test]
fn frames_hold_their_length_first() {
    let mut page = Vec::new();
    push_frame(&mut page, &[7, 8, 9]);
    push_frame(&mut page, &[]);
    assert_eq!(page, vec![3, 0, 0, 0, 7, 8, 9, 0, 0, 0, 0]);
    assert_eq!(read_length(&page, 0), 3);
    assert_eq!(read_length(&page, 7), 0);
    assert_eq!(read_length(&[0x78, 0x56, 0x34, 0x12], 0), 0x1234_5678);
}

#[test]
fn format_names() {
    assert_eq!(Format::Roaring.name(), "roaring");
    assert_eq!(Format::Mumbling.name(), "mumbling");
}

#[test]
fn seeds_differ_by_density() {
    assert_eq!(seed(0), 0x6D75_6D62_6C69_6E67);
    assert_eq!(seed(1), 0x6D75_6D62_6C69_6E66);
    assert_eq!(seed(0.5f64.to_bits()), 0x5295_6D62_6C69_6E67);
}

#[test]
fn sampled_indices_are_sorted() {
    assert_eq!(sorted_positions(&[9, 0, 4, 1_000_000]), vec![0, 4, 9, 1_000_000]);
    assert_eq!(sorted_positions(&[]), Vec::<u32>::new());
}

#[test]
fn samples_are_distinct_and_ascend() {
    let mut rng = ChaCha8Rng::seed_from_u64(1);
    for k in [0, 1, 5, 100, 1000, 25_000, 50_000] {
        let positions = sample_positions(&mut rng, k);
        assert_eq!(positions.len(), k);
        assert!(positions.windows(2).all(|pair| pair[0] < pair[1]));
        assert!(positions.iter().all(|&pos| pos < UNIVERSE));
    }
    assert_eq!(
        sample_positions(&mut rng, 50_000),
        (0..50_000).collect::<Vec<u32>>()
    );
    assert_ne!(
        sample_positions(&mut rng, 100),
        sample_positions(&mut rng, 100)
    );
}

#[test]
fn roaring_footprint_changes_at_4096() {
    assert_eq!(roaring_in_memory_bytes(&[]), 0);
    assert_eq!(roaring_in_memory_bytes(&[1, 2, 3]), 6);
    let positions: Vec<u32> = (0..4096).collect();
    assert_eq!(roaring_in_memory_bytes(&positions[..4095]), 8190);
    assert_eq!(roaring_in_memory_bytes(&positions), 8192);
}

#[test]
fn roaring_bytes_hold_the_positions() {
    let positions = [3, 17, 49_999];
    let (blob, in_memory) = encode_one(Format::Roaring, &positions).unwrap();
    assert_eq!(in_memory, 6);
    let bitmap = RoaringBitmap::deserialize_from(&blob[..]).unwrap();
    assert_eq!(bitmap.iter().collect::<Vec<u32>>(), positions);
    assert_eq!(decode_one(Format::Roaring, &blob), Ok(xor(&positions)));
}

#[test]
fn mumbling_bytes_hold_the_positions() {
    let positions = [3, 17, 49_999];
    let (blob, in_memory) = encode_one(Format::Mumbling, &positions).unwrap();
    assert_eq!(in_memory, 7);
    assert_eq!(blob, MumblingBitmap::from_iter(positions.to_vec()).serialize());
    assert_eq!(MumblingReader::new(&blob).iter(), positions);
    assert_eq!(decode_one(Format::Mumbling, &blob), Ok(xor(&positions)));
}

#[test]
fn large_roaring_containers_round_trip() {
    let positions: Vec<u32> = (0..50_000).step_by(5).collect();
    let (blob, in_memory) = encode_one(Format::Roaring, &positions).unwrap();
    assert_eq!(in_memory, 8192);
    assert_eq!(decode_one(Format::Roaring, &blob), Ok(xor(&positions)));
}

#[test]
fn foreign_bytes_are_no_roaring_bitmap() {
    assert_eq!(
        decode_one(Format::Roaring, &[1, 2, 3]),
        Err(PageError::DeserializeRoaring)
    );
    let (good, _) = encode_one(Format::Roaring, &[1, 2]).unwrap();
    assert_eq!(
        decode_blobs(Format::Roaring, &[good.clone(), vec![], good.clone()]),
        Err(PageError::DeserializeRoaring)
    );
    let mut page = Vec::new();
    push_frame(&mut page, &good);
    push_frame(&mut page, &[0]);
    assert_eq!(
        decode_page(Format::Roaring, &page, 2),
        Err(PageError::DeserializeRoaring)
    );
    assert_eq!(decode_page(Format::Roaring, &page, 1), Ok(3));
}

#[test]
fn both_formats_have_the_same_checksums() {
    let mut rng = ChaCha8Rng::seed_from_u64(5);
    let mut roaring = Vec::new();
    let mut mumbling = Vec::new();
    let mut expected = 0;
    for k in [1, 10, 500, 5000, 40_000] {
        let positions = sample_positions(&mut rng, k);
        expected ^= xor(&positions);
        roaring.push(encode_one(Format::Roaring, &positions).unwrap().0);
        mumbling.push(encode_one(Format::Mumbling, &positions).unwrap().0);
    }
    assert_eq!(decode_blobs(Format::Roaring, &roaring), Ok(expected));
    assert_eq!(decode_blobs(Format::Mumbling, &mumbling), Ok(expected));
}

#[test]
fn pages_stop_at_the_count_or_their_end() {
    let mut page = Vec::new();
    for positions in [[1u32, 2], [4, 8], [16, 32]] {
        let (blob, _) = encode_one(Format::Mumbling, &positions).unwrap();
        push_frame(&mut page, &blob);
    }
    assert_eq!(decode_page(Format::Mumbling, &page, 0), Ok(0));
    assert_eq!(decode_page(Format::Mumbling, &page, 2), Ok(15));
    assert_eq!(decode_page(Format::Mumbling, &page, 3), Ok(63));
    assert_eq!(decode_page(Format::Mumbling, &page, 9), Ok(63));
    // Three bytes are no length.
    page.extend([9, 9, 9]);
    assert_eq!(decode_page(Format::Mumbling, &page, 9), Ok(63));
}

#[test]
fn a_page_keeps_what_is_added() {
    let page = Page::empty(Format::Mumbling, 2);
    assert_eq!(page.bitmap_count(), 0);
    assert_eq!(page.decode(), Ok(0));
    let page = page.with_bitmap(&[1, 2]).unwrap();
    let page = page.with_bitmap(&[4, 300]).unwrap();
    assert_eq!(page.format(), Format::Mumbling);
    assert_eq!(page.bits_per_bitmap(), 2);
    assert_eq!(page.bitmap_count(), 2);
    assert_eq!(page.total_bits_set(), 4);
    assert_eq!(page.in_memory_total(), 4 + 6);
    assert_eq!(page.decode(), Ok(1 ^ 2 ^ 4 ^ 300));
    let mut expected = Vec::new();
    push_frame(&mut expected, &MumblingBitmap::from_iter(vec![1, 2]).serialize());
    push_frame(&mut expected, &MumblingBitmap::from_iter(vec![4, 300]).serialize());
    assert_eq!(page.as_bytes(), expected);
}

#[test]
fn filled_pages_reach_the_target() {
    for format in [Format::Roaring, Format::Mumbling] {
        for bits in [500, 30_000] {
            let page = Page::fill(format, seed(0.01f64.to_bits()), bits).unwrap();
            let size = page.as_bytes().len();
            assert!(size >= PAGE_TARGET);
            assert!(size < PAGE_TARGET + 8300);
            assert_eq!(page.bits_per_bitmap(), bits);
            assert_eq!(page.total_bits_set(), (page.bitmap_count() * bits) as u64);
            let guard = page.decode().unwrap();
            assert_eq!(decode_page(format, page.as_bytes(), page.bitmap_count()), Ok(guard));
        }
    }
}

#[test]
fn filling_depends_on_the_seed_alone() {
    let a = Page::fill(Format::Mumbling, 8, 5000).unwrap();
    let b = Page::fill(Format::Mumbling, 8, 5000).unwrap();
    let c = Page::fill(Format::Mumbling, 9, 5000).unwrap();
    assert_eq!(a.as_bytes(), b.as_bytes());
    assert_ne!(a.as_bytes(), c.as_bytes());
}

#[test]
fn filled_pages_hold_the_draws_in_order() {
    for format in [Format::Roaring, Format::Mumbling] {
        let filled = Page::fill(format, 77, 2500).unwrap();
        let mut rng = ChaCha8Rng::seed_from_u64(77);
        let mut page = Page::empty(format, 2500);
        while page.as_bytes().len() < PAGE_TARGET {
            let positions = sample_positions(&mut rng, 2500);
            page = page.with_bitmap(&positions).unwrap();
        }
        assert_eq!(filled.as_bytes(), page.as_bytes());
    }
}

#[test]
fn sampling_sorts_what_is_drawn() {
    let mut rng = ChaCha8Rng::seed_from_u64(21);
    let mut same = ChaCha8Rng::seed_from_u64(21);
    for k in [3, 200, 30_000] {
        let drawn = index::sample(&mut same, UNIVERSE as usize, k).into_vec();
        let mut expected: Vec<u32> = drawn.iter().map(|&i| i as u32).collect();
        expected.sort_unstable();
        assert_eq!(sample_positions(&mut rng, k), expected);
    }
}

#[test]
fn compressed_pages_decode_to_the_same_checksum() {
    for format in [Format::Roaring, Format::Mumbling] {
        let page = Page::fill(format, seed(0.002f64.to_bits()), 100).unwrap();
        let compressed = page.compress().unwrap();
        assert!(compressed.compressed_size() < page.as_bytes().len());
        assert_eq!(
            compressed.compressed_size(),
            zstd::encode_all(page.as_bytes(), 9).unwrap().len()
        );
        assert_eq!(compressed.decode(), page.decode());
    }
}
