use mumbling::model::{DENSE_CONTAINER_DESCRIPTOR, DENSE_CONTAINER_SIZE};
use mumbling::pfor;
use mumbling::wire::{HEADER_SIZE, VERSION};
use mumbling::{MumblingBitmap, MumblingReader};

/// A tiny deterministic generator of random numbers (SplitMix64).
struct TestRng {
    state: u64,
}

impl TestRng {
    fn new(seed: u64) -> Self {
        Self { state: seed }
    }

    fn next_u64(&mut self) -> u64 {
        self.state = self.state.wrapping_add(0x9E37_79B9_7F4A_7C15);
        let mut z = self.state;
        z = (z ^ (z >> 30)).wrapping_mul(0xBF58_476D_1CE4_E5B9);
        z = (z ^ (z >> 27)).wrapping_mul(0x94D0_49BB_1331_11EB);
        z ^ (z >> 31)
    }

    fn next_u32(&mut self) -> u32 {
        self.next_u64() as u32
    }

    /// Uniform value in `[0, bound)`; `bound` must be non-zero.
    fn below(&mut self, bound: u32) -> u32 {
        self.next_u32() % bound
    }

    /// Uniform value in `[low, high)`; `high` must exceed `low`.
    fn range(&mut self, low: u32, high: u32) -> u32 {
        low + self.below(high - low)
    }
}

fn bitmap(positions: &[u32]) -> MumblingBitmap {
    MumblingBitmap::from_iter(positions.to_vec())
}

#[test]
fn empty_bitmap_round_trips() {
    let bitmap = MumblingBitmap::new();
    let bytes = bitmap.serialize();
    // Version + zero cardinality + zero container count.
    assert_eq!(bytes, vec![VERSION, 0, 0, 0, 0, 0]);
    let decoded = MumblingBitmap::deserialize(&bytes);
    assert_eq!(decoded, bitmap);
    assert_eq!(decoded.cardinality(), 0);
}

#[test]
fn sparse_container_positions() {
    let bitmap = bitmap(&[0, 5, 100, 255]);
    assert_eq!(bitmap.cardinality(), 4);
    for pos in [0, 5, 100, 255] {
        assert!(bitmap.is_set(pos));
    }
    for pos in [1, 4, 6, 99, 101, 254, 256] {
        assert!(!bitmap.is_set(pos));
    }

    let decoded = MumblingBitmap::deserialize(&bitmap.serialize());
    assert_eq!(decoded, bitmap);
}

#[test]
fn dense_container_when_threshold_reached() {
    // 32 positions in one container must serialize as dense (32 bytes).
    let positions: Vec<u32> = (0..32).map(|i| i * 8).collect();
    let bitmap = bitmap(&positions);
    let bytes = bitmap.serialize();

    let descriptor_len = pfor::encode(&[DENSE_CONTAINER_DESCRIPTOR as u32]).len();
    assert_eq!(
        bytes.len(),
        HEADER_SIZE + descriptor_len + DENSE_CONTAINER_SIZE
    );

    let decoded = MumblingBitmap::deserialize(&bytes);
    assert_eq!(decoded, bitmap);
    assert_eq!(decoded.cardinality(), 32);
}

#[test]
fn sparse_stays_sparse_at_31() {
    let positions: Vec<u32> = (0..31).map(|i| i * 8).collect();
    let bitmap = bitmap(&positions);
    let bytes = bitmap.serialize();
    let descriptor_len = pfor::encode(&[31]).len();
    // 31 sparse payload bytes, not a 32-byte dense container.
    assert_eq!(bytes.len(), HEADER_SIZE + descriptor_len + 31);
    assert_eq!(MumblingBitmap::deserialize(&bytes), bitmap);
}

#[test]
fn dense_full_container_iterates_in_order() {
    let positions: Vec<u32> = (0..256).collect();
    let bitmap = bitmap(&positions);
    assert_eq!(bitmap.cardinality(), 256);
    let decoded = MumblingBitmap::deserialize(&bitmap.serialize());
    assert_eq!(decoded, bitmap);
    assert_eq!(decoded.iter(), positions);
}

#[test]
fn dense_iteration_matches_set_positions() {
    // Even positions in container 0: exercises the leading_zeros scan.
    let positions: Vec<u32> = (0..256).step_by(2).collect();
    let bitmap = bitmap(&positions);
    let decoded = MumblingBitmap::deserialize(&bitmap.serialize());
    assert_eq!(decoded.iter(), positions);
}

#[test]
fn multiple_containers_with_empty_gap() {
    // Container 0 (pos 5), container 1 empty, container 2 (pos 10 -> 522).
    let bitmap = bitmap(&[5, 522]);
    assert_eq!(bitmap.cardinality(), 2);
    assert!(bitmap.is_set(5));
    assert!(bitmap.is_set(522));
    assert!(!bitmap.is_set(256));

    let bytes = bitmap.serialize();
    // Container count spans the gap: max key 2 -> count 3.
    assert_eq!((bytes[4] as usize) | ((bytes[5] as usize) << 8), 3);
    let decoded = MumblingBitmap::deserialize(&bytes);
    assert_eq!(decoded, bitmap);
    assert_eq!(decoded.iter(), vec![5, 522]);
}

#[test]
fn mixed_sparse_and_dense() {
    let mut positions: Vec<u32> = (0..32).collect(); // dense container 0
    positions.push(257); // sparse container 1, pos 1
    let bitmap = bitmap(&positions);
    let decoded = MumblingBitmap::deserialize(&bitmap.serialize());
    assert_eq!(decoded, bitmap);
}

#[test]
fn insert_builds_same_bitmap_as_from_iter() {
    let positions = [1u32, 5, 5, 300, 257, 70000, 70001, 42];
    let mut incremental = MumblingBitmap::new();
    for &pos in &positions {
        incremental.insert(pos);
    }

    let bulk = MumblingBitmap::from_iter(positions.to_vec());
    assert_eq!(incremental, bulk);
}

#[test]
fn insert_promotes_to_dense_at_32() {
    let mut bitmap = MumblingBitmap::new();
    for pos in 0..32 {
        assert!(bitmap.insert(pos));
    }

    // Re-inserting an existing position reports no change.
    assert!(!bitmap.insert(0));
    assert_eq!(bitmap.cardinality(), 32);
    let decoded = MumblingBitmap::deserialize(&bitmap.serialize());
    assert_eq!(decoded, bitmap);
}

#[test]
fn round_trips_random_densities() {
    let mut rng = TestRng::new(99);

    for _ in 0..300 {
        let universe = rng.range(1, 50_000);
        let count = rng.below(universe + 1);
        let positions: Vec<u32> = (0..count).map(|_| rng.below(universe)).collect();
        let bitmap = MumblingBitmap::from_iter(positions.to_vec());

        let decoded = MumblingBitmap::deserialize(&bitmap.serialize());
        assert_eq!(
            decoded, bitmap,
            "round trip mismatch at universe {universe}"
        );

        // Iteration yields the exact set, sorted and deduped.
        let mut expected = positions;
        expected.sort_unstable();
        expected.dedup();
        assert_eq!(decoded.iter(), expected);
    }
}

#[test]
fn reader_matches_owning_bitmap() {
    let mut rng = TestRng::new(1234);

    for _ in 0..300 {
        let universe = rng.range(1, 50_000);
        let count = rng.below(universe + 1);
        let bitmap = MumblingBitmap::from_iter((0..count).map(|_| rng.below(universe)).collect());
        let bytes = bitmap.serialize();

        let reader = MumblingReader::new(&bytes);
        assert_eq!(reader.cardinality(), bitmap.cardinality());
        assert_eq!(reader.iter(), bitmap.iter());
        assert_eq!(reader.to_bitmap(), bitmap);
    }
}

#[test]
fn reader_is_set_matches_owning_bitmap() {
    // Spans sparse, dense, and empty-gap containers.
    let mut positions: Vec<u32> = (0..40).collect(); // dense container 0
    positions.extend([300, 305, 511]); // sparse container 1
    positions.push(2000); // sparse container 7, after empty gaps
    let bitmap = MumblingBitmap::from_iter(positions.to_vec());
    let bytes = bitmap.serialize();
    let reader = MumblingReader::new(&bytes);

    for pos in 0..2100u32 {
        assert_eq!(
            reader.is_set(pos),
            bitmap.is_set(pos),
            "is_set mismatch at {pos}"
        );
    }
}

#[test]
fn reader_reads_empty_bitmap() {
    let bytes = MumblingBitmap::new().serialize();
    let reader = MumblingReader::new(&bytes);
    assert_eq!(reader.cardinality(), 0);
    assert!(reader.is_empty());
    assert!(!reader.is_set(0));
    assert_eq!(reader.iter().len(), 0);
}

#[test]
fn serialized_bytes_of_a_sparse_bitmap() {
    // Header, the descriptors [2, 0, 1] at two bits each, the positions.
    let bytes = bitmap(&[5, 100, 522]).serialize();
    assert_eq!(
        bytes,
        vec![1, 3, 0, 0, 3, 0, 0x02, 0, 0, 0b1000_0100, 5, 100, 10]
    );
}

#[test]
fn serialized_bytes_of_a_dense_bitmap() {
    let positions: Vec<u32> = (0..32).collect();
    let bytes = bitmap(&positions).serialize();
    let mut expected = vec![1, 32, 0, 0, 1, 0, 0, 0, 32, 0xFF, 0xFF, 0xFF, 0xFF];
    expected.resize(13 + 28, 0);
    assert_eq!(bytes, expected);
}

#[test]
fn order_and_repetition_do_not_matter() {
    let a = bitmap(&[9, 3, 70_000, 3, 9, 256]);
    let b = bitmap(&[256, 70_000, 9, 3]);
    assert_eq!(a, b);
    assert_eq!(a.iter(), vec![3, 9, 256, 70_000]);
    assert_eq!(a.cardinality(), 4);
    assert_ne!(a, bitmap(&[256, 70_000, 9]));
    assert_ne!(a.serialize(), bitmap(&[256, 70_000, 9]).serialize());
}

#[test]
fn inserting_sets_one_position() {
    let mut bitmap = bitmap(&[7, 300]);
    assert!(bitmap.insert(9));
    assert!(!bitmap.insert(9));
    assert!(!bitmap.insert(300));
    assert_eq!(bitmap.iter(), vec![7, 9, 300]);
    assert!(bitmap.insert(299));
    assert_eq!(bitmap.iter(), vec![7, 9, 299, 300]);
}

#[test]
fn positions_span_32_bits() {
    let positions = vec![0, 255, 256, 16_777_215, 16_777_216, u32::MAX];
    let mut bitmap = bitmap(&positions);
    assert_eq!(bitmap.iter(), positions);
    assert!(bitmap.is_set(u32::MAX));
    assert!(!bitmap.is_set(u32::MAX - 1));
    assert!(!bitmap.insert(16_777_216));
    assert_eq!(bitmap.cardinality(), 6);
}

#[test]
fn largest_serializable_position() {
    let bitmap = bitmap(&[2_097_151]);
    let bytes = bitmap.serialize();
    assert_eq!(&bytes[..6], &[1, 1, 0, 0, 0, 32]);
    assert_eq!(MumblingBitmap::deserialize(&bytes), bitmap);
    let reader = MumblingReader::new(&bytes);
    assert!(reader.is_set(2_097_151));
    assert!(!reader.is_set(2_097_150));
    assert!(!reader.is_set(u32::MAX));
}

#[test]
fn every_container_full() {
    let bitmap = MumblingBitmap::from_iter((0..2_097_152).collect());
    let bytes = bitmap.serialize();
    assert_eq!(&bytes[..6], &[1, 0, 0, 32, 0, 32]);
    assert_eq!(bytes.len(), 6 + 32 * 3 + 8192 * 32);
    let reader = MumblingReader::new(&bytes);
    assert_eq!(reader.cardinality(), 2_097_152);
    assert_eq!(bitmap.in_memory_bytes(), 8192 * 34);
}

#[test]
fn in_memory_bytes_counts_payloads_and_keys() {
    assert_eq!(MumblingBitmap::new().in_memory_bytes(), 0);
    assert_eq!(bitmap(&[1, 2, 3]).in_memory_bytes(), 5);
    let positions: Vec<u32> = (0..40).collect();
    assert_eq!(bitmap(&positions).in_memory_bytes(), 34);
    let mut more = positions;
    more.push(256);
    assert_eq!(bitmap(&more).in_memory_bytes(), 37);
}

#[test]
fn defaults_and_clones() {
    let empty = MumblingBitmap::default();
    assert!(empty.is_empty());
    assert_eq!(empty, MumblingBitmap::new());
    let mut changed = bitmap(&[4, 1000]);
    let copy = changed.clone();
    assert_eq!(copy, changed);
    changed.insert(5);
    assert_ne!(copy, changed);
    assert!(!copy.is_empty());
    let bytes = copy.serialize();
    let reader = MumblingReader::new(&bytes).clone();
    assert_eq!(reader.iter(), vec![4, 1000]);
    assert!(!reader.is_empty());
}

#[test]
fn reader_answers_from_a_cut_buffer() {
    // The second container is cut off; the first can still be asked.
    let bytes = bitmap(&[5, 100, 300, 301]).serialize();
    let reader = MumblingReader::new(&bytes[..bytes.len() - 2]);
    assert_eq!(reader.cardinality(), 4);
    assert!(reader.is_set(5));
    assert!(reader.is_set(100));
    assert!(!reader.is_set(101));
    assert!(!reader.is_set(512));
}

#[test]
fn top_three_bits_001_mark_a_dense_container() {
    // 0x20 and 0x3F have the pattern, whatever the low bits are.
    for descriptor in [0x20, 0x3F] {
        let mut bytes = vec![1, 1, 0, 0, 1, 0, 0x00, 0, descriptor];
        bytes.resize(9 + 32, 0);
        bytes[9] = 0x40;
        let bitmap = MumblingBitmap::deserialize(&bytes);
        assert_eq!(bitmap.iter(), vec![1]);
        assert_eq!(MumblingReader::new(&bytes).iter(), vec![1]);
        assert!(MumblingReader::new(&bytes).is_set(1));
    }
}

#[test]
fn other_patterns_mark_a_list_of_positions() {
    // 0x60 and 0xFF have the bit of value 32 set, but not the pattern.
    for descriptor in [31u8, 0x60, 0xFF] {
        let mut bytes = vec![1, descriptor, 0, 0, 1, 0, 0x00, 0, descriptor];
        bytes.extend(0..descriptor);
        let expected: Vec<u32> = (0..descriptor as u32).collect();
        let bitmap = MumblingBitmap::deserialize(&bytes);
        assert_eq!(bitmap.iter(), expected);
        let reader = MumblingReader::new(&bytes);
        assert_eq!(reader.iter(), expected);
        assert!(reader.is_set(descriptor as u32 - 1));
        assert!(!reader.is_set(descriptor as u32));
        assert_eq!(bitmap.serialize(), bytes);
    }
}

#[test]
fn bytes_after_a_bitmap_do_not_matter() {
    let mut positions: Vec<u32> = (0..40).collect();
    positions.push(1000);
    let bitmap = bitmap(&positions);
    let mut bytes = bitmap.serialize();
    bytes.extend([0xDE, 0xAD, 0xBE, 0xEF]);
    assert_eq!(MumblingBitmap::deserialize(&bytes), bitmap);
    let reader = MumblingReader::new(&bytes);
    assert_eq!(reader.iter(), positions);
    assert_eq!(reader.cardinality(), 41);
}
