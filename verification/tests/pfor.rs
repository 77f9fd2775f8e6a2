use mumbling::pfor::{decode, decode_len, encode, estimate_encoded_size, width};

/// A tiny deterministic generator of random numbers (SplitMix64).
struct TestRng {
    state: u64,
}

impl TestRng {
    fn new(seed: u64) -> Self {
        Self { state: seed }
    }

    fn next_u64(&mut self) -> u64 {
        self.state = self.state.wrapping_add(0x9E37_79B9_7F4A_7C15);
        let mut z = self.state;
        z = (z ^ (z >> 30)).wrapping_mul(0xBF58_476D_1CE4_E5B9);
        z = (z ^ (z >> 27)).wrapping_mul(0x94D0_49BB_1331_11EB);
        z ^ (z >> 31)
    }

    fn next_u32(&mut self) -> u32 {
        self.next_u64() as u32
    }

    /// Uniform value in `[0, bound)`; `bound` must be non-zero.
    fn below(&mut self, bound: u32) -> u32 {
        self.next_u32() % bound
    }

    /// Returns `true` with probability `1/n`.
    fn one_in(&mut self, n: u32) -> bool {
        self.below(n) == 0
    }
}

fn encode_bytes(values: &[u32]) -> Vec<u8> {
    encode(values)
}

#[test]
fn example1_all_zeros() {
    // 256 values, b1 = 0, m = 0, all zero: `00 00 00`.
    let values = [0u32; 256];
    assert_eq!(encode_bytes(&values), vec![0x00, 0x00, 0x00]);
    assert_eq!(decode(&encode_bytes(&values), 256), values);
}

#[test]
fn example2_all_fives() {
    // 51 values, b1 = 0, m = 5, all five: `00 00 05`.
    let values = [5u32; 51];
    assert_eq!(encode_bytes(&values), vec![0x00, 0x00, 0x05]);
    assert_eq!(decode(&encode_bytes(&values), 51), values);
}

#[test]
fn example3_sparse_exceptions() {
    // [0,0,0,0,FF,0,0,FE]: b1 = 0, b2 = 8, 2 exceptions: `80 02 00 04 07 FF FE`.
    let values = [0, 0, 0, 0, 0xFF, 0, 0, 0xFE];
    let expected = vec![0x80, 0x02, 0x00, 0x04, 0x07, 0xFF, 0xFE];
    assert_eq!(encode_bytes(&values), expected);
    assert_eq!(decode(&expected, values.len()), values);
}

#[test]
fn example4_two_bits_no_exceptions() {
    // [6, 7, 8]: b1 = 2, m = 6, no exceptions: `02 00 06 18`.
    let values = [6, 7, 8];
    assert_eq!(encode_bytes(&values), vec![0x02, 0x00, 0x06, 0x18]);
    assert_eq!(decode(&encode_bytes(&values), 3), values);
}

#[test]
fn example5_prefers_larger_width_on_ties() {
    // [6, 34, 8, 7]. Larger widths are preferred on ties, giving
    // `05 00 06 07 04 10` rather than `32 01 06 09 01 E0`. Both decode to the
    // same values (the b1 choice is a size tie).
    let values = [6, 34, 8, 7];
    let expected = vec![0x05, 0x00, 0x06, 0x07, 0x04, 0x10];
    let smaller_width = vec![0x32, 0x01, 0x06, 0x09, 0x01, 0xE0];
    assert_eq!(encode_bytes(&values), expected);
    assert_eq!(decode(&expected, values.len()), values);
    assert_eq!(decode(&smaller_width, values.len()), values);
}

#[test]
fn round_trips_random_bytes() {
    let mut rng = TestRng::new(42);

    for _ in 0..500 {
        let len = rng.below(600) as usize;
        let values: Vec<u32> = (0..len).map(|_| rng.next_u32() & 0xFF).collect();
        let encoded = encode(&values);
        assert_eq!(decode(&encoded, values.len()), values);
    }
}

#[test]
fn round_trips_descriptor_like_values() {
    // Descriptor arrays are mostly small (0-31) with occasional 0x20 (dense).
    let mut rng = TestRng::new(7);

    for _ in 0..500 {
        let len = rng.below(600) as usize;
        let values: Vec<u32> = (0..len)
            .map(|_| if rng.one_in(10) { 0x20 } else { rng.below(32) })
            .collect();
        let encoded = encode(&values);
        assert_eq!(decode(&encoded, values.len()), values);
    }
}

#[test]
fn nothing_encodes_to_nothing() {
    assert_eq!(encode(&[]), Vec::<u8>::new());
    assert_eq!(decode(&[], 0), Vec::<u32>::new());
}

#[test]
fn widest_chunks_are_raw_bytes() {
    // 0 and 255 in a row leave nothing to gain: b1 = 8 stores the values as
    // they are, with b2, e and m all 0.
    let values: Vec<u32> = (0..256).collect();
    let encoded = encode(&values);
    assert_eq!(&encoded[..3], &[8, 0, 0]);
    assert_eq!(encoded.len(), 259);
    assert_eq!(encoded[3..], (0..=255u8).collect::<Vec<u8>>()[..]);
    assert_eq!(decode(&encoded, 256), values);
}

#[test]
fn chunks_are_independent() {
    // A full chunk of sevens, then a chunk of one value.
    let mut values = vec![7u32; 256];
    values.push(200);
    assert_eq!(encode(&values), vec![0x00, 0x00, 0x07, 0x00, 0x00, 200]);
    assert_eq!(decode(&encode(&values), 257), values);
}

#[test]
fn decoding_tells_where_the_array_ends() {
    let mut bytes = encode(&[6, 7, 8]);
    bytes.extend([0xDE, 0xAD]);
    assert_eq!(decode_len(&bytes, 3), (vec![6, 7, 8], 4));
}

#[test]
fn encoding_stays_within_the_estimate() {
    let mut rng = TestRng::new(11);
    for len in 0..520usize {
        let values: Vec<u32> = (0..len).map(|_| rng.next_u32() & 0xFF).collect();
        assert!(encode(&values).len() <= estimate_encoded_size(len));
    }
    assert_eq!(estimate_encoded_size(0), 0);
    assert_eq!(estimate_encoded_size(1), 4);
    assert_eq!(estimate_encoded_size(256), 259);
    assert_eq!(estimate_encoded_size(257), 263);
}

#[test]
fn width_counts_binary_digits() {
    assert_eq!(width(0), 0);
    assert_eq!(width(1), 1);
    assert_eq!(width(5), 3);
    assert_eq!(width(255), 8);
    assert_eq!(width(256), 9);
    assert_eq!(width(u32::MAX), 32);
}
