use mumbling::bit_packing::{byte_width, pack, unpack};

/// A tiny deterministic generator of random numbers (SplitMix64).
struct TestRng {
    state: u64,
}

impl TestRng {
    fn new(seed: u64) -> Self {
        Self { state: seed }
    }

    fn next_u64(&mut self) -> u64 {
        self.state = self.state.wrapping_add(0x9E37_79B9_7F4A_7C15);
        let mut z = self.state;
        z = (z ^ (z >> 30)).wrapping_mul(0xBF58_476D_1CE4_E5B9);
        z = (z ^ (z >> 27)).wrapping_mul(0x94D0_49BB_1331_11EB);
        z ^ (z >> 31)
    }

    fn next_u32(&mut self) -> u32 {
        self.next_u64() as u32
    }
}

#[test]
fn packs_two_bit_example() {
    // [3, 2, 1, 2, 3] at width 2 packs to E6 C0.
    let mut out = Vec::new();
    pack(2, &[3, 2, 1, 2, 3], &mut out);
    assert_eq!(out, vec![0xE6, 0xC0]);
}

#[test]
fn packs_doc_example() {
    // [0b11, 0b10, 0b01] at width 2 -> 0b11100100.
    let mut out = Vec::new();
    pack(2, &[0b11, 0b10, 0b01], &mut out);
    assert_eq!(out, vec![0b1110_0100]);
}

#[test]
fn width_zero_emits_nothing_and_unpacks_zeros() {
    let mut out = Vec::new();
    pack(0, &[1, 2, 3], &mut out);
    assert!(out.is_empty());
    assert_eq!(unpack(0, &out, 3), vec![0, 0, 0]);
}

#[test]
fn width_eight_copies_raw() {
    let mut out = Vec::new();
    pack(8, &[0x00, 0xFF, 0x7F], &mut out);
    assert_eq!(out, vec![0x00, 0xFF, 0x7F]);
    assert_eq!(unpack(8, &out, 3), vec![0x00, 0xFF, 0x7F]);
}

#[test]
fn round_trips_all_widths() {
    let mut rng = TestRng::new(1);

    for width in 0..=8u32 {
        let mask = if width == 0 { 0 } else { (1u32 << width) - 1 };
        // Lengths span many 8-value group boundaries plus every remainder.
        for len in 0..300usize {
            let values: Vec<u32> = (0..len).map(|_| rng.next_u32() & mask).collect();
            let mut out = Vec::new();
            pack(width, &values, &mut out);
            assert_eq!(byte_width(len * width as usize), out.len());
            assert_eq!(unpack(width, &out, len), values);
        }
    }
}

/// Independent streaming packer used only to pin the specialized packer's
/// exact bytes (the on-disk guarantee).
fn reference_pack(width: u32, values: &[u32]) -> Vec<u8> {
    let mut out = Vec::new();
    if width == 0 {
        return out;
    }

    let mut acc: u64 = 0;
    let mut bits: u32 = 0;
    let mask = (1u64 << width) - 1;
    for &v in values {
        acc = (acc << width) | (v as u64 & mask);
        bits += width;
        while bits >= 8 {
            bits -= 8;
            out.push((acc >> bits) as u8);
        }
    }

    if bits > 0 {
        out.push((acc << (8 - bits)) as u8);
    }

    out
}

#[test]
fn specialized_packer_is_byte_identical_to_streaming() {
    let mut rng = TestRng::new(2);

    for width in 1..=8u32 {
        let mask = (1u64 << width) - 1;
        for len in 0..300usize {
            let values: Vec<u32> = (0..len).map(|_| (rng.next_u64() & mask) as u32).collect();
            let mut out = Vec::new();
            pack(width, &values, &mut out);
            assert_eq!(
                out,
                reference_pack(width, &values),
                "byte mismatch at width {width}, len {len}"
            );
        }
    }
}

#[test]
fn packing_keeps_only_the_low_bits() {
    let mut out = Vec::new();
    pack(3, &[0xFFFF_FFF9, 0x15], &mut out);
    // 001 and 101, then zeros.
    assert_eq!(out, vec![0b0011_0100]);
    let mut raw = Vec::new();
    pack(8, &[0x1FF, 0x100], &mut raw);
    assert_eq!(raw, vec![0xFF, 0x00]);
}

#[test]
fn unpacking_gives_the_low_bits_back() {
    let values = [0xFFFF_FFF9, 0x15, 7, 8, 1, 2, 3, 4, 0x1234];
    for width in 1..=8u32 {
        let mut out = Vec::new();
        pack(width, &values, &mut out);
        let low: Vec<u32> = values.iter().map(|v| v & ((1 << width) - 1)).collect();
        assert_eq!(unpack(width, &out, values.len()), low);
    }
}

#[test]
fn packing_appends() {
    let mut out = vec![0xAB];
    pack(4, &[1, 2, 3], &mut out);
    assert_eq!(out, vec![0xAB, 0x12, 0x30]);
}

#[test]
fn unpacking_ignores_unused_bits() {
    assert_eq!(unpack(2, &[0xE6, 0xC0], 5), vec![3, 2, 1, 2, 3]);
    assert_eq!(unpack(2, &[0xE6, 0xFF, 0x77], 5), vec![3, 2, 1, 2, 3]);
}

#[test]
fn unpacking_raw_bytes_stops_at_their_end() {
    assert_eq!(unpack(8, &[7, 8], 5), vec![7, 8]);
    assert_eq!(unpack(8, &[7, 8, 9], 2), vec![7, 8]);
}

#[test]
fn byte_width_rounds_up() {
    assert_eq!(byte_width(0), 0);
    assert_eq!(byte_width(1), 1);
    assert_eq!(byte_width(8), 1);
    assert_eq!(byte_width(9), 2);
    assert_eq!(byte_width(2048), 256);
    assert_eq!(byte_width(usize::MAX), usize::MAX / 8 + 1);
}
