use fpaq0::{compress, decompress};

/// A small deterministic pseudo-random byte source for test data.
struct Lcg {
    state: u64,
}

impl Lcg {
    fn new(seed: u64) -> Lcg {
        Lcg { state: seed }
    }

    fn next_byte(&mut self) -> u8 {
        self.state = self
            .state
            .wrapping_mul(6364136223846793005)
            .wrapping_add(1442695040888963407);
        (self.state >> 33) as u8
    }
}

fn roundtrip(data: &Vec<u8>) -> Vec<u8> {
    let packed = compress(data);
    decompress(&packed)
}

#[test]
fn empty_roundtrip_and_minimal_flush() {
    let data: Vec<u8> = Vec::new();
    let packed = compress(&data);
    // No data bits beyond the termination signal: just the coder's flush.
    assert!(packed.len() <= 4);
    assert_eq!(decompress(&packed), data);
}

#[test]
fn single_zero_byte_roundtrip() {
    let data = vec![0x00u8];
    assert_eq!(roundtrip(&data), data);
}

#[test]
fn single_ff_byte_roundtrip() {
    let data = vec![0xFFu8];
    assert_eq!(roundtrip(&data), data);
}

#[test]
fn repeated_ff_compresses_well() {
    let data = vec![0xFFu8; 1000];
    let packed = compress(&data);
    // A strongly predictable stream must shrink far below its raw size.
    assert!(packed.len() < 500);
    assert_eq!(decompress(&packed), data);
}

#[test]
fn random_1000_bytes_no_pathological_expansion() {
    let mut rng = Lcg::new(42);
    let data: Vec<u8> = (0..1000).map(|_| rng.next_byte()).collect();
    let packed = compress(&data);
    // Incompressible input may grow a little, but never pathologically.
    assert!(packed.len() <= 1100);
    assert_eq!(decompress(&packed), data);
}

#[test]
fn random_100000_bytes_roundtrip() {
    let mut rng = Lcg::new(7);
    let data: Vec<u8> = (0..100000).map(|_| rng.next_byte()).collect();
    assert_eq!(roundtrip(&data), data);
}

#[test]
fn mixed_text_roundtrip() {
    let mut data: Vec<u8> = Vec::new();
    for _ in 0..50 {
        data.extend_from_slice(b"the quick brown fox jumps over the lazy dog 0123456789 ");
    }
    let packed = compress(&data);
    // Repetitive text compresses below its raw size.
    assert!(packed.len() < data.len());
    assert_eq!(decompress(&packed), data);
}

#[test]
fn all_byte_values_roundtrip() {
    let data: Vec<u8> = (0..=255u8).collect();
    assert_eq!(roundtrip(&data), data);
}

#[test]
fn compression_is_deterministic() {
    let mut rng = Lcg::new(99);
    let data: Vec<u8> = (0..2000).map(|_| rng.next_byte()).collect();
    let first = compress(&data);
    let second = compress(&data);
    assert_eq!(first, second);
}
