use timeseries_db::compression::{GorillaCompressor, GorillaDecompressor};
use timeseries_db::{compress_gorilla, decompress_gorilla};

fn to_bits(values: &[f64]) -> Vec<u64> {
    values.iter().map(|v| v.to_bits()).collect()
}

fn from_bits(values: &[u64]) -> Vec<f64> {
    values.iter().map(|v| f64::from_bits(*v)).collect()
}

#[test]
fn test_compress_decompress() {
    let values = vec![1.0, 1.01, 1.009, 1.008, 1.007];

    let compressed = compress_gorilla(&to_bits(&values));
    let decompressed = from_bits(&decompress_gorilla(&compressed));

    assert_eq!(values, decompressed);
}

#[test]
fn test_identical_values() {
    let values = vec![1.0; 100];

    let compressed = compress_gorilla(&to_bits(&values));
    let decompressed = from_bits(&decompress_gorilla(&compressed));

    assert_eq!(values, decompressed);

    // Should compress extremely well (almost all bits are 1 for "same as previous")
    assert!(compressed.len() < 20); // < 20 bytes for 100 values
}

#[test]
fn single_value_exact_bytes() {
    // 1.0 XOR 0: 2 leading zeros, 52 trailing zeros, 10 meaningful bits, all ones.
    let compressed = compress_gorilla(&to_bits(&[1.0]));
    assert_eq!(compressed, vec![0x84, 0xF2, 0x3F]);
}

#[test]
fn empty_and_zero_values() {
    assert_eq!(compress_gorilla(&[]), Vec::<u8>::new());
    assert_eq!(decompress_gorilla(&[]), Vec::<u64>::new());
    // A zero XOR is a single 1 bit.
    let zeros = vec![0u64; 3];
    let c = compress_gorilla(&zeros);
    assert_eq!(c, vec![0b0000_0111]);
    assert_eq!(decompress_gorilla(&c), zeros);
}

#[test]
fn extreme_bit_patterns_round_trip() {
    // Leading zeros above 31 and XORs with 64 meaningful bits.
    let values = vec![1u64, 3, u64::MAX, 0, 0x8000_0000_0000_0001, 5, 5, 1 << 63, 42];
    let c = compress_gorilla(&values);
    assert_eq!(decompress_gorilla(&c), values);
}

#[test]
fn pseudo_random_walk_round_trip() {
    let mut state: u64 = 0x2545F4914F6CDD1D;
    let mut value = 1000.0f64;
    let mut values = Vec::new();
    for _ in 0..1000 {
        state ^= state << 13;
        state ^= state >> 7;
        state ^= state << 17;
        value += ((state % 1000) as f64 / 1000.0 - 0.5) * 10.0;
        values.push(value);
    }
    let c = compress_gorilla(&to_bits(&values));
    assert_eq!(from_bits(&decompress_gorilla(&c)), values);
}

#[test]
fn compressor_step_by_step() {
    let mut c = GorillaCompressor::new();
    c.write_bit(1);
    c.write_bits(0b101, 3);
    assert_eq!(c.finish(), vec![0b1011]);

    let data = [0b1011u8, 0xFF];
    let mut d = GorillaDecompressor::new(&data);
    assert_eq!(d.read_bit(), Ok(1));
    assert_eq!(d.read_bits(3), Ok(0b101));
    assert_eq!(d.read_bits(12), Ok(0xFF0));
    assert!(d.read_bit().is_err());
}

#[test]
fn test_compression_ratio() {
    // Deterministic metric data: a reading that holds its value over several samples
    // and moves by small steps (multiples of 0.5) now and then
    let mut state: u64 = 0x9E3779B97F4A7C15;
    let mut value = 1000.0f64;
    let mut values = Vec::new();
    for _ in 0..1000 {
        state ^= state << 13;
        state ^= state >> 7;
        state ^= state << 17;
        if state % 4 == 0 {
            value += ((state >> 8) % 11) as f64 * 0.5 - 2.5;
        }
        values.push(value);
    }

    let original_size = values.len() * 8;
    let compressed = compress_gorilla(&to_bits(&values));
    let ratio = original_size as f64 / compressed.len() as f64;

    // Should achieve at least 5x compression for this data
    assert!(ratio > 5.0, "ratio {}", ratio);

    // Verify correctness
    assert_eq!(from_bits(&decompress_gorilla(&compressed)), values);
}
