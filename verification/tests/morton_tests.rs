use galax::morton::{compact_bits, morton_cell, morton_key, spread_bits, MORTON_BITS};

fn normalize(x: f64, lo: f64, hi: f64) -> u64 {
    let t = ((x - lo) / (hi - lo)).clamp(0.0, 1.0 - 1e-15);
    (t * (1u64 << MORTON_BITS) as f64) as u64
}

fn denormalize(v: u64, lo: f64, hi: f64) -> f64 {
    let cell_size = (hi - lo) / (1u64 << MORTON_BITS) as f64;
    lo + (v as f64 + 0.5) * cell_size
}

fn encode(x: f64, y: f64, x_min: f64, x_max: f64, y_min: f64, y_max: f64) -> u64 {
    morton_key(normalize(x, x_min, x_max), normalize(y, y_min, y_max))
}

#[test]
fn test_morton_round_trip() {
    let (x_min, x_max, y_min, y_max) = (-50.0, 50.0, -50.0, 50.0);
    let test_points = [
        (0.0, 0.0),
        (25.0, -30.0),
        (-40.0, 10.0),
        (49.99, -49.99),
        (-0.001, 0.001),
    ];
    let max_error = (x_max - x_min) / (1u64 << MORTON_BITS) as f64;
    for &(x, y) in &test_points {
        let key = encode(x, y, x_min, x_max, y_min, y_max);
        let (xi, yi) = morton_cell(key);
        let rx = denormalize(xi, x_min, x_max);
        let ry = denormalize(yi, y_min, y_max);
        let error = ((x - rx).powi(2) + (y - ry).powi(2)).sqrt();
        assert!(
            error < max_error,
            "round-trip error {} exceeds cell size {} at ({}, {}) -> key {} -> ({}, {})",
            error, max_error, x, y, key, rx, ry
        );
    }
}

#[test]
fn test_morton_encoding_is_injective() {
    let (x_min, x_max, y_min, y_max) = (0.0, 1.0, 0.0, 1.0);
    let mut keys = Vec::new();
    for x in [0.0, 0.1, 0.5, 0.9, 0.999] {
        for y in [0.0, 0.2, 0.5, 0.8, 0.999] {
            keys.push(encode(x, y, x_min, x_max, y_min, y_max));
        }
    }
    keys.sort();
    keys.dedup();
    assert_eq!(keys.len(), 25, "Morton encoding should produce unique keys for distinct positions");
}

#[test]
fn test_morton_wide_separation_gives_different_keys() {
    let (x_min, x_max, y_min, y_max) = (0.0, 1.0, 0.0, 1.0);
    let key_a = encode(0.1, 0.2, x_min, x_max, y_min, y_max);
    let key_b = encode(0.9, 0.8, x_min, x_max, y_min, y_max);
    assert_ne!(key_a, key_b, "widely separated points should differ");
}

#[test]
fn spread_bits_places_bits_at_even_positions() {
    assert_eq!(spread_bits(0), 0);
    assert_eq!(spread_bits(1), 1);
    assert_eq!(spread_bits(0b11), 0b101);
    assert_eq!(spread_bits(0b1011), 0b1000101);
    assert_eq!(spread_bits((1 << 21) - 1), 0x155_5555_5555);
    // Bits above the 21st are dropped.
    assert_eq!(spread_bits(1 << 21), 0);
    assert_eq!(spread_bits((1 << 21) | 1), 1);
}

#[test]
fn compact_bits_gathers_even_bits() {
    assert_eq!(compact_bits(0b101), 0b11);
    assert_eq!(compact_bits(0b1000101), 0b1011);
    // Odd bits are ignored.
    assert_eq!(compact_bits(0b1010), 0);
    assert_eq!(compact_bits(0x155_5555_5555), (1 << 21) - 1);
    assert_eq!(compact_bits(u64::MAX), 0xffff_ffff);
}

#[test]
fn morton_key_interleaves_x_low_y_high() {
    assert_eq!(morton_key(0, 0), 0);
    assert_eq!(morton_key(1, 0), 1);
    assert_eq!(morton_key(0, 1), 2);
    assert_eq!(morton_key(1, 1), 3);
    assert_eq!(morton_key(2, 0), 4);
    assert_eq!(morton_key(3, 3), 15);
    assert_eq!(morton_key(5, 9), 0b10_01_00_11);
}

#[test]
fn morton_cell_inverts_morton_key() {
    for &(x, y) in &[(0u64, 0u64), (1, 2), (12345, 54321), ((1 << 21) - 1, 0), (0, (1 << 21) - 1)] {
        assert_eq!(morton_cell(morton_key(x, y)), (x, y));
    }
    assert_eq!(morton_cell(15), (3, 3));
    assert_eq!(morton_cell(2), (0, 1));
}

#[test]
fn morton_parent_cell_is_key_prefix() {
    // Dropping two bits of a key gives the key of the cell one level coarser.
    let (x, y) = (777u64, 1234u64);
    let key = morton_key(x, y);
    assert_eq!(key >> 2, morton_key(x >> 1, y >> 1));
    assert_eq!(key >> 6, morton_key(x >> 3, y >> 3));
}
