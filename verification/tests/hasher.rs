use diamond_square::hasher::{hash, HASH_MODULUS};
use std::collections::hash_map::DefaultHasher;
use std::hash::Hasher;

fn reference_fraction(seed: i64, x: i32, y: i32) -> f32 {
    let mut hasher = DefaultHasher::new();
    hasher.write_i64(seed);
    hasher.write_i32(x);
    hasher.write_i32(y);
    (hasher.finish() % 0xFF) as f32 / 0xFF as f32
}

#[test]
fn hash_matches_the_streamed_integer_writes() {
    for seed in [0i64, 1, -1, 42, i64::MAX, i64::MIN] {
        for x in [0i32, 1, -1, 7, 512, i32::MAX, i32::MIN] {
            for y in [0i32, 1, -1, 9, 1024, i32::MAX, i32::MIN] {
                let n = hash(seed, x, y);
                assert!((n as u64) < HASH_MODULUS);
                assert_eq!(n as f32 / 255.0, reference_fraction(seed, x, y));
            }
        }
    }
}

#[test]
fn hash_known_values() {
    assert_eq!(hash(0, 0, 0), 36);
    assert_eq!(hash(0, 0, 1), 84);
    assert_eq!(hash(0, 1, 0), 175);
    assert_eq!(hash(0, 1, 1), 81);
    assert_eq!(hash(42, -3, 7), 213);
    assert_eq!(hash(-1, 100, 200), 164);
}

#[test]
fn hash_is_stable_across_calls() {
    for seed in [-5i64, 0, 9_000_000_000] {
        for x in -20i32..20 {
            for y in -20i32..20 {
                let first = hash(seed, x, y);
                for _ in 0..3 {
                    assert_eq!(hash(seed, x, y), first);
                }
            }
        }
    }
}

#[test]
fn hash_fraction_lies_in_the_unit_interval() {
    for x in -64i32..64 {
        for y in -64i32..64 {
            let fraction = hash(7, x, y) as f64 / HASH_MODULUS as f64;
            assert!((0.0..1.0).contains(&fraction));
        }
    }
}

#[test]
fn hash_depends_on_the_order_of_its_coordinates() {
    assert_eq!(hash(0, 1, 2), 97);
    assert_eq!(hash(0, 2, 1), 5);
    assert_ne!(hash(1, 0, 0), hash(0, 1, 0));
}

#[test]
fn hash_spreads_evenly_over_buckets() {
    let buckets = 5usize;
    let side = 200i32;
    let mut counts = vec![0u32; buckets];
    for x in 0..side {
        for y in 0..side {
            let n = hash(1234, x, y) as usize;
            counts[n * buckets / 255] += 1;
        }
    }
    let expected = (side * side) as f64 / buckets as f64;
    for count in counts {
        let off = (count as f64 - expected).abs() / expected;
        assert!(off < 0.10, "bucket holds {count}, expected about {expected}");
    }
}

#[test]
fn hash_reaches_every_numerator() {
    let mut seen = vec![false; 255];
    for x in 0..200i32 {
        for y in 0..200i32 {
            seen[hash(99, x, y) as usize] = true;
        }
    }
    assert!(seen.iter().all(|&s| s));
}
