use maze_core::utils::{
    add_noise, apply_noise, checked_add_noise, fibonacci, noise_range, random_from_digest,
    seed_message, seeded_random,
};

#[test]
fn test_seeded_random_deterministic() {
    let seed = [42u8; 32];
    let a = seeded_random(&seed, 0);
    let b = seeded_random(&seed, 0);
    assert_eq!(a, b, "same seed + index must produce same result");
}

#[test]
fn test_seeded_random_different_index() {
    let seed = [42u8; 32];
    let a = seeded_random(&seed, 0);
    let b = seeded_random(&seed, 1);
    assert_ne!(a, b, "different index should produce different result");
}

#[test]
fn seeded_random_known_values() {
    // first 8 bytes, little-endian, of SHA-256(seed || index as 8 LE bytes)
    let seed = [42u8; 32];
    assert_eq!(seeded_random(&seed, 0), 1163633985003088896);
    assert_eq!(seeded_random(&seed, 1), 12421544160882235153);
}

#[test]
fn seed_message_layout() {
    let m = seed_message(&[1, 2, 3], 0x0102_0304_0506_0708);
    assert_eq!(m, vec![1, 2, 3, 8, 7, 6, 5, 4, 3, 2, 1]);
}

#[test]
fn random_from_digest_reads_little_endian() {
    let digest = [1u8, 0, 0, 0, 0, 0, 0, 0x80, 0xff, 0xff];
    assert_eq!(random_from_digest(&digest), 0x8000_0000_0000_0001);
}

#[test]
fn test_fibonacci_known_values() {
    assert_eq!(fibonacci(0), 0);
    assert_eq!(fibonacci(1), 1);
    assert_eq!(fibonacci(5), 5);
    assert_eq!(fibonacci(10), 55);
    assert_eq!(fibonacci(15), 987);
    assert_eq!(fibonacci(20), 10946);
}

#[test]
fn fibonacci_past_the_table() {
    assert_eq!(fibonacci(11), 144);
    assert_eq!(fibonacci(92), 12200160415121876738);
}

#[test]
fn test_add_noise_deterministic() {
    let seed = [7u8; 32];
    let amount = 1_000_000;
    let noise = (0.5 * 100.0) as u32;
    let a = add_noise(amount, noise, &seed, 0);
    let b = add_noise(amount, noise, &seed, 0);
    assert_eq!(a, b, "same inputs must produce same noise");
}

#[test]
fn test_add_noise_within_range() {
    let seed = [99u8; 32];
    let amount = 1_000_000u64;
    let noise_percent = 1.0;
    let noise = (noise_percent * 100.0) as u32;
    for i in 0..100 {
        let noised = add_noise(amount, noise, &seed, i);
        let max_noise = (amount as f64 * noise_percent / 100.0) as u64;
        let diff = (noised as i64 - amount as i64).unsigned_abs();
        assert!(diff <= max_noise, "noise {} exceeds max {}", diff, max_noise);
    }
}

#[test]
fn test_add_noise_zero_percent() {
    let seed = [0u8; 32];
    let amount = 500_000;
    let noised = add_noise(amount, 0, &seed, 0);
    assert_eq!(noised, amount, "zero noise should return original amount");
}

#[test]
fn noise_range_values() {
    assert_eq!(noise_range(1_000_000, 50), 5_000);
    assert_eq!(noise_range(1_000_000, 100), 10_000);
    assert_eq!(noise_range(199, 50), 0);
    assert_eq!(noise_range(u64::MAX, u32::MAX), u64::MAX);
}

#[test]
fn apply_noise_exact() {
    // offset = random % (2 * range) - range
    assert_eq!(apply_noise(1000, 10, 0), Some(990));
    assert_eq!(apply_noise(1000, 10, 19), Some(1009));
    assert_eq!(apply_noise(1000, 10, 25), Some(995));
    assert_eq!(apply_noise(5, 10, 0), Some(0));
    assert_eq!(apply_noise(1000, 0, 12345), Some(1000));
    assert_eq!(apply_noise(1000, u64::MAX, 0), None);
}

#[test]
fn checked_noise_matches_add_noise() {
    let seed = [3u8; 32];
    for i in 0..20 {
        assert_eq!(checked_add_noise(777_777, 75, &seed, i), Some(add_noise(777_777, 75, &seed, i)));
    }
}

#[test]
fn noise_keeps_large_amounts_unsigned() {
    let amount: u64 = 0xC000_0000_0000_0000;
    assert_eq!(apply_noise(amount, 1000, 0), Some(amount - 1000));
    assert_eq!(apply_noise(amount, 1000, 1999), Some(amount + 999));
    assert_eq!(apply_noise(u64::MAX, 10, 19), None);
    let r = noise_range(amount, 50);
    let noised = add_noise(amount, 50, &[1u8; 32], 0);
    assert!(noised >= amount - r && noised < amount + r);
}
