use tuplet::{HardestMiner, InBatchMiner, RandomMiner};

fn cosine(a: &[f32], b: &[f32]) -> f32 {
    let d: f32 = a.iter().zip(b).map(|(x, y)| x * y).sum();
    let na: f32 = a.iter().map(|x| x * x).sum::<f32>().sqrt();
    let nb: f32 = b.iter().map(|x| x * x).sum::<f32>().sqrt();
    if na * nb == 0.0 { 0.0 } else { d / (na * nb) }
}

/// Order-preserving key of a similarity: NaN and negative infinity get 0.
fn key(x: f32) -> u32 {
    if x.is_nan() || x == f32::NEG_INFINITY {
        return 0;
    }
    let x = if x == 0.0 { 0.0f32 } else { x };
    let bits = x.to_bits();
    if bits & 0x8000_0000 != 0 { !bits } else { bits | 0x8000_0000 }
}

#[test]
fn test_in_batch_miner() {
    let anchor: &[f32] = &[1.0, 0.0];
    let pool: Vec<&[f32]> = vec![&[0.9, 0.1], &[0.0, 1.0], &[0.5, 0.5]];
    let exclude = vec![0];

    let miner = InBatchMiner;
    let result = miner.mine(anchor, &pool, &exclude);

    assert_eq!(result.len(), 2);
    assert!(!result.contains(&0));
    assert!(result.contains(&1));
    assert!(result.contains(&2));
}

#[test]
fn test_hardest_miner() {
    let anchor: &[f32] = &[1.0, 0.0];
    let pool: Vec<&[f32]> = vec![
        &[0.0, 1.0],  // orthogonal, cos=0
        &[0.9, 0.1],  // very similar, cos~0.99
        &[-1.0, 0.0], // opposite, cos=-1
    ];
    let exclude: Vec<usize> = vec![];

    let keys: Vec<u32> = pool.iter().map(|p| key(cosine(anchor, p))).collect();
    let miner = HardestMiner;
    let result = miner.mine(&keys, &exclude);

    assert_eq!(result.len(), 1);
    assert_eq!(result[0], 1, "should select the most similar candidate");
}

#[test]
fn test_random_miner() {
    let anchor: &[f32] = &[1.0, 0.0];
    let pool: Vec<&[f32]> = vec![
        &[0.9, 0.1],
        &[0.0, 1.0],
        &[0.5, 0.5],
        &[-1.0, 0.0],
        &[0.3, 0.7],
    ];
    let exclude = vec![2];

    let miner = RandomMiner { k: 2 };
    let result = miner.mine(anchor, &pool, &exclude);

    assert_eq!(result.len(), 2, "should return exactly k items");
    assert!(
        !result.contains(&2),
        "excluded index should not appear in result"
    );
    for &idx in &result {
        assert!(idx < pool.len(), "index should be in range");
    }
}

#[test]
fn in_batch_miner_keeps_order_and_ignores_foreign_exclusions() {
    let pool: Vec<&[f32]> = vec![&[1.0], &[2.0], &[3.0], &[4.0]];
    let result = InBatchMiner.mine(&[0.0f32], &pool, &[7, 2, 2]);
    assert_eq!(result, vec![0, 1, 3]);
    let none = InBatchMiner.mine(&[0.0f32], &pool, &[0, 1, 2, 3]);
    assert!(none.is_empty());
}

#[test]
fn hardest_miner_prefers_first_of_equal_keys() {
    let keys = [5u32, 9, 9, 3];
    assert_eq!(HardestMiner.mine(&keys, &[]), vec![1]);
    assert_eq!(HardestMiner.mine(&keys, &[1]), vec![2]);
    assert_eq!(HardestMiner.mine(&keys, &[1, 2]), vec![0]);
}

#[test]
fn hardest_miner_never_picks_zero_keys() {
    assert!(HardestMiner.mine(&[0u32, 0, 0], &[]).is_empty());
    assert_eq!(HardestMiner.mine(&[0u32, 4, 0], &[]), vec![1]);
    assert!(HardestMiner.mine(&[0u32, 4, 0], &[1]).is_empty());
    assert!(HardestMiner.mine(&[], &[]).is_empty());
    // A NaN similarity is never picked, and neither is negative infinity.
    let keys = [key(f32::NAN), key(f32::NEG_INFINITY), key(-0.5)];
    assert_eq!(HardestMiner.mine(&keys, &[]), vec![2]);
}

#[test]
fn similarity_keys_follow_float_order() {
    assert!(key(-1.0) < key(-0.5));
    assert!(key(-0.5) < key(0.0));
    assert_eq!(key(-0.0), key(0.0));
    assert!(key(0.0) < key(0.25));
    assert!(key(0.25) < key(f32::INFINITY));
    assert!(key(f32::MIN) > 0);
}

#[test]
fn random_miner_with_large_k_returns_every_candidate() {
    let pool: Vec<&[f32]> = vec![&[1.0], &[2.0], &[3.0], &[4.0], &[5.0]];
    let mut result = RandomMiner { k: 10 }.mine(&[0.0f32], &pool, &[1, 3]);
    result.sort();
    assert_eq!(result, vec![0, 2, 4]);
    let empty = RandomMiner { k: 0 }.mine(&[0.0f32], &pool, &[]);
    assert!(empty.is_empty());
}

#[test]
fn random_miner_does_not_always_pick_the_first_candidate() {
    let pool: Vec<&[f32]> = vec![&[1.0], &[2.0], &[3.0], &[4.0], &[5.0]];
    let miner = RandomMiner { k: 1 };
    let mut seen = [false; 5];
    for _ in 0..200 {
        let picked = miner.mine(&[0.0f32], &pool, &[]);
        assert_eq!(picked.len(), 1);
        seen[picked[0]] = true;
    }
    assert!(seen.iter().skip(1).any(|&s| s), "the draw never moved past the first candidate");
}
