use tuplet::CrossBatchMemory;

#[test]
fn test_cross_batch_memory() {
    let mut mem = CrossBatchMemory::new(4, 2);
    assert!(mem.is_empty());

    let e0: &[f32] = &[1.0, 0.0];
    let e1: &[f32] = &[0.0, 1.0];
    mem.enqueue(&[e0, e1], &[0, 1]);
    assert_eq!(mem.len(), 2);

    let e2: &[f32] = &[0.5, 0.5];
    let e3: &[f32] = &[-1.0, 0.0];
    mem.enqueue(&[e2, e3], &[0, 1]);
    assert_eq!(mem.len(), 4);

    // Enqueue one more, should evict oldest
    let e4: &[f32] = &[0.3, 0.7];
    mem.enqueue(&[e4], &[2]);
    assert_eq!(mem.len(), 4);
    assert_eq!(mem.memory_labels(), &[1, 0, 1, 2]);

    // The memory bank serves as negatives: the last four embeddings, oldest first.
    let neg_refs = mem.embeddings();
    assert_eq!(neg_refs, vec![e1, e2, e3, e4]);
}

#[test]
fn cross_batch_memory_keeps_last_of_a_large_batch() {
    let mut mem: CrossBatchMemory<i32> = CrossBatchMemory::new(2, 1);
    mem.enqueue(&[&[1], &[2], &[3], &[4], &[5]], &[10, 20, 30, 40, 50]);
    assert_eq!(mem.len(), 2);
    assert_eq!(mem.memory_labels(), &[40, 50]);
    assert_eq!(mem.embeddings(), vec![&[4][..], &[5][..]]);
}

#[test]
fn cross_batch_memory_two_batches_match_one() {
    let mut split: CrossBatchMemory<u8> = CrossBatchMemory::new(3, 1);
    split.enqueue(&[&[1], &[2]], &[1, 2]);
    split.enqueue(&[&[3], &[4], &[5]], &[3, 4, 5]);
    let mut whole: CrossBatchMemory<u8> = CrossBatchMemory::new(3, 1);
    whole.enqueue(&[&[1], &[2], &[3], &[4], &[5]], &[1, 2, 3, 4, 5]);
    assert_eq!(split.embeddings(), whole.embeddings());
    assert_eq!(split.memory_labels(), whole.memory_labels());
    assert_eq!(split.memory_labels(), &[3, 4, 5]);
}

#[test]
fn cross_batch_memory_zero_capacity_accepts_empty_batches() {
    let mut mem: CrossBatchMemory<f32> = CrossBatchMemory::new(0, 3);
    mem.enqueue(&[], &[]);
    assert!(mem.is_empty());
    assert_eq!(mem.len(), 0);
    assert!(mem.embeddings().is_empty());
}
