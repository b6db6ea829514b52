use tuplet::groups::{
    anchor_positives, class_members, class_non_members, classes_present, positive_pairs,
};
use tuplet::neighbors::target_neighbors;
use tuplet::DistanceFn;

#[test]
fn anchor_positives_exclude_the_anchor() {
    let labels = [0usize, 1, 0, 2, 0];
    assert_eq!(anchor_positives(&labels, 0), vec![2, 4]);
    assert_eq!(anchor_positives(&labels, 2), vec![0, 4]);
    assert!(anchor_positives(&labels, 3).is_empty());
}

#[test]
fn class_members_and_non_members_split_the_batch() {
    let labels = [0usize, 1, 0, 2, 0];
    assert_eq!(class_members(&labels, 0), vec![0, 2, 4]);
    assert_eq!(class_non_members(&labels, 0), vec![1, 3]);
    assert!(class_members(&labels, 7).is_empty());
    assert_eq!(class_non_members(&labels, 7), vec![0, 1, 2, 3, 4]);
}

#[test]
fn classes_present_marks_occurring_classes() {
    let labels = [2usize, 0, 2, 5];
    assert_eq!(classes_present(&labels, 4), vec![true, false, true, false]);
    assert!(classes_present(&labels, 0).is_empty());
}

#[test]
fn positive_pairs_in_row_order() {
    let labels = [0usize, 1, 0, 1, 0];
    assert_eq!(
        positive_pairs(&labels),
        vec![(0, 2), (0, 4), (1, 3), (2, 4)]
    );
    assert!(positive_pairs(&[0usize, 1, 2]).is_empty());
}

#[test]
fn target_neighbors_nearest_first_with_ties_by_position() {
    let labels = [0usize, 0, 1, 0, 0, 0];
    let keys = [0u32, 7, 1, 3, 7, 2];
    assert_eq!(target_neighbors(&labels, 0, &keys, 3), vec![5, 3, 1]);
    assert_eq!(target_neighbors(&labels, 0, &keys, 10), vec![5, 3, 1, 4]);
    assert_eq!(target_neighbors(&labels, 0, &keys, 2), vec![5, 3]);
    assert!(target_neighbors(&labels, 2, &keys, 3).is_empty());
    assert!(target_neighbors(&labels, 0, &keys, 0).is_empty());
}

#[test]
fn distance_fn_variants_are_distinct() {
    assert_ne!(DistanceFn::Euclidean, DistanceFn::Cosine);
    let d = DistanceFn::Cosine;
    let e = d;
    assert_eq!(d, e);
}

#[test]
fn anchor_partition_counts_every_entry_once() {
    let labels = [3usize, 1, 3, 3, 2, 1];
    for anchor in 0..labels.len() {
        let pos = anchor_positives(&labels, anchor);
        let neg = class_non_members(&labels, labels[anchor]);
        assert_eq!(1 + pos.len() + neg.len(), labels.len());
        for j in 0..labels.len() {
            let n = (j == anchor) as usize + pos.contains(&j) as usize + neg.contains(&j) as usize;
            assert_eq!(n, 1);
        }
    }
    assert_eq!(
        class_members(&labels, 3).len() + class_non_members(&labels, 3).len(),
        labels.len()
    );
}
