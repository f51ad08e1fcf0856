use treap::order_statistics::OrderStatistics;
use treap::tree::{Node, Sequence, Tree};

type OsSet = Tree<i64, (), OrderStatistics, false>;

fn keys_of(tree: &OsSet) -> Vec<i64> {
    let mut out = Vec::new();
    let mut it = tree.iter();
    while let Some(node) = it.next() {
        out.push(*node.key());
    }
    out
}

fn seq_values(seq: &Sequence<i64>) -> Vec<i64> {
    let mut out = Vec::new();
    let mut it = seq.iter();
    while let Some(node) = it.next() {
        out.push(*node.value());
    }
    out
}

fn sample_set() -> OsSet {
    let mut set: OsSet = Tree::new();
    for key in [4, 9, -2, 0, 7, 11, 3] {
        set.insert(key, ());
    }
    set
}

#[test]
fn find_by_rank_matches_in_order_position() {
    let set = sample_set();
    let sorted = vec![-2, 0, 3, 4, 7, 9, 11];
    assert_eq!(keys_of(&set), sorted);
    for (r, expected) in sorted.iter().enumerate() {
        let node = set.find_by_rank(r).unwrap();
        assert_eq!(node.key(), expected);
    }
    assert!(set.find_by_rank(7).is_none());
    assert!(set.find_by_rank(1000).is_none());
}

#[test]
fn len_and_is_empty_follow_the_aggregate() {
    let mut set: OsSet = Tree::new();
    assert!(set.is_empty());
    assert_eq!(set.len(), 0);
    set.insert(5, ());
    assert!(!set.is_empty());
    assert_eq!(set.len(), 1);
    set.remove_key(&5);
    assert!(set.is_empty());
}

#[test]
fn split_by_rank_then_merge_reconstructs() {
    // For every boundary 0..=length, a split followed by a merge of the two
    // results rebuilds the original sequence exactly.
    let sorted = vec![-2, 0, 3, 4, 7, 9, 11];
    for r in 0..=sorted.len() {
        let mut root = None;
        for k in [4i64, 9, -2, 0, 7, 11, 3] {
            root = Some(Node::<i64, (), OrderStatistics, false>::insert_generic(
                root,
                Box::new(Node::new(k, ())),
            ));
        }
        let (left, right) = Node::split_by_rank(root, r);
        let mut left_keys = Vec::new();
        let mut it = Node::iter(left.as_deref());
        while let Some(n) = it.next() {
            left_keys.push(*n.key());
        }
        assert_eq!(left_keys, sorted[..r].to_vec());
        let merged = Node::merge(left, right);
        let mut keys = Vec::new();
        let mut it = Node::iter(merged.as_deref());
        while let Some(n) = it.next() {
            keys.push(*n.key());
        }
        assert_eq!(keys, sorted);
    }
}

#[test]
fn split_by_rank_beyond_length_keeps_everything_left() {
    let mut root = None;
    for k in [2i64, 1, 3] {
        root = Some(Node::<i64, (), OrderStatistics, false>::insert_generic(
            root,
            Box::new(Node::new(k, ())),
        ));
    }
    let (left, right) = Node::split_by_rank(root, 10);
    assert!(right.is_none());
    let mut keys = Vec::new();
    let mut it = Node::iter(left.as_deref());
    while let Some(n) = it.next() {
        keys.push(*n.key());
    }
    assert_eq!(keys, vec![1, 2, 3]);
}

#[test]
fn remove_by_rank_shifts_later_ranks() {
    // After removing rank r, rank r holds what previously occupied r + 1.
    let mut set = sample_set();
    let removed = set.remove_by_rank(2).unwrap();
    assert_eq!(*removed.key(), 3);
    assert_eq!(keys_of(&set), vec![-2, 0, 4, 7, 9, 11]);
    let now_at_2 = set.find_by_rank(2).unwrap();
    assert_eq!(*now_at_2.key(), 4);
    // Removing the last rank leaves nothing at that rank afterwards.
    let last = set.remove_by_rank(5).unwrap();
    assert_eq!(*last.key(), 11);
    assert!(set.find_by_rank(5).is_none());
}

#[test]
fn remove_by_rank_out_of_range_changes_nothing() {
    let mut set = sample_set();
    assert!(set.remove_by_rank(7).is_none());
    assert!(set.remove_by_rank(99).is_none());
    assert_eq!(keys_of(&set), vec![-2, 0, 3, 4, 7, 9, 11]);
}

#[test]
fn sequence_push_left_and_right() {
    let mut seq: Sequence<i64> = Tree::new();
    seq.push_right(2);
    seq.push_right(3);
    seq.push_left(1);
    assert_eq!(seq_values(&seq), vec![1, 2, 3]);
    seq.push_left(0);
    assert_eq!(*seq.iter().next().unwrap().value(), 0);
    seq.push_right(4);
    assert_eq!(seq_values(&seq), vec![0, 1, 2, 3, 4]);
    let node = seq.find_by_rank(4).unwrap();
    assert_eq!(*node.value(), 4);
}

#[test]
fn sequence_insert_at_rank_lands_at_rank() {
    // For every rank 0..=length measured before the insert, the inserted
    // value is found back at that rank.
    for r in 0..=4usize {
        let mut seq: Sequence<i64> = Tree::new();
        for v in [10, 11, 12, 13] {
            seq.push_right(v);
        }
        seq.insert_at_rank(r, 99);
        let node = seq.find_by_rank(r).unwrap();
        assert_eq!(*node.value(), 99);
        assert_eq!(seq.len(), 5);
        let mut expected: Vec<i64> = vec![10, 11, 12, 13];
        expected.insert(r, 99);
        assert_eq!(seq_values(&seq), expected);
    }
}

#[test]
fn sequence_insert_at_rank_out_of_range_appends() {
    // Regression: a rank beyond the current length is clamped — the value
    // lands at the end.
    let mut seq: Sequence<i64> = Tree::new();
    seq.push_right(1);
    seq.push_right(2);
    seq.insert_at_rank(10, 3);
    assert_eq!(seq_values(&seq), vec![1, 2, 3]);
    assert_eq!(*seq.find_by_rank(2).unwrap().value(), 3);
}

#[test]
fn sequence_remove_by_rank() {
    let mut seq: Sequence<i64> = Tree::new();
    for v in [10, 11, 12, 13] {
        seq.push_right(v);
    }
    let removed = seq.remove_by_rank(1).unwrap();
    assert_eq!(*removed.value(), 11);
    assert_eq!(seq_values(&seq), vec![10, 12, 13]);
    assert_eq!(*seq.find_by_rank(1).unwrap().value(), 12);
}
