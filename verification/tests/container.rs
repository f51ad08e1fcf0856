use treap::order_statistics::OrderStatistics;
use treap::total_order::Cmp;
use treap::tree::{Metadata, Node, Side, Tree};
use treap::TotalOrder;

type MultisetTree = Tree<i64, (), OrderStatistics, false>;
type MapTree = Tree<i64, i64, (), true>;
type OsMapTree = Tree<i64, i64, OrderStatistics, true>;
type MultimapTree = Tree<i64, i64, (), false>;

fn entries<
    K: TotalOrder + Clone,
    V: Clone,
    M: Metadata<K, V>,
    const DEDUP: bool,
>(tree: &Tree<K, V, M, DEDUP>) -> Vec<(K, V)> {
    let mut out = Vec::new();
    let mut it = tree.iter();
    while let Some(node) = it.next() {
        out.push((node.key().clone(), node.value().clone()));
    }
    out
}

#[test]
fn empty_tree_has_nothing() {
    let tree: MapTree = Tree::new();
    assert!(!tree.contains_key(&0));
    assert!(tree.get(&0).is_none());
    assert!(tree.find(&0).is_none());
    assert_eq!(entries(&tree), vec![]);
}

#[test]
fn additive_multiset_scenario() {
    // Duplicate keys are retained under the additive policy.
    let mut set: MultisetTree = Tree::new();
    for key in [1, 2, 3, 2, 0, 10, -3, 4] {
        set.insert(key, ());
    }
    let keys: Vec<i64> = entries(&set).into_iter().map(|(k, _)| k).collect();
    assert_eq!(keys, vec![-3, 0, 1, 2, 2, 3, 4, 10]);
    assert_eq!(set.len(), 8);
    let node = set.find_by_rank(5).unwrap();
    assert_eq!(*node.key(), 3);
}

#[test]
fn collapsing_map_scenario() {
    // The second insert of key 1 overwrites the first.
    let mut map: MapTree = Tree::new();
    for (k, v) in [(1, 3), (2, 4), (-1, 5), (1, 6), (7, 8)] {
        map.insert(k, v);
    }
    assert_eq!(entries(&map), vec![(-1, 5), (1, 6), (2, 4), (7, 8)]);
    assert_eq!(map.get(&1), Some(&6));
    assert_eq!(map.get(&3), None);
}

#[test]
fn remove_key_twice_reports_absence() {
    let mut map: MapTree = Tree::new();
    map.insert(1, 2);
    map.insert(3, 2);
    map.insert(-1, 7);
    map.insert(0, 4);
    assert_eq!(map.remove_key(&3), Some((3, 2)));
    assert_eq!(map.remove_key(&3), None);
    assert_eq!(entries(&map), vec![(-1, 7), (0, 4), (1, 2)]);
}

#[test]
fn collapsing_insert_count() {
    // Present key: count unchanged, only the value updated; absent key:
    // count grows by exactly one.
    let mut map: MapTree = Tree::new();
    map.insert(4, 10);
    map.insert(9, 11);
    assert_eq!(entries(&map).len(), 2);
    map.insert(4, 12);
    assert_eq!(entries(&map).len(), 2);
    assert_eq!(map.get(&4), Some(&12));
    assert_eq!(map.get(&9), Some(&11));
    map.insert(5, 13);
    assert_eq!(entries(&map).len(), 3);
}

#[test]
fn additive_insert_count() {
    // Every insertion adds a node, present key or not.
    let mut set: MultisetTree = Tree::new();
    for _ in 0..4 {
        set.insert(7, ());
    }
    assert_eq!(set.len(), 4);
    set.insert(8, ());
    assert_eq!(set.len(), 5);
}

#[test]
fn additive_duplicates_newest_first() {
    // Regression: under the additive policy an equal key descends left, so
    // the most recent duplicate appears before older ones in order.
    let mut mm: MultimapTree = Tree::new();
    mm.insert(5, 1);
    mm.insert(5, 2);
    mm.insert(5, 3);
    assert_eq!(entries(&mm), vec![(5, 3), (5, 2), (5, 1)]);
}

#[test]
fn find_returns_matching_node() {
    let mut map: MapTree = Tree::new();
    map.insert(2, 20);
    map.insert(1, 10);
    map.insert(3, 30);
    let node = map.find(&3).unwrap();
    assert_eq!(*node.key(), 3);
    assert_eq!(*node.value(), 30);
    assert!(map.contains_key(&1));
    assert!(!map.contains_key(&4));
    assert_eq!(*map.index(&2), 20);
}

#[test]
fn node_split_before_partitions_by_key() {
    // split_before keeps keys at or before the boundary on the left.
    let mut root = None;
    for k in [4i64, 1, 6, 3, 9] {
        root = Some(Node::<i64, (), (), false>::insert_generic(
            root,
            Box::new(Node::new(k, ())),
        ));
    }
    let (left, right) = Node::split_before(root, &4);
    let l = Node::iter(left.as_deref());
    let mut l = l;
    let mut left_keys = Vec::new();
    while let Some(n) = l.next() {
        left_keys.push(*n.key());
    }
    let mut r = Node::iter(right.as_deref());
    let mut right_keys = Vec::new();
    while let Some(n) = r.next() {
        right_keys.push(*n.key());
    }
    assert_eq!(left_keys, vec![1, 3, 4]);
    assert_eq!(right_keys, vec![6, 9]);
}

#[test]
fn node_split_remove_excises_match() {
    // Under the collapsing policy the matched node is dropped by the split.
    let mut root = None;
    for k in [4i64, 1, 6, 3, 9] {
        root = Some(Node::<i64, (), (), true>::insert_generic(
            root,
            Box::new(Node::new(k, ())),
        ));
    }
    let (left, right) = Node::split_remove_generic(root, &4);
    let merged = Node::merge(left, right);
    let mut it = Node::iter(merged.as_deref());
    let mut keys = Vec::new();
    while let Some(n) = it.next() {
        keys.push(*n.key());
    }
    assert_eq!(keys, vec![1, 3, 6, 9]);
}

#[test]
fn node_remove_excises_root_of_slot() {
    let mut slot: Option<Box<Node<i64, i64, (), true>>> = Node::new_boxed(5, 50);
    let removed = Node::remove(&mut slot);
    assert_eq!(removed, Some((5, 50)));
    assert!(slot.is_none());
    let removed_again: Option<(i64, i64)> = Node::remove(&mut slot);
    assert_eq!(removed_again, None);
}

#[test]
fn side_from_cmp_orders() {
    assert_eq!(Side::from_cmp(1i64, 2i64), Side::Left);
    assert_eq!(Side::from_cmp(2i64, 2i64), Side::Right);
    assert_eq!(Side::from_cmp(3i64, 2i64), Side::Right);
}

#[test]
fn compare_is_three_way() {
    assert_eq!(1i64.compare(&2), Cmp::Less);
    assert_eq!(2i64.compare(&2), Cmp::Equal);
    assert_eq!(3i64.compare(&2), Cmp::Greater);
}

#[test]
fn order_statistics_aggregate_counts() {
    let leaf = <OrderStatistics as Metadata<i64, ()>>::update(&1, &(), None, None);
    assert_eq!(leaf.order, 1);
    let inner = <OrderStatistics as Metadata<i64, ()>>::update(
        &2,
        &(),
        Some(&OrderStatistics { order: 3 }),
        Some(&OrderStatistics { order: 5 }),
    );
    assert_eq!(inner.order, 9);
}

#[test]
fn aggregates_and_priorities_hold_after_mutations() {
    // After every insertion and removal, each surviving node's order
    // aggregate equals 1 + its children's aggregates.
    fn check(node: Option<&Node<i64, (), OrderStatistics, false>>) -> usize {
        match node {
            None => 0,
            Some(n) => {
                let left = check(n.left());
                let right = check(n.right());
                assert_eq!(n.metadata().order, 1 + left + right);
                1 + left + right
            }
        }
    }
    let mut set: MultisetTree = Tree::new();
    for key in [5, 3, 8, 3, 1, 9, 7, 2] {
        set.insert(key, ());
        check(set.root());
    }
    set.remove_key(&3);
    check(set.root());
    set.remove_by_rank(0);
    check(set.root());
    assert_eq!(set.len(), 6);
}

#[test]
fn bulk_construction_by_repeated_insert() {
    let map: MapTree = Tree::from_entries(vec![(1, 2), (3, 2), (-1, 7), (1, 9)]);
    assert_eq!(entries(&map), vec![(-1, 7), (1, 9), (3, 2)]);
    let mut set: MultisetTree = Tree::new();
    set.extend(vec![(2, ()), (2, ()), (1, ())]);
    assert_eq!(set.len(), 3);
    let keys: Vec<i64> = entries(&set).into_iter().map(|(k, _)| k).collect();
    assert_eq!(keys, vec![1, 2, 2]);
}

#[test]
fn iteration_is_restartable() {
    let mut map: OsMapTree = Tree::new();
    map.insert(2, 1);
    map.insert(1, 0);
    let mut first = map.iter();
    assert_eq!(*first.next().unwrap().key(), 1);
    let mut second = map.iter();
    assert_eq!(*second.next().unwrap().key(), 1);
    assert_eq!(*first.next().unwrap().key(), 2);
    assert!(first.next().is_none());
    assert!(first.next().is_none());
}
