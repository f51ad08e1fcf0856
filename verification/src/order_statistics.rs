use vstd::prelude::*;

use crate::tree::Metadata;

verus! {

/// The order-statistics aggregate: the number of entries in the subtree.
/// The rank-indexed operations built on it — rank lookup, rank-based split
/// and removal, and the implicit sequence — live with the tree engine in
/// `crate::tree`, whose internal structure their proofs traverse.
#[derive(Debug, Clone, Copy, PartialEq, Eq, Structural)]
pub struct OrderStatistics {
    pub order: usize,
}

/// The subtree size an absent child contributes.
pub open spec fn order_opt(m: Option<OrderStatistics>) -> int {
    match m {
        None => 0,
        Some(os) => os.order as int,
    }
}

/// `size(node) = 1 + size(left) + size(right)`, saturating at the machine
/// limit (which a tree held in memory never reaches).
impl<K, V> Metadata<K, V> for OrderStatistics {
    open spec fn update_spec(key: K, value: V, left: Option<Self>, right: Option<Self>) -> Self {
        OrderStatistics {
            order: if 1 + order_opt(left) + order_opt(right) <= usize::MAX {
                (1 + order_opt(left) + order_opt(right)) as usize
            } else {
                usize::MAX
            },
        }
    }

    fn update(key: &K, value: &V, left: Option<&Self>, right: Option<&Self>) -> (m: Self) {
        let l: usize = match left {
            Some(os) => os.order,
            None => 0,
        };
        let r: usize = match right {
            Some(os) => os.order,
            None => 0,
        };
        let order: usize = if l <= usize::MAX - 1 && r <= usize::MAX - 1 - l {
            1 + l + r
        } else {
            usize::MAX
        };
        OrderStatistics { order }
    }
}

} // verus!
