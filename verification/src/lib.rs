//! A randomized balanced ordered-container engine: a treap parameterized
//! over a per-node aggregate that stays consistent under every structural
//! mutation, an order-statistics augmentation built on it, and an implicit
//! positional sequence built on that.

pub mod order_statistics;
pub mod total_order;
pub mod tree;

pub use order_statistics::OrderStatistics;
pub use total_order::{Cmp, TotalOrder};
pub use tree::{BoxedNode, Iter, Metadata, Node, Sequence, Side, Tree};
