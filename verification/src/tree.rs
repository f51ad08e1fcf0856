use vstd::prelude::*;

use crate::order_statistics::{order_opt, OrderStatistics};
use crate::total_order::{spec_lt, Cmp, TotalOrder};

verus! {

/// A strategy computing a node's aggregate ("metadata") from the node's key
/// and value and its two children's aggregates only — never the node's own
/// current aggregate, never grandchildren.  The engine re-invokes it
/// bottom-up after every structural edit.
pub trait Metadata<K, V>: Sized {
    /// What the recomputed aggregate is, at the specification level.
    spec fn update_spec(key: K, value: V, left: Option<Self>, right: Option<Self>) -> Self;

    /// Recompute the aggregate of a node with the given key and value whose
    /// children carry the given aggregates (`None` for an absent child).
    fn update(key: &K, value: &V, left: Option<&Self>, right: Option<&Self>) -> (m: Self)
        ensures
            m == Self::update_spec(*key, *value, copied_opt(left), copied_opt(right)),
    ;
}

/// The value behind an optional reference, as a specification-level option.
pub open spec fn copied_opt<M>(m: Option<&M>) -> Option<M> {
    match m {
        None => None,
        Some(r) => Some(*r),
    }
}

/// The default no-op aggregate: every subtree has the same (empty) metadata.
impl<K, V> Metadata<K, V> for () {
    open spec fn update_spec(key: K, value: V, left: Option<Self>, right: Option<Self>) -> Self {
        ()
    }

    fn update(key: &K, value: &V, left: Option<&Self>, right: Option<&Self>) -> (m: Self) {
        ()
    }
}

/// Which side of a split boundary a node falls on.
#[derive(Debug, Clone, Copy, PartialEq, Eq, Structural)]
pub enum Side {
    Left,
    Right,
}

impl Side {
    /// `Left` when `lhs` orders strictly before `rhs`, `Right` otherwise.
    pub fn from_cmp<K: TotalOrder>(lhs: K, rhs: K) -> (s: Side)
        ensures
            s == (if spec_lt(lhs, rhs) {
                Side::Left
            } else {
                Side::Right
            }),
    {
        match lhs.compare(&rhs) {
            Cmp::Less => Side::Left,
            Cmp::Equal => Side::Right,
            Cmp::Greater => {
                proof {
                    if spec_lt(lhs, rhs) {
                        K::lemma_antisymmetric(lhs, rhs);
                    }
                }
                Side::Right
            },
        }
    }
}

/// A tree cell: key, value, random priority, aggregate, and exclusively
/// owned optional children.
pub struct Node<K: TotalOrder, V, M: Metadata<K, V>, const DEDUP: bool> {
    metadata: M,
    key: K,
    value: V,
    prio: i64,
    left: Option<Box<Node<K, V, M, DEDUP>>>,
    right: Option<Box<Node<K, V, M, DEDUP>>>,
}

/// An optional owned subtree: the form in which the structural algorithms
/// pass trees around.
pub type BoxedNode<K, V, M, const DEDUP: bool> = Option<Box<Node<K, V, M, DEDUP>>>;

// ---------------------------------------------------------------------------
// Specification-level bounds on the keys of an in-order sequence.
// ---------------------------------------------------------------------------

/// Every key of `s` orders at or before `k`.
pub open spec fn keys_le_key<K: TotalOrder, V>(s: Seq<(K, V)>, k: K) -> bool {
    forall|i: int| 0 <= i < s.len() ==> (#[trigger] s[i]).0.le(k)
}

/// Every key of `s` orders strictly before `k`.
pub open spec fn keys_lt_key<K: TotalOrder, V>(s: Seq<(K, V)>, k: K) -> bool {
    forall|i: int| 0 <= i < s.len() ==> spec_lt((#[trigger] s[i]).0, k)
}

/// `k` orders at or before every key of `s`.
pub open spec fn key_le_keys<K: TotalOrder, V>(k: K, s: Seq<(K, V)>) -> bool {
    forall|i: int| 0 <= i < s.len() ==> k.le((#[trigger] s[i]).0)
}

/// `k` orders strictly before every key of `s`.
pub open spec fn key_lt_keys<K: TotalOrder, V>(k: K, s: Seq<(K, V)>) -> bool {
    forall|i: int| 0 <= i < s.len() ==> spec_lt(k, (#[trigger] s[i]).0)
}

/// The keys of `s` are non-decreasing in the order of `K`.
pub open spec fn sorted_le<K: TotalOrder, V>(s: Seq<(K, V)>) -> bool {
    forall|i: int, j: int| 0 <= i < j < s.len() ==> (#[trigger] s[i]).0.le((#[trigger] s[j]).0)
}

/// The keys of `s` are strictly increasing: no duplicates ever occur.
pub open spec fn sorted_lt<K: TotalOrder, V>(s: Seq<(K, V)>) -> bool {
    forall|i: int, j: int| 0 <= i < j < s.len() ==> spec_lt((#[trigger] s[i]).0, (#[trigger] s[j]).0)
}

/// Some entry of `s` carries the key `k`.
pub open spec fn has_key<K, V>(s: Seq<(K, V)>, k: K) -> bool {
    exists|i: int| 0 <= i < s.len() && (#[trigger] s[i]).0 == k
}

/// `t` is `s` with one occurrence of the entry `pr` removed.
pub open spec fn removed_one<K, V>(s: Seq<(K, V)>, pr: (K, V), t: Seq<(K, V)>) -> bool {
    exists|i: int| #![auto] 0 <= i < s.len() && s[i] == pr && t == s.remove(i)
}

// ---------------------------------------------------------------------------
// The effect of one insertion on the in-order sequence.
// ---------------------------------------------------------------------------

/// `t` is `s` with `(k, v)` inserted at position `j`, the position the
/// additive policy picks: right after the entries whose keys order strictly
/// before `k`, and so in front of every entry with an equal key.
pub open spec fn is_insert_add_at<K: TotalOrder, V>(
    s: Seq<(K, V)>,
    k: K,
    v: V,
    t: Seq<(K, V)>,
    j: int,
) -> bool {
    &&& 0 <= j <= s.len()
    &&& t == s.insert(j, (k, v))
    &&& keys_lt_key(s.take(j), k)
    &&& key_le_keys(k, s.skip(j))
}

/// What an additive-policy insertion of `(k, v)` into `s` yields.
pub open spec fn is_insert_add<K: TotalOrder, V>(s: Seq<(K, V)>, k: K, v: V, t: Seq<(K, V)>) -> bool {
    exists|j: int| #![auto] is_insert_add_at(s, k, v, t, j)
}

/// What a collapsing-policy insertion of `(k, v)` into `s` yields: an
/// in-place overwrite of the entry already carrying `k`, or a plain sorted
/// insertion when `k` is absent.
pub open spec fn is_insert_dedup<K: TotalOrder, V>(
    s: Seq<(K, V)>,
    k: K,
    v: V,
    t: Seq<(K, V)>,
) -> bool {
    if has_key(s, k) {
        exists|i: int| #![auto] 0 <= i < s.len() && s[i].0 == k && t == s.update(i, (k, v))
    } else {
        is_insert_add(s, k, v, t)
    }
}

/// What inserting `(k, v)` into `s` yields under the given duplicate-key
/// policy.
pub open spec fn insert_model<K: TotalOrder, V>(
    s: Seq<(K, V)>,
    k: K,
    v: V,
    t: Seq<(K, V)>,
    dedup: bool,
) -> bool {
    if dedup {
        is_insert_dedup(s, k, v, t)
    } else {
        is_insert_add(s, k, v, t)
    }
}

/// An insertion grows the sequence by one entry — none, under the collapsing
/// policy on a present key — and every entry of the result is either the new
/// entry or one of the old ones.
pub proof fn lemma_insert_model_entries<K: TotalOrder, V>(
    s: Seq<(K, V)>,
    k: K,
    v: V,
    t: Seq<(K, V)>,
    dedup: bool,
)
    requires
        insert_model(s, k, v, t, dedup),
    ensures
        t.len() == s.len() + (if dedup && has_key(s, k) {
            0int
        } else {
            1int
        }),
        forall|x: int|
            0 <= x < t.len() ==> #[trigger] t[x] == (k, v) || exists|y: int|
                0 <= y < s.len() && #[trigger] s[y] == t[x],
        has_key(t, k),
{
    if dedup && has_key(s, k) {
        let i = choose|i: int| #![auto] 0 <= i < s.len() && s[i].0 == k && t == s.update(i, (k, v));
        assert(t[i] == (k, v));
        assert forall|x: int|
            0 <= x < t.len() implies #[trigger] t[x] == (k, v) || exists|y: int|
            0 <= y < s.len() && #[trigger] s[y] == t[x] by {
            if x != i {
                assert(s[x] == t[x]);
            }
        }
    } else {
        let j = choose|j: int| #![auto] is_insert_add_at(s, k, v, t, j);
        s.insert_ensures(j, (k, v));
        assert(t[j] == (k, v));
        assert forall|x: int|
            0 <= x < t.len() implies #[trigger] t[x] == (k, v) || exists|y: int|
            0 <= y < s.len() && #[trigger] s[y] == t[x] by {
            if x < j {
                assert(s[x] == t[x]);
            } else if x > j {
                assert(t[(x - 1) + 1] == s[x - 1]);
                assert(s[x - 1] == t[x]);
            }
        }
    }
}

impl<K: TotalOrder, V, M: Metadata<K, V>, const DEDUP: bool> Node<K, V, M, DEDUP> {
    // -----------------------------------------------------------------------
    // The abstract view: the in-order sequence of (key, value) entries.
    // -----------------------------------------------------------------------

    /// The in-order entries of an optional subtree.
    pub closed spec fn seq_of(node: BoxedNode<K, V, M, DEDUP>) -> Seq<(K, V)>
        decreases node,
    {
        match node {
            None => Seq::empty(),
            Some(n) => n.as_seq(),
        }
    }

    /// The in-order entries of the subtree rooted at this node.
    pub closed spec fn as_seq(self) -> Seq<(K, V)>
        decreases self,
    {
        Self::seq_of(self.left) + seq![(self.key, self.value)] + Self::seq_of(self.right)
    }

    /// The in-order entries of an optional subtree reference.
    pub open spec fn seq_of_ref(node: Option<&Node<K, V, M, DEDUP>>) -> Seq<(K, V)> {
        match node {
            None => Seq::empty(),
            Some(n) => n.as_seq(),
        }
    }

    // -----------------------------------------------------------------------
    // Specification-level accessors.
    // -----------------------------------------------------------------------

    pub closed spec fn key_spec(self) -> K {
        self.key
    }

    pub closed spec fn value_spec(self) -> V {
        self.value
    }

    pub closed spec fn prio_spec(self) -> i64 {
        self.prio
    }

    pub closed spec fn metadata_spec(self) -> M {
        self.metadata
    }

    /// The (key, value) entry held by this node itself.
    pub open spec fn entry(self) -> (K, V) {
        (self.key_spec(), self.value_spec())
    }

    pub closed spec fn left_subtree(self) -> BoxedNode<K, V, M, DEDUP> {
        self.left
    }

    pub closed spec fn right_subtree(self) -> BoxedNode<K, V, M, DEDUP> {
        self.right
    }

    pub open spec fn is_leaf(self) -> bool {
        self.left_subtree() is None && self.right_subtree() is None
    }

    /// The aggregates carried by the roots of an optional subtree.
    pub closed spec fn meta_of(node: BoxedNode<K, V, M, DEDUP>) -> Option<M> {
        match node {
            None => None,
            Some(n) => Some(n.metadata),
        }
    }

    /// How the in-order sequence of a node decomposes around its own entry.
    pub proof fn lemma_as_seq_decomposition(self)
        ensures
            self.as_seq() == Self::seq_of(self.left_subtree()) + seq![self.entry()]
                + Self::seq_of(self.right_subtree()),
    {
    }

    // -----------------------------------------------------------------------
    // Well-formedness: BST order, heap order on priorities, and aggregate
    // consistency, at every node.
    // -----------------------------------------------------------------------

    /// Well-formedness of an optional subtree.
    pub closed spec fn wf_opt(node: BoxedNode<K, V, M, DEDUP>) -> bool
        decreases node,
    {
        match node {
            None => true,
            Some(n) => n.well_formed(),
        }
    }

    /// The three invariants of the data model, holding recursively:
    /// - *BST order*: the keys of the left subtree order (strictly, under the
    ///   collapsing policy) before this node's key, which orders (strictly,
    ///   under the collapsing policy) before the keys of the right subtree;
    /// - *heap order*: each present child's priority is at most this node's;
    /// - *aggregate consistency*: the stored metadata equals the strategy
    ///   evaluated on this node's key and value and its children's current
    ///   aggregates.
    pub closed spec fn well_formed(self) -> bool
        decreases self,
    {
        &&& (if DEDUP {
            keys_lt_key(Self::seq_of(self.left), self.key) && key_lt_keys(
                self.key,
                Self::seq_of(self.right),
            )
        } else {
            keys_le_key(Self::seq_of(self.left), self.key) && key_le_keys(
                self.key,
                Self::seq_of(self.right),
            )
        })
        &&& (match self.left {
            Some(l) => l.prio <= self.prio && l.well_formed(),
            None => true,
        })
        &&& (match self.right {
            Some(r) => r.prio <= self.prio && r.well_formed(),
            None => true,
        })
        &&& self.metadata == M::update_spec(
            self.key,
            self.value,
            Self::meta_of(self.left),
            Self::meta_of(self.right),
        )
    }

    /// Well-formedness of an optional subtree reference.
    pub open spec fn wf_ref(node: Option<&Node<K, V, M, DEDUP>>) -> bool {
        match node {
            None => true,
            Some(n) => n.well_formed(),
        }
    }

    /// Every priority in the subtree is at most `p`.
    pub closed spec fn prios_bounded(node: BoxedNode<K, V, M, DEDUP>, p: i64) -> bool
        decreases node,
    {
        match node {
            None => true,
            Some(n) => n.prio <= p && Self::prios_bounded(n.left, p) && Self::prios_bounded(
                n.right,
                p,
            ),
        }
    }

    /// Structural height, used as a termination measure for traversal.
    pub closed spec fn height_of(node: BoxedNode<K, V, M, DEDUP>) -> nat
        decreases node,
    {
        match node {
            None => 0,
            Some(n) => n.height(),
        }
    }

    pub closed spec fn height(self) -> nat
        decreases self,
    {
        1 + (if Self::height_of(self.left) >= Self::height_of(self.right) {
            Self::height_of(self.left)
        } else {
            Self::height_of(self.right)
        })
    }

    // -----------------------------------------------------------------------
    // Executable accessors.
    // -----------------------------------------------------------------------

    pub fn key(&self) -> (k: &K)
        ensures
            *k == self.key_spec(),
    {
        &self.key
    }

    pub fn value(&self) -> (v: &V)
        ensures
            *v == self.value_spec(),
    {
        &self.value
    }

    /// A mutable handle on this node's value alone.  Writing through it
    /// leaves key, priority, children and stored metadata as they are, so
    /// an aggregate that depends on values goes stale until recomputed.
    pub fn value_mut(&mut self) -> (v: &mut V)
        ensures
            *v == old(self).value_spec(),
            final(self).key_spec() == old(self).key_spec(),
            final(self).value_spec() == *final(v),
            final(self).prio_spec() == old(self).prio_spec(),
            final(self).metadata_spec() == old(self).metadata_spec(),
            final(self).left_subtree() == old(self).left_subtree(),
            final(self).right_subtree() == old(self).right_subtree(),
    {
        &mut self.value
    }

    pub fn metadata(&self) -> (m: &M)
        ensures
            *m == self.metadata_spec(),
    {
        &self.metadata
    }

    pub fn left(&self) -> (l: Option<&Node<K, V, M, DEDUP>>)
        ensures
            match l {
                None => self.left_subtree() is None,
                Some(n) => self.left_subtree() matches Some(b) && *n == *b,
            },
    {
        match &self.left {
            Some(b) => Some(&**b),
            None => None,
        }
    }

    pub fn right(&self) -> (r: Option<&Node<K, V, M, DEDUP>>)
        ensures
            match r {
                None => self.right_subtree() is None,
                Some(n) => self.right_subtree() matches Some(b) && *n == *b,
            },
    {
        match &self.right {
            Some(b) => Some(&**b),
            None => None,
        }
    }

    // -----------------------------------------------------------------------
    // Construction.
    // -----------------------------------------------------------------------

    /// A fresh leaf holding `(key, value)`, with a freshly drawn random
    /// priority and a consistent aggregate.  Nothing is promised of the
    /// priority: every contract of this library holds whatever was drawn.
    pub fn new(key: K, value: V) -> (n: Self)
        ensures
            n.well_formed(),
            n.is_leaf(),
            n.entry() == (key, value),
            n.as_seq() == seq![(key, value)],
    {
        let metadata = M::update(&key, &value, None, None);
        let n = Node { metadata, key, value, prio: random_priority(), left: None, right: None };
        proof {
            assert(n.as_seq() =~= seq![(key, value)]);
        }
        n
    }

    /// A fresh singleton subtree holding `(key, value)`.
    pub fn new_boxed(key: K, value: V) -> (n: BoxedNode<K, V, M, DEDUP>)
        ensures
            Self::wf_opt(n),
            Self::seq_of(n) == seq![(key, value)],
            n matches Some(b) && b.is_leaf() && b.entry() == (key, value),
    {
        Some(Box::new(Node::new(key, value)))
    }

    /// Recompute this node's aggregate from its current children.
    fn update_metadata(&mut self)
        ensures
            final(self).key == old(self).key,
            final(self).value == old(self).value,
            final(self).prio == old(self).prio,
            final(self).left == old(self).left,
            final(self).right == old(self).right,
            final(self).metadata == M::update_spec(
                old(self).key,
                old(self).value,
                Self::meta_of(old(self).left),
                Self::meta_of(old(self).right),
            ),
    {
        let m = {
            let lm = match &self.left {
                Some(b) => Some(&b.metadata),
                None => None,
            };
            let rm = match &self.right {
                Some(b) => Some(&b.metadata),
                None => None,
            };
            M::update(&self.key, &self.value, lm, rm)
        };
        self.metadata = m;
    }
}

impl<K: TotalOrder, V, M: Metadata<K, V>, const DEDUP: bool> Node<K, V, M, DEDUP> {
    // -----------------------------------------------------------------------
    // Helper lemmas.
    // -----------------------------------------------------------------------

    /// In a well-formed subtree whose root's priority is at most `p`, every
    /// priority is at most `p` (heap order propagates down).
    pub proof fn lemma_wf_prios_bounded(node: BoxedNode<K, V, M, DEDUP>, p: i64)
        requires
            Self::wf_opt(node),
            node matches Some(n) ==> n.prio_spec() <= p,
        ensures
            Self::prios_bounded(node, p),
        decreases node,
    {
        if let Some(n) = node {
            Self::lemma_wf_prios_bounded(n.left, p);
            Self::lemma_wf_prios_bounded(n.right, p);
        }
    }

    /// The root entry of a well-formed node sits in its in-order sequence
    /// right after the left subtree's entries.
    pub proof fn lemma_root_entry_index(self)
        ensures
            0 <= Self::seq_of(self.left_subtree()).len() < self.as_seq().len(),
            self.as_seq()[Self::seq_of(self.left_subtree()).len() as int] == self.entry(),
            self.as_seq().len() == Self::seq_of(self.left_subtree()).len() + 1 + Self::seq_of(
                self.right_subtree(),
            ).len(),
    {
    }

    // -----------------------------------------------------------------------
    // Merge.
    // -----------------------------------------------------------------------

    /// The precondition of `merge`: every key of `a` orders at or before
    /// (strictly before, under the collapsing policy) every key of `b`.
    pub open spec fn merge_ordered(a: Seq<(K, V)>, b: Seq<(K, V)>) -> bool {
        forall|i: int, j: int|
            0 <= i < a.len() && 0 <= j < b.len() ==> ((#[trigger] a[i]).0.le((#[trigger] b[j]).0)
                && (DEDUP ==> a[i].0 != b[j].0))
    }

    /// Classic randomized merge of two trees, every key of the left one
    /// preceding every key of the right one: the higher-priority root wins,
    /// and its child facing the other tree is recursively merged with it.
    /// The result's in-order sequence is the concatenation of the inputs'.
    pub fn merge(left: BoxedNode<K, V, M, DEDUP>, right: BoxedNode<K, V, M, DEDUP>) -> (m:
        BoxedNode<K, V, M, DEDUP>)
        requires
            Self::wf_opt(left),
            Self::wf_opt(right),
            Self::merge_ordered(Self::seq_of(left), Self::seq_of(right)),
        ensures
            Self::wf_opt(m),
            Self::seq_of(m) == Self::seq_of(left) + Self::seq_of(right),
            forall|p: i64|
                Self::prios_bounded(left, p) && Self::prios_bounded(right, p)
                    ==> #[trigger] Self::prios_bounded(m, p),
        decreases left, right,
    {
        match (left, right) {
            (None, r) => {
                proof {
                    assert(Self::seq_of(None) + Self::seq_of(r) =~= Self::seq_of(r));
                }
                r
            },
            (l, None) => {
                proof {
                    assert(Self::seq_of(l) + Self::seq_of(None) =~= Self::seq_of(l));
                }
                l
            },
            (Some(mut l), Some(r)) => {
                let ghost l0 = *l;
                let ghost r0 = *r;
                let ghost ls = Self::seq_of(Some(Box::new(l0)));
                let ghost rs = Self::seq_of(Some(Box::new(r0)));
                if l.prio > r.prio {
                    let lr = l.right.take();
                    proof {
                        l0.lemma_root_entry_index();
                        // The recursive arguments keep the ordering precondition.
                        assert forall|i: int, j: int|
                            0 <= i < Self::seq_of(lr).len() && 0 <= j < rs.len() implies (
                        #[trigger] Self::seq_of(lr)[i]).0.le((#[trigger] rs[j]).0) && (DEDUP
                            ==> Self::seq_of(lr)[i].0 != rs[j].0) by {
                            let li = Self::seq_of(l0.left_subtree()).len() + 1 + i;
                            assert(ls[li] == Self::seq_of(lr)[i]);
                        }
                    }
                    let merged = Self::merge(lr, Some(r));
                    l.right = merged;
                    (&mut *l).update_metadata();
                    proof {
                        // Heap order at the new root.
                        Self::lemma_wf_prios_bounded(l0.right_subtree(), l0.prio_spec());
                        Self::lemma_wf_prios_bounded(Some(Box::new(r0)), l0.prio_spec());
                        assert(Self::prios_bounded(l.right, l0.prio_spec()));
                        // BST order at the new root: the merged right-hand
                        // side is the old right subtree followed by `right`,
                        // and every key there orders after the root key.
                        l0.lemma_root_entry_index();
                        let ks = Self::seq_of(l0.right_subtree()) + rs;
                        let rootidx = Self::seq_of(l0.left_subtree()).len() as int;
                        assert forall|j: int| 0 <= j < ks.len() implies l0.key_spec().le(
                            (#[trigger] ks[j]).0,
                        ) && (DEDUP ==> l0.key_spec() != ks[j].0) by {
                            if j < Self::seq_of(l0.right_subtree()).len() {
                                assert(ks[j] == Self::seq_of(l0.right_subtree())[j]);
                            } else {
                                let bj = j - Self::seq_of(l0.right_subtree()).len();
                                assert(ks[j] == rs[bj]);
                                assert(ls[rootidx].0.le(rs[bj].0) && (DEDUP ==> ls[rootidx].0
                                    != rs[bj].0));
                            }
                        }
                        assert(l.as_seq() =~= ls + rs);
                        assert forall|p: i64|
                            Self::prios_bounded(Some(Box::new(l0)), p) && Self::prios_bounded(
                                Some(Box::new(r0)),
                                p,
                            ) implies #[trigger] Self::prios_bounded(Some(l), p) by {
                            assert(Self::prios_bounded(l0.right_subtree(), p));
                            assert(Self::prios_bounded(l.right, p));
                        }
                    }
                    Some(l)
                } else {
                    let mut r = r;
                    let rl = r.left.take();
                    proof {
                        r0.lemma_root_entry_index();
                        assert forall|i: int, j: int|
                            0 <= i < ls.len() && 0 <= j < Self::seq_of(rl).len() implies (
                        #[trigger] ls[i]).0.le((#[trigger] Self::seq_of(rl)[j]).0) && (DEDUP
                            ==> ls[i].0 != Self::seq_of(rl)[j].0) by {
                            assert(rs[j] == Self::seq_of(rl)[j]);
                        }
                    }
                    let merged = Self::merge(Some(l), rl);
                    r.left = merged;
                    (&mut *r).update_metadata();
                    proof {
                        Self::lemma_wf_prios_bounded(r0.left_subtree(), r0.prio_spec());
                        Self::lemma_wf_prios_bounded(Some(Box::new(l0)), r0.prio_spec());
                        assert(Self::prios_bounded(r.left, r0.prio_spec()));
                        r0.lemma_root_entry_index();
                        let ks = ls + Self::seq_of(r0.left_subtree());
                        let rootidx = Self::seq_of(r0.left_subtree()).len() as int;
                        assert forall|j: int| 0 <= j < ks.len() implies (#[trigger] ks[j]).0.le(
                            r0.key_spec(),
                        ) && (DEDUP ==> ks[j].0 != r0.key_spec()) by {
                            if j < ls.len() {
                                assert(ks[j] == ls[j]);
                                assert(ls[j].0.le(rs[rootidx].0) && (DEDUP ==> ls[j].0
                                    != rs[rootidx].0));
                            } else {
                                let bj = j - ls.len();
                                assert(ks[j] == Self::seq_of(r0.left_subtree())[bj]);
                            }
                        }
                        assert(r.as_seq() =~= ls + rs);
                        assert forall|p: i64|
                            Self::prios_bounded(Some(Box::new(l0)), p) && Self::prios_bounded(
                                Some(Box::new(r0)),
                                p,
                            ) implies #[trigger] Self::prios_bounded(Some(r), p) by {
                            assert(Self::prios_bounded(r0.left_subtree(), p));
                            assert(Self::prios_bounded(r.left, p));
                        }
                    }
                    Some(r)
                }
            },
        }
    }
}

impl<K: TotalOrder, V, M: Metadata<K, V>, const DEDUP: bool> Node<K, V, M, DEDUP> {
    // -----------------------------------------------------------------------
    // Splits.
    // -----------------------------------------------------------------------

    /// Split into the entries whose keys order at or before `key` and those
    /// whose keys order strictly after it, in the original order.
    pub fn split_before(node: BoxedNode<K, V, M, DEDUP>, key: &K) -> (r: (
        BoxedNode<K, V, M, DEDUP>,
        BoxedNode<K, V, M, DEDUP>,
    ))
        requires
            Self::wf_opt(node),
        ensures
            Self::wf_opt(r.0),
            Self::wf_opt(r.1),
            Self::seq_of(r.0) + Self::seq_of(r.1) == Self::seq_of(node),
            keys_le_key(Self::seq_of(r.0), *key),
            key_lt_keys(*key, Self::seq_of(r.1)),
            forall|p: i64|
                #[trigger] Self::prios_bounded(node, p) ==> Self::prios_bounded(r.0, p)
                    && Self::prios_bounded(r.1, p),
        decreases node,
    {
        match node {
            None => {
                proof {
                    assert(Self::seq_of(None) + Self::seq_of(None) =~= Self::seq_of(
                        None::<Box<Node<K, V, M, DEDUP>>>,
                    ));
                }
                (None, None)
            },
            Some(mut n) => {
                let ghost n0 = *n;
                let ghost s = n0.as_seq();
                let ghost ls = Self::seq_of(n0.left_subtree());
                let ghost rs = Self::seq_of(n0.right_subtree());
                proof {
                    n0.lemma_root_entry_index();
                }
                let c = key.compare(&n.key);
                if matches!(c, Cmp::Less) {
                    // The split point falls before this node: the node and
                    // its right subtree go to the second part.
                    let (a, b) = Self::split_before(n.left.take(), key);
                    n.left = b;
                    (&mut *n).update_metadata();
                    proof {
                        let bs = Self::seq_of(n.left);
                        // b is the suffix of the old left sequence.
                        assert forall|i: int| 0 <= i < bs.len() implies #[trigger] bs[i] == ls[
                            Self::seq_of(a).len() + i
                        ] by {
                            assert((Self::seq_of(a) + bs)[Self::seq_of(a).len() + i] == bs[i]);
                        }
                        // Keys strictly after `key` in the second part.
                        assert forall|i: int|
                            0 <= i < (bs + seq![n0.entry()] + rs).len() implies spec_lt(
                            *key,
                            (#[trigger] (bs + seq![n0.entry()] + rs)[i]).0,
                        ) by {
                            let t = bs + seq![n0.entry()] + rs;
                            if i < bs.len() {
                                assert(t[i] == bs[i]);
                            } else if i == bs.len() {
                                assert(t[i] == n0.entry());
                            } else {
                                let j = i - bs.len() - 1;
                                assert(t[i] == rs[j]);
                                crate::total_order::lemma_lt_le_lt(*key, n0.key_spec(), rs[j].0);
                            }
                        }
                        // Heap order at this node with its new left child.
                        Self::lemma_wf_prios_bounded(Some(Box::new(n0)), n0.prio_spec());
                        assert(Self::prios_bounded(n0.left_subtree(), n0.prio_spec()));
                        assert(Self::prios_bounded(n.left, n0.prio_spec()));
                        assert(n.as_seq() =~= bs + seq![n0.entry()] + rs);
                        assert(Self::seq_of(a) + n.as_seq() =~= s);
                        assert forall|p: i64| #[trigger]
                            Self::prios_bounded(Some(Box::new(n0)), p) implies Self::prios_bounded(
                            a,
                            p,
                        ) && Self::prios_bounded(Some(n), p) by {
                            assert(Self::prios_bounded(n0.left_subtree(), p));
                            assert(Self::prios_bounded(a, p));
                            assert(Self::prios_bounded(n.left, p));
                        }
                    }
                    (a, Some(n))
                } else {
                    // This node's key orders at or before `key`: the node and
                    // its left subtree go to the first part.
                    proof {
                        if matches!(c, Cmp::Equal) {
                            K::lemma_reflexive(*key);
                        }
                    }
                    let (a, b) = Self::split_before(n.right.take(), key);
                    n.right = a;
                    (&mut *n).update_metadata();
                    proof {
                        let as_ = Self::seq_of(n.right);
                        // a is the prefix of the old right sequence.
                        assert forall|i: int| 0 <= i < as_.len() implies #[trigger] as_[i]
                            == rs[i] by {
                            assert((as_ + Self::seq_of(b))[i] == as_[i]);
                        }
                        // Keys at or before `key` in the first part.
                        assert forall|i: int|
                            0 <= i < (ls + seq![n0.entry()] + as_).len() implies (#[trigger] (ls
                            + seq![n0.entry()] + as_)[i]).0.le(*key) by {
                            let t = ls + seq![n0.entry()] + as_;
                            if i < ls.len() {
                                assert(t[i] == ls[i]);
                                K::lemma_transitive(ls[i].0, n0.key_spec(), *key);
                            } else if i == ls.len() {
                                assert(t[i] == n0.entry());
                            } else {
                                let j = i - ls.len() - 1;
                                assert(t[i] == as_[j]);
                            }
                        }
                        Self::lemma_wf_prios_bounded(Some(Box::new(n0)), n0.prio_spec());
                        assert(Self::prios_bounded(n0.right_subtree(), n0.prio_spec()));
                        assert(Self::prios_bounded(n.right, n0.prio_spec()));
                        assert(n.as_seq() =~= ls + seq![n0.entry()] + as_);
                        assert(n.as_seq() + Self::seq_of(b) =~= s);
                        assert forall|p: i64| #[trigger]
                            Self::prios_bounded(Some(Box::new(n0)), p) implies Self::prios_bounded(
                            Some(n),
                            p,
                        ) && Self::prios_bounded(b, p) by {
                            assert(Self::prios_bounded(n0.right_subtree(), p));
                            assert(Self::prios_bounded(b, p));
                            assert(Self::prios_bounded(n.right, p));
                        }
                    }
                    (Some(n), b)
                }
            },
        }
    }
}

impl<K: TotalOrder, V, M: Metadata<K, V>, const DEDUP: bool> Node<K, V, M, DEDUP> {
    /// Three-way split used for key-based removal.  Under the collapsing
    /// policy a node matching `key` is excised: its children become the
    /// boundary and the node is dropped.  Under the additive policy a match
    /// keeps descending left, so no excision ever happens and the result is
    /// a plain partition into keys strictly before `key` and the rest.
    #[verifier::rlimit(60)]
    pub fn split_remove_generic(node: BoxedNode<K, V, M, DEDUP>, key: &K) -> (r: (
        BoxedNode<K, V, M, DEDUP>,
        BoxedNode<K, V, M, DEDUP>,
    ))
        requires
            Self::wf_opt(node),
        ensures
            Self::wf_opt(r.0),
            Self::wf_opt(r.1),
            keys_lt_key(Self::seq_of(r.0), *key),
            DEDUP && has_key(Self::seq_of(node), *key) ==> key_lt_keys(*key, Self::seq_of(r.1))
                && (exists|v: V| #![auto]
                Self::seq_of(node) == Self::seq_of(r.0) + seq![(*key, v)] + Self::seq_of(r.1)),
            !(DEDUP && has_key(Self::seq_of(node), *key)) ==> Self::seq_of(node) == Self::seq_of(
                r.0,
            ) + Self::seq_of(r.1) && (if DEDUP {
                key_lt_keys(*key, Self::seq_of(r.1))
            } else {
                key_le_keys(*key, Self::seq_of(r.1))
            }),
            forall|p: i64|
                #[trigger] Self::prios_bounded(node, p) ==> Self::prios_bounded(r.0, p)
                    && Self::prios_bounded(r.1, p),
        decreases node,
    {
        match node {
            None => {
                proof {
                    assert(Self::seq_of(None) + Self::seq_of(None) =~= Self::seq_of(
                        None::<Box<Node<K, V, M, DEDUP>>>,
                    ));
                }
                (None, None)
            },
            Some(mut n) => {
                let ghost n0 = *n;
                let ghost s = n0.as_seq();
                let ghost ls = Self::seq_of(n0.left_subtree());
                let ghost rs = Self::seq_of(n0.right_subtree());
                proof {
                    n0.lemma_root_entry_index();
                }
                let c = key.compare(&n.key);
                if DEDUP && matches!(c, Cmp::Equal) {
                    // Excise the matched node: its children are the boundary.
                    let l = n.left.take();
                    let r = n.right.take();
                    proof {
                        assert(s[ls.len() as int].0 == *key);
                        assert(s =~= ls + seq![(*key, n0.value_spec())] + rs);
                    }
                    (l, r)
                } else if matches!(c, Cmp::Greater) {
                    // Descend right; this node and its left subtree belong
                    // strictly before `key`.
                    let (a, b) = Self::split_remove_generic(n.right.take(), key);
                    n.right = a;
                    (&mut *n).update_metadata();
                    proof {
                        let as_ = Self::seq_of(n.right);
                        // a is a prefix of the old right sequence.
                        assert forall|i: int| 0 <= i < as_.len() implies #[trigger] as_[i]
                            == rs[i] by {
                            if DEDUP && has_key(rs, *key) {
                                let vv = choose|v: V|
                                    rs == as_ + seq![(*key, v)] + Self::seq_of(b);
                                assert((as_ + seq![(*key, vv)] + Self::seq_of(b))[i] == as_[i]);
                            } else {
                                assert((as_ + Self::seq_of(b))[i] == as_[i]);
                            }
                        }
                        // The first part's keys order strictly before `key`.
                        let t = ls + seq![n0.entry()] + as_;
                        assert forall|i: int| 0 <= i < t.len() implies spec_lt(
                            (#[trigger] t[i]).0,
                            *key,
                        ) by {
                            if i < ls.len() {
                                assert(t[i] == ls[i]);
                                crate::total_order::lemma_le_lt_lt(
                                    ls[i].0,
                                    n0.key_spec(),
                                    *key,
                                );
                            } else if i == ls.len() {
                                assert(t[i] == n0.entry());
                            } else {
                                assert(t[i] == as_[i - ls.len() - 1]);
                            }
                        }
                        // Whether `key` occurs at all is decided in the old
                        // right subtree.
                        if has_key(s, *key) && !has_key(rs, *key) {
                            let wi = choose|i: int|
                                0 <= i < s.len() && (#[trigger] s[i]).0 == *key;
                            if wi < ls.len() {
                                assert(s[wi] == ls[wi]);
                                crate::total_order::lemma_le_lt_lt(ls[wi].0, n0.key_spec(), *key);
                            } else if wi == ls.len() {
                                assert(s[wi] == n0.entry());
                            } else {
                                assert(s[wi] == rs[wi - ls.len() - 1]);
                            }
                            assert(false);
                        }
                        if has_key(rs, *key) {
                            let wj = choose|j: int|
                                0 <= j < rs.len() && (#[trigger] rs[j]).0 == *key;
                            assert(s[ls.len() + 1 + wj] == rs[wj]);
                        }
                        Self::lemma_wf_prios_bounded(Some(Box::new(n0)), n0.prio_spec());
                        assert(Self::prios_bounded(n0.right_subtree(), n0.prio_spec()));
                        assert(Self::prios_bounded(n.right, n0.prio_spec()));
                        assert(n.as_seq() =~= t);
                        if DEDUP && has_key(rs, *key) {
                            let vv = choose|v: V| rs == as_ + seq![(*key, v)] + Self::seq_of(b);
                            assert(s =~= n.as_seq() + seq![(*key, vv)] + Self::seq_of(b));
                        } else {
                            assert(s =~= n.as_seq() + Self::seq_of(b));
                        }
                        assert forall|p: i64| #[trigger]
                            Self::prios_bounded(Some(Box::new(n0)), p) implies Self::prios_bounded(
                            Some(n),
                            p,
                        ) && Self::prios_bounded(b, p) by {
                            assert(Self::prios_bounded(n0.right_subtree(), p));
                            assert(Self::prios_bounded(b, p));
                            assert(Self::prios_bounded(n.right, p));
                        }
                    }
                    (Some(n), b)
                } else {
                    // Descend left: a strict match under the additive policy
                    // also lands here and keeps descending.
                    let (a, b) = Self::split_remove_generic(n.left.take(), key);
                    n.left = b;
                    (&mut *n).update_metadata();
                    proof {
                        let bs = Self::seq_of(n.left);
                        let al = Self::seq_of(a).len() as int;
                        // b is a suffix of the old left sequence.
                        assert forall|i: int| 0 <= i < bs.len() implies #[trigger] bs[i] == ls[
                            ls.len() - bs.len() + i
                        ] by {
                            if DEDUP && has_key(ls, *key) {
                                let vv = choose|v: V|
                                    ls == Self::seq_of(a) + seq![(*key, v)] + bs;
                                assert((Self::seq_of(a) + seq![(*key, vv)] + bs)[al + 1 + i]
                                    == bs[i]);
                            } else {
                                assert((Self::seq_of(a) + bs)[al + i] == bs[i]);
                            }
                        }
                        // The second part's keys order at or after `key`,
                        // strictly so under the collapsing policy.
                        let t = bs + seq![n0.entry()] + rs;
                        if DEDUP {
                            assert forall|i: int| 0 <= i < t.len() implies spec_lt(
                                *key,
                                (#[trigger] t[i]).0,
                            ) by {
                                if i < bs.len() {
                                    assert(t[i] == bs[i]);
                                } else if i == bs.len() {
                                    assert(t[i] == n0.entry());
                                } else {
                                    assert(t[i] == rs[i - bs.len() - 1]);
                                    crate::total_order::lemma_lt_le_lt(
                                        *key,
                                        n0.key_spec(),
                                        rs[i - bs.len() - 1].0,
                                    );
                                }
                            }
                        } else {
                            assert forall|i: int| 0 <= i < t.len() implies (*key).le(
                                (#[trigger] t[i]).0,
                            ) by {
                                K::lemma_reflexive(*key);
                                if i < bs.len() {
                                    assert(t[i] == bs[i]);
                                } else if i == bs.len() {
                                    assert(t[i] == n0.entry());
                                } else {
                                    assert(t[i] == rs[i - bs.len() - 1]);
                                    K::lemma_transitive(
                                        *key,
                                        n0.key_spec(),
                                        rs[i - bs.len() - 1].0,
                                    );
                                }
                            }
                        }
                        // Under the collapsing policy the match was excised
                        // above, so `key` can only occur in the old left
                        // subtree here.
                        if DEDUP && has_key(s, *key) && !has_key(ls, *key) {
                            let wi = choose|i: int|
                                0 <= i < s.len() && (#[trigger] s[i]).0 == *key;
                            if wi < ls.len() {
                                assert(s[wi] == ls[wi]);
                            } else if wi == ls.len() {
                                assert(s[wi] == n0.entry());
                            } else {
                                assert(s[wi] == rs[wi - ls.len() - 1]);
                                crate::total_order::lemma_lt_le_lt(
                                    *key,
                                    n0.key_spec(),
                                    rs[wi - ls.len() - 1].0,
                                );
                            }
                            assert(false);
                        }
                        if has_key(ls, *key) {
                            let wj = choose|j: int|
                                0 <= j < ls.len() && (#[trigger] ls[j]).0 == *key;
                            assert(s[wj] == ls[wj]);
                        }
                        Self::lemma_wf_prios_bounded(Some(Box::new(n0)), n0.prio_spec());
                        assert(Self::prios_bounded(n0.left_subtree(), n0.prio_spec()));
                        assert(Self::prios_bounded(n.left, n0.prio_spec()));
                        assert(n.as_seq() =~= t);
                        if DEDUP && has_key(ls, *key) {
                            let vv = choose|v: V| ls == Self::seq_of(a) + seq![(*key, v)] + bs;
                            assert(s =~= Self::seq_of(a) + seq![(*key, vv)] + n.as_seq());
                        } else {
                            assert(s =~= Self::seq_of(a) + n.as_seq());
                        }
                        assert forall|p: i64| #[trigger]
                            Self::prios_bounded(Some(Box::new(n0)), p) implies Self::prios_bounded(
                            a,
                            p,
                        ) && Self::prios_bounded(Some(n), p) by {
                            assert(Self::prios_bounded(n0.left_subtree(), p));
                            assert(Self::prios_bounded(a, p));
                            assert(Self::prios_bounded(n.left, p));
                        }
                    }
                    (a, Some(n))
                }
            },
        }
    }
}

impl<K: TotalOrder, V, M: Metadata<K, V>, const DEDUP: bool> Node<K, V, M, DEDUP> {
    /// Lift the insertion model through a node when the insertion went into
    /// its left subtree: the node's own entry and right subtree follow the
    /// transformed left sequence unchanged.
    proof fn lemma_insert_lift_left(n0: Self, k: K, v: V, tl: Seq<(K, V)>)
        requires
            n0.well_formed(),
            insert_model(Self::seq_of(n0.left_subtree()), k, v, tl, DEDUP),
            k.le(n0.key_spec()),
            DEDUP ==> k != n0.key_spec(),
        ensures
            insert_model(
                n0.as_seq(),
                k,
                v,
                tl + seq![n0.entry()] + Self::seq_of(n0.right_subtree()),
                DEDUP,
            ),
            forall|x: int|
                0 <= x < tl.len() ==> (#[trigger] tl[x]).0.le(n0.key_spec()) && (DEDUP ==> tl[x].0
                    != n0.key_spec()),
    {
        let ls = Self::seq_of(n0.left_subtree());
        let rs = Self::seq_of(n0.right_subtree());
        let s = n0.as_seq();
        let e = n0.entry();
        n0.lemma_root_entry_index();
        lemma_insert_model_entries(ls, k, v, tl, DEDUP);
        if DEDUP && has_key(ls, k) {
            let i = choose|i: int| #![auto]
                0 <= i < ls.len() && ls[i].0 == k && tl == ls.update(i, (k, v));
            assert(s[i] == ls[i]);
            assert forall|x: int|
                0 <= x < s.len() implies (tl + seq![e] + rs)[x] == s.update(i, (k, v))[x] by {
                if x < ls.len() {
                    assert((tl + seq![e] + rs)[x] == tl[x]);
                    assert(x != i ==> s[x] == ls[x] && tl[x] == ls[x]);
                } else {
                    assert(s.update(i, (k, v))[x] == s[x]);
                }
            }
            assert(tl + seq![e] + rs =~= s.update(i, (k, v)));
        } else {
            let j = choose|j: int| #![auto] is_insert_add_at(ls, k, v, tl, j);
            ls.insert_ensures(j, (k, v));
            s.insert_ensures(j, (k, v));
            assert forall|x: int|
                0 <= x < s.len() + 1 implies (tl + seq![e] + rs)[x] == s.insert(j, (k, v))[x] by {
                if x < j {
                    assert((tl + seq![e] + rs)[x] == tl[x]);
                    assert(tl[x] == ls[x]);
                    assert(s.insert(j, (k, v))[x] == s[x]);
                    assert(s[x] == ls[x]);
                } else if x == j {
                    assert((tl + seq![e] + rs)[x] == tl[x]);
                } else if x < ls.len() + 1 {
                    assert((tl + seq![e] + rs)[x] == tl[x]);
                    assert(tl[(x - 1) + 1] == ls[x - 1]);
                    assert(s.insert(j, (k, v))[(x - 1) + 1] == s[x - 1]);
                    assert(s[x - 1] == ls[x - 1]);
                } else {
                    assert(s.insert(j, (k, v))[(x - 1) + 1] == s[x - 1]);
                }
            }
            assert(tl + seq![e] + rs =~= s.insert(j, (k, v)));
            assert forall|x: int| 0 <= x < j implies spec_lt((#[trigger] s.take(j)[x]).0, k) by {
                assert(s.take(j)[x] == s[x]);
                assert(s[x] == ls[x]);
                assert(ls.take(j)[x] == ls[x]);
            }
            assert forall|x: int| 0 <= x < s.len() - j implies k.le(
                (#[trigger] s.skip(j)[x]).0,
            ) by {
                assert(s.skip(j)[x] == s[j + x]);
                if j + x < ls.len() {
                    assert(s[j + x] == ls[j + x]);
                    assert(ls.skip(j)[x] == ls[j + x]);
                } else if j + x == ls.len() {
                    assert(s[j + x] == e);
                } else {
                    assert(s[j + x] == rs[j + x - ls.len() - 1]);
                    K::lemma_transitive(k, n0.key_spec(), rs[j + x - ls.len() - 1].0);
                }
            }
            assert(is_insert_add_at(s, k, v, tl + seq![e] + rs, j));
            if DEDUP && has_key(s, k) {
                let wi = choose|i: int| 0 <= i < s.len() && (#[trigger] s[i]).0 == k;
                if wi < ls.len() {
                    assert(s[wi] == ls[wi]);
                } else if wi == ls.len() {
                    assert(s[wi] == e);
                } else {
                    assert(s[wi] == rs[wi - ls.len() - 1]);
                    crate::total_order::lemma_lt_le_lt(k, n0.key_spec(), rs[wi - ls.len() - 1].0);
                }
                assert(false);
            }
        }
        if has_key(ls, k) {
            let wj = choose|j: int| 0 <= j < ls.len() && (#[trigger] ls[j]).0 == k;
            assert(s[wj] == ls[wj]);
        }
        assert forall|x: int| 0 <= x < tl.len() implies (#[trigger] tl[x]).0.le(n0.key_spec()) && (
        DEDUP ==> tl[x].0 != n0.key_spec()) by {
            if tl[x] == (k, v) {
            } else {
                let y = choose|y: int| 0 <= y < ls.len() && #[trigger] ls[y] == tl[x];
            }
        }
    }

    /// Lift the insertion model through a node when the insertion went into
    /// its right subtree.
    proof fn lemma_insert_lift_right(n0: Self, k: K, v: V, tr: Seq<(K, V)>)
        requires
            n0.well_formed(),
            insert_model(Self::seq_of(n0.right_subtree()), k, v, tr, DEDUP),
            spec_lt(n0.key_spec(), k),
        ensures
            insert_model(
                n0.as_seq(),
                k,
                v,
                Self::seq_of(n0.left_subtree()) + seq![n0.entry()] + tr,
                DEDUP,
            ),
            forall|x: int|
                0 <= x < tr.len() ==> n0.key_spec().le((#[trigger] tr[x]).0) && (DEDUP
                    ==> n0.key_spec() != tr[x].0),
    {
        let ls = Self::seq_of(n0.left_subtree());
        let rs = Self::seq_of(n0.right_subtree());
        let s = n0.as_seq();
        let e = n0.entry();
        n0.lemma_root_entry_index();
        lemma_insert_model_entries(rs, k, v, tr, DEDUP);
        if DEDUP && has_key(rs, k) {
            let i = choose|i: int| #![auto]
                0 <= i < rs.len() && rs[i].0 == k && tr == rs.update(i, (k, v));
            assert(s[ls.len() + 1 + i] == rs[i]);
            assert forall|x: int|
                0 <= x < s.len() implies (ls + seq![e] + tr)[x] == s.update(
                ls.len() + 1 + i,
                (k, v),
            )[x] by {
                if x < ls.len() + 1 {
                } else {
                    assert((ls + seq![e] + tr)[x] == tr[x - ls.len() - 1]);
                    assert(s[x] == rs[x - ls.len() - 1]);
                }
            }
            assert(ls + seq![e] + tr =~= s.update(ls.len() + 1 + i, (k, v)));
        } else {
            let j = choose|j: int| #![auto] is_insert_add_at(rs, k, v, tr, j);
            rs.insert_ensures(j, (k, v));
            let jj = ls.len() + 1 + j;
            s.insert_ensures(jj, (k, v));
            assert forall|x: int|
                0 <= x < s.len() + 1 implies (ls + seq![e] + tr)[x] == s.insert(jj, (k, v))[x] by {
                if x < ls.len() + 1 {
                    assert(s.insert(jj, (k, v))[x] == s[x]);
                } else {
                    let y = x - ls.len() - 1;
                    assert((ls + seq![e] + tr)[x] == tr[y]);
                    if y < j {
                        assert(tr[y] == rs[y]);
                        assert(s.insert(jj, (k, v))[x] == s[x]);
                        assert(s[x] == rs[y]);
                    } else if y == j {
                        assert(tr[y] == (k, v));
                        assert(s.insert(jj, (k, v))[jj] == (k, v));
                    } else {
                        assert(tr[(y - 1) + 1] == rs[y - 1]);
                        assert(s.insert(jj, (k, v))[(x - 1) + 1] == s[x - 1]);
                        assert(s[x - 1] == rs[y - 1]);
                    }
                }
            }
            assert(ls + seq![e] + tr =~= s.insert(jj, (k, v)));
            assert forall|x: int| 0 <= x < jj implies spec_lt((#[trigger] s.take(jj)[x]).0, k) by {
                assert(s.take(jj)[x] == s[x]);
                if x < ls.len() {
                    assert(s[x] == ls[x]);
                    crate::total_order::lemma_le_lt_lt(ls[x].0, n0.key_spec(), k);
                } else if x == ls.len() {
                    assert(s[x] == e);
                } else {
                    assert(s[x] == rs[x - ls.len() - 1]);
                    assert(rs.take(j)[x - ls.len() - 1] == rs[x - ls.len() - 1]);
                }
            }
            assert forall|x: int| 0 <= x < s.len() - jj implies k.le(
                (#[trigger] s.skip(jj)[x]).0,
            ) by {
                assert(s.skip(jj)[x] == s[jj + x]);
                assert(s[jj + x] == rs[j + x]);
                assert(rs.skip(j)[x] == rs[j + x]);
            }
            assert(is_insert_add_at(s, k, v, ls + seq![e] + tr, jj));
            if DEDUP && has_key(s, k) {
                let wi = choose|i: int| 0 <= i < s.len() && (#[trigger] s[i]).0 == k;
                if wi < ls.len() {
                    assert(s[wi] == ls[wi]);
                    crate::total_order::lemma_le_lt_lt(ls[wi].0, n0.key_spec(), k);
                } else if wi == ls.len() {
                    assert(s[wi] == e);
                } else {
                    assert(s[wi] == rs[wi - ls.len() - 1]);
                }
                assert(false);
            }
        }
        if has_key(rs, k) {
            let wj = choose|j: int| 0 <= j < rs.len() && (#[trigger] rs[j]).0 == k;
            assert(s[ls.len() + 1 + wj] == rs[wj]);
        }
        assert forall|x: int| 0 <= x < tr.len() implies n0.key_spec().le((#[trigger] tr[x]).0) && (
        DEDUP ==> n0.key_spec() != tr[x].0) by {
            if tr[x] == (k, v) {
            } else {
                let y = choose|y: int| 0 <= y < rs.len() && #[trigger] rs[y] == tr[x];
            }
        }
    }

    /// Insert a freshly built leaf by key order.  On an equal key the
    /// collapsing policy replaces the matched node in place — the new node
    /// inherits its children and its priority, so shape and heap order are
    /// preserved and only the payload changes — while the additive policy
    /// keeps descending left, placing the new entry in front of its equals.
    /// After each recursive step the standard treap rotation restores heap
    /// order if the returned subtree's priority exceeds its new parent's.
    #[verifier::rlimit(60)]
    pub fn insert_generic(node: BoxedNode<K, V, M, DEDUP>, new_node: Box<Node<K, V, M, DEDUP>>) -> (r:
        Box<Node<K, V, M, DEDUP>>)
        requires
            Self::wf_opt(node),
            new_node.well_formed(),
            new_node.is_leaf(),
        ensures
            r.well_formed(),
            insert_model(
                Self::seq_of(node),
                new_node.key_spec(),
                new_node.value_spec(),
                r.as_seq(),
                DEDUP,
            ),
            forall|p: i64|
                #[trigger] Self::prios_bounded(node, p) && new_node.prio_spec() <= p
                    ==> Self::prios_bounded(Some(r), p),
            forall|p: i64|
                #[trigger] Self::prios_bounded(node, p) && r.prio_spec() > p
                    ==> Self::prios_bounded(r.left_subtree(), p) && Self::prios_bounded(
                    r.right_subtree(),
                    p,
                ),
        decreases node,
    {
        let ghost k = new_node.key_spec();
        let ghost v = new_node.value_spec();
        let ghost np = new_node.prio_spec();
        match node {
            None => {
                proof {
                    let s = Self::seq_of(None::<Box<Node<K, V, M, DEDUP>>>);
                    assert(new_node.as_seq() =~= seq![(k, v)]);
                    assert(s.insert(0, (k, v)) =~= seq![(k, v)]);
                    assert(s.take(0) =~= Seq::<(K, V)>::empty());
                    assert(s.skip(0) =~= Seq::<(K, V)>::empty());
                    assert(is_insert_add_at(s, k, v, new_node.as_seq(), 0));
                }
                new_node
            },
            Some(mut n) => {
                let ghost n0 = *n;
                let ghost s = n0.as_seq();
                let ghost ls = Self::seq_of(n0.left_subtree());
                let ghost rs = Self::seq_of(n0.right_subtree());
                let ghost e = n0.entry();
                proof {
                    n0.lemma_root_entry_index();
                }
                let c = new_node.key.compare(&n.key);
                if DEDUP && matches!(c, Cmp::Equal) {
                    let mut nn = new_node;
                    nn.left = n.left.take();
                    nn.right = n.right.take();
                    nn.prio = n.prio;
                    (&mut *nn).update_metadata();
                    proof {
                        assert(s[ls.len() as int].0 == k);
                        assert forall|x: int|
                            0 <= x < s.len() implies nn.as_seq()[x] == s.update(
                            ls.len() as int,
                            (k, v),
                        )[x] by {
                            if x < ls.len() {
                                assert(nn.as_seq()[x] == ls[x]);
                                assert(s[x] == ls[x]);
                            } else if x == ls.len() {
                                assert(nn.as_seq()[x] == (k, v));
                            } else {
                                assert(nn.as_seq()[x] == rs[x - ls.len() - 1]);
                                assert(s[x] == rs[x - ls.len() - 1]);
                            }
                        }
                        assert(nn.as_seq() =~= s.update(ls.len() as int, (k, v)));
                        assert forall|p: i64| #[trigger]
                            Self::prios_bounded(Some(Box::new(n0)), p) && np <= p
                            implies Self::prios_bounded(Some(nn), p) by {
                            assert(Self::prios_bounded(n0.left_subtree(), p));
                            assert(Self::prios_bounded(n0.right_subtree(), p));
                        }
                        assert(Self::wf_opt(nn.left_subtree()));
                        assert(Self::wf_opt(nn.right_subtree()));
                        assert(nn.well_formed());
                    }
                    nn
                } else if matches!(c, Cmp::Greater) {
                    let subtree = Self::insert_generic(n.right.take(), new_node);
                    let ghost tr = subtree.as_seq();
                    proof {
                        Self::lemma_insert_lift_right(n0, k, v, tr);
                    }
                    if subtree.prio > n.prio {
                        let mut subtree = subtree;
                        let ghost st0 = *subtree;
                        n.right = subtree.left.take();
                        (&mut *n).update_metadata();
                        proof {
                            let sl = Self::seq_of(st0.left_subtree());
                            st0.lemma_root_entry_index();
                            assert forall|x: int| 0 <= x < sl.len() implies #[trigger] sl[x]
                                == tr[x] by {
                                assert((sl + seq![st0.entry()] + Self::seq_of(
                                    st0.right_subtree(),
                                ))[x] == sl[x]);
                            }
                            Self::lemma_wf_prios_bounded(n0.right_subtree(), n0.prio_spec());
                            assert(Self::prios_bounded(st0.left_subtree(), n0.prio_spec()));
                        }
                        let ghost nf = *n;
                        subtree.left = Some(n);
                        (&mut *subtree).update_metadata();
                        proof {
                            let sl = Self::seq_of(st0.left_subtree());
                            let sr = Self::seq_of(st0.right_subtree());
                            assert(nf.as_seq() =~= ls + seq![e] + sl);
                            assert(subtree.as_seq() =~= ls + seq![e] + tr);
                            assert(tr[sl.len() as int] == st0.entry());
                            // Keys of the result's new left child order at or
                            // before (strictly, when collapsing) st0's key.
                            assert forall|x: int| 0 <= x < nf.as_seq().len() implies (
                            #[trigger] nf.as_seq()[x]).0.le(st0.key_spec()) && (DEDUP
                                ==> nf.as_seq()[x].0 != st0.key_spec()) by {
                                if x < ls.len() {
                                    assert(nf.as_seq()[x] == ls[x]);
                                    if DEDUP {
                                        crate::total_order::lemma_lt_le_lt(
                                            ls[x].0,
                                            n0.key_spec(),
                                            st0.key_spec(),
                                        );
                                    } else {
                                        K::lemma_transitive(
                                            ls[x].0,
                                            n0.key_spec(),
                                            st0.key_spec(),
                                        );
                                    }
                                } else if x == ls.len() {
                                    assert(nf.as_seq()[x] == e);
                                } else {
                                    assert(nf.as_seq()[x] == sl[x - ls.len() - 1]);
                                }
                            }
                            assert forall|p: i64| #[trigger]
                                Self::prios_bounded(Some(Box::new(n0)), p) && np <= p
                                implies Self::prios_bounded(Some(subtree), p) by {
                                assert(Self::prios_bounded(n0.left_subtree(), p));
                                assert(Self::prios_bounded(n0.right_subtree(), p));
                                assert(Self::prios_bounded(Some(Box::new(st0)), p));
                                assert(Self::prios_bounded(st0.left_subtree(), p));
                                assert(Self::prios_bounded(st0.right_subtree(), p));
                                assert(Self::prios_bounded(Some(Box::new(nf)), p));
                            }
                            assert forall|p: i64| #[trigger]
                                Self::prios_bounded(Some(Box::new(n0)), p) && subtree.prio_spec()
                                    > p implies Self::prios_bounded(subtree.left_subtree(), p)
                                && Self::prios_bounded(subtree.right_subtree(), p) by {
                                assert(Self::prios_bounded(n0.left_subtree(), p));
                                assert(Self::prios_bounded(n0.right_subtree(), p));
                                assert(Self::prios_bounded(st0.left_subtree(), p));
                                assert(Self::prios_bounded(st0.right_subtree(), p));
                                assert(Self::prios_bounded(Some(Box::new(nf)), p));
                            }
                            assert(Self::wf_opt(nf.left_subtree()));
                            assert(Self::wf_opt(nf.right_subtree()));
                            assert(nf.well_formed());
                            assert(subtree.well_formed());
                        }
                        subtree
                    } else {
                        n.right = Some(subtree);
                        (&mut *n).update_metadata();
                        proof {
                            assert(n.as_seq() =~= ls + seq![e] + tr);
                            assert forall|p: i64| #[trigger]
                                Self::prios_bounded(Some(Box::new(n0)), p) && np <= p
                                implies Self::prios_bounded(Some(n), p) by {
                                assert(Self::prios_bounded(n0.left_subtree(), p));
                                assert(Self::prios_bounded(n0.right_subtree(), p));
                                assert(Self::prios_bounded(n.right, p));
                            }
                            assert(Self::wf_opt(n.left));
                            assert(n.well_formed());
                        }
                        n
                    }
                } else {
                    proof {
                        if matches!(c, Cmp::Equal) {
                            K::lemma_reflexive(k);
                        }
                    }
                    let subtree = Self::insert_generic(n.left.take(), new_node);
                    let ghost tl = subtree.as_seq();
                    proof {
                        Self::lemma_insert_lift_left(n0, k, v, tl);
                    }
                    if subtree.prio > n.prio {
                        let mut subtree = subtree;
                        let ghost st0 = *subtree;
                        n.left = subtree.right.take();
                        (&mut *n).update_metadata();
                        proof {
                            let sl = Self::seq_of(st0.left_subtree());
                            let sr = Self::seq_of(st0.right_subtree());
                            st0.lemma_root_entry_index();
                            assert forall|x: int| 0 <= x < sr.len() implies #[trigger] sr[x]
                                == tl[sl.len() + 1 + x] by {
                                assert((sl + seq![st0.entry()] + sr)[sl.len() + 1 + x] == sr[x]);
                            }
                            Self::lemma_wf_prios_bounded(n0.left_subtree(), n0.prio_spec());
                            assert(Self::prios_bounded(st0.right_subtree(), n0.prio_spec()));
                        }
                        let ghost nf = *n;
                        subtree.right = Some(n);
                        (&mut *subtree).update_metadata();
                        proof {
                            let sl = Self::seq_of(st0.left_subtree());
                            let sr = Self::seq_of(st0.right_subtree());
                            assert(nf.as_seq() =~= sr + seq![e] + rs);
                            assert(subtree.as_seq() =~= tl + seq![e] + rs);
                            assert(tl[sl.len() as int] == st0.entry());
                            // Keys of the result's new right child order at
                            // or after (strictly, when collapsing) st0's key.
                            assert forall|x: int| 0 <= x < nf.as_seq().len() implies st0
                                .key_spec().le((#[trigger] nf.as_seq()[x]).0) && (DEDUP ==> st0
                                .key_spec() != nf.as_seq()[x].0) by {
                                if x < sr.len() {
                                    assert(nf.as_seq()[x] == sr[x]);
                                } else if x == sr.len() {
                                    assert(nf.as_seq()[x] == e);
                                } else {
                                    assert(nf.as_seq()[x] == rs[x - sr.len() - 1]);
                                    if DEDUP {
                                        crate::total_order::lemma_lt_le_lt(
                                            st0.key_spec(),
                                            n0.key_spec(),
                                            rs[x - sr.len() - 1].0,
                                        );
                                    } else {
                                        K::lemma_transitive(
                                            st0.key_spec(),
                                            n0.key_spec(),
                                            rs[x - sr.len() - 1].0,
                                        );
                                    }
                                }
                            }
                            assert forall|p: i64| #[trigger]
                                Self::prios_bounded(Some(Box::new(n0)), p) && np <= p
                                implies Self::prios_bounded(Some(subtree), p) by {
                                assert(Self::prios_bounded(n0.left_subtree(), p));
                                assert(Self::prios_bounded(n0.right_subtree(), p));
                                assert(Self::prios_bounded(Some(Box::new(st0)), p));
                                assert(Self::prios_bounded(st0.left_subtree(), p));
                                assert(Self::prios_bounded(st0.right_subtree(), p));
                                assert(Self::prios_bounded(Some(Box::new(nf)), p));
                            }
                            assert forall|p: i64| #[trigger]
                                Self::prios_bounded(Some(Box::new(n0)), p) && subtree.prio_spec()
                                    > p implies Self::prios_bounded(subtree.left_subtree(), p)
                                && Self::prios_bounded(subtree.right_subtree(), p) by {
                                assert(Self::prios_bounded(n0.left_subtree(), p));
                                assert(Self::prios_bounded(n0.right_subtree(), p));
                                assert(Self::prios_bounded(st0.left_subtree(), p));
                                assert(Self::prios_bounded(st0.right_subtree(), p));
                                assert(Self::prios_bounded(Some(Box::new(nf)), p));
                            }
                            assert(Self::wf_opt(nf.left_subtree()));
                            assert(Self::wf_opt(nf.right_subtree()));
                            assert(nf.well_formed());
                            assert(subtree.well_formed());
                        }
                        subtree
                    } else {
                        n.left = Some(subtree);
                        (&mut *n).update_metadata();
                        proof {
                            assert(n.as_seq() =~= tl + seq![e] + rs);
                            assert forall|p: i64| #[trigger]
                                Self::prios_bounded(Some(Box::new(n0)), p) && np <= p
                                implies Self::prios_bounded(Some(n), p) by {
                                assert(Self::prios_bounded(n0.left_subtree(), p));
                                assert(Self::prios_bounded(n0.right_subtree(), p));
                                assert(Self::prios_bounded(n.left, p));
                            }
                            assert(Self::wf_opt(n.right));
                            assert(n.well_formed());
                        }
                        n
                    }
                }
            },
        }
    }
}

impl<K: TotalOrder, V, M: Metadata<K, V>, const DEDUP: bool> Node<K, V, M, DEDUP> {
    /// In a well-formed node, a key below the root key can only occur in the
    /// left subtree, a key above it only in the right subtree, and the root
    /// key itself does occur.
    proof fn lemma_key_localizes(n0: Self, k: K)
        requires
            n0.well_formed(),
        ensures
            spec_lt(k, n0.key_spec()) ==> (has_key(n0.as_seq(), k) <==> has_key(
                Self::seq_of(n0.left_subtree()),
                k,
            )),
            spec_lt(n0.key_spec(), k) ==> (has_key(n0.as_seq(), k) <==> has_key(
                Self::seq_of(n0.right_subtree()),
                k,
            )),
            k == n0.key_spec() ==> has_key(n0.as_seq(), k),
    {
        let ls = Self::seq_of(n0.left_subtree());
        let rs = Self::seq_of(n0.right_subtree());
        let s = n0.as_seq();
        n0.lemma_root_entry_index();
        if k == n0.key_spec() {
            assert(s[ls.len() as int].0 == k);
        }
        if has_key(ls, k) {
            let wj = choose|j: int| 0 <= j < ls.len() && (#[trigger] ls[j]).0 == k;
            assert(s[wj] == ls[wj]);
        }
        if has_key(rs, k) {
            let wj = choose|j: int| 0 <= j < rs.len() && (#[trigger] rs[j]).0 == k;
            assert(s[ls.len() + 1 + wj] == rs[wj]);
        }
        if spec_lt(k, n0.key_spec()) && has_key(s, k) && !has_key(ls, k) {
            let wi = choose|i: int| 0 <= i < s.len() && (#[trigger] s[i]).0 == k;
            if wi < ls.len() {
                assert(s[wi] == ls[wi]);
            } else if wi == ls.len() {
                assert(s[wi] == n0.entry());
            } else {
                assert(s[wi] == rs[wi - ls.len() - 1]);
                crate::total_order::lemma_lt_le_lt(k, n0.key_spec(), rs[wi - ls.len() - 1].0);
            }
            assert(false);
        }
        if spec_lt(n0.key_spec(), k) && has_key(s, k) && !has_key(rs, k) {
            let wi = choose|i: int| 0 <= i < s.len() && (#[trigger] s[i]).0 == k;
            if wi < ls.len() {
                assert(s[wi] == ls[wi]);
                crate::total_order::lemma_le_lt_lt(ls[wi].0, n0.key_spec(), k);
            } else if wi == ls.len() {
                assert(s[wi] == n0.entry());
            } else {
                assert(s[wi] == rs[wi - ls.len() - 1]);
            }
            assert(false);
        }
    }

    /// Binary search: whether some entry carries `key`.
    pub fn contains_key(node: Option<&Node<K, V, M, DEDUP>>, key: &K) -> (r: bool)
        requires
            Self::wf_ref(node),
        ensures
            r == has_key(Self::seq_of_ref(node), *key),
        decreases node,
    {
        match node {
            None => false,
            Some(n) => {
                proof {
                    Self::lemma_key_localizes(*n, *key);
                }
                match key.compare(n.key()) {
                    Cmp::Equal => true,
                    Cmp::Less => Self::contains_key(n.left(), key),
                    Cmp::Greater => Self::contains_key(n.right(), key),
                }
            },
        }
    }

    /// Binary search: a reference to some node carrying `key`, or `None`
    /// exactly when no entry carries it.
    pub fn find<'a>(node: Option<&'a Node<K, V, M, DEDUP>>, key: &K) -> (r: Option<
        &'a Node<K, V, M, DEDUP>,
    >)
        requires
            Self::wf_ref(node),
        ensures
            (r is Some) == has_key(Self::seq_of_ref(node), *key),
            match r {
                None => !has_key(Self::seq_of_ref(node), *key),
                Some(f) => f.well_formed() && f.key_spec() == *key && exists|i: int|
                    0 <= i < Self::seq_of_ref(node).len() && #[trigger] Self::seq_of_ref(node)[i]
                        == (f.key_spec(), f.value_spec()),
            },
        decreases node,
    {
        match node {
            None => None,
            Some(n) => {
                let ghost s = n.as_seq();
                let ghost ls = Self::seq_of(n.left_subtree());
                proof {
                    Self::lemma_key_localizes(*n, *key);
                    n.lemma_root_entry_index();
                }
                match key.compare(n.key()) {
                    Cmp::Equal => {
                        proof {
                            assert(s[ls.len() as int] == (n.key_spec(), n.value_spec()));
                        }
                        Some(n)
                    },
                    Cmp::Less => {
                        let r = Self::find(n.left(), key);
                        proof {
                            if r is Some {
                                let f = r.unwrap();
                                let i = choose|i: int|
                                    0 <= i < ls.len() && #[trigger] ls[i] == (
                                    f.key_spec(),
                                    f.value_spec(),
                                    );
                                assert(s[i] == ls[i]);
                            }
                        }
                        r
                    },
                    Cmp::Greater => {
                        let ghost rs = Self::seq_of(n.right_subtree());
                        let r = Self::find(n.right(), key);
                        proof {
                            if r is Some {
                                let f = r.unwrap();
                                let i = choose|i: int|
                                    0 <= i < rs.len() && #[trigger] rs[i] == (
                                    f.key_spec(),
                                    f.value_spec(),
                                    );
                                assert(s[ls.len() + 1 + i] == rs[i]);
                            }
                        }
                        r
                    },
                }
            },
        }
    }

    /// Detach the node at this location, if any, and replace the location
    /// with the merge of its two subtrees; the removed (key, value) pair is
    /// returned.
    pub fn remove(node: &mut BoxedNode<K, V, M, DEDUP>) -> (r: Option<(K, V)>)
        requires
            Self::wf_opt(*old(node)),
        ensures
            Self::wf_opt(*final(node)),
            match *old(node) {
                None => r is None && *final(node) is None,
                Some(b) => r == Some(b.entry()) && Self::seq_of(*final(node)) == Self::seq_of(
                    b.left_subtree(),
                ) + Self::seq_of(b.right_subtree()),
            },
            forall|p: i64|
                #[trigger] Self::prios_bounded(*old(node), p) ==> Self::prios_bounded(
                    *final(node),
                    p,
                ),
    {
        match node.take() {
            None => None,
            Some(n) => {
                let ghost n0 = *n;
                let ghost ls = Self::seq_of(n0.left_subtree());
                let ghost rs = Self::seq_of(n0.right_subtree());
                let nn = *n;
                let Node { key, value, left, right, .. } = nn;
                proof {
                    assert forall|i: int, j: int|
                        0 <= i < ls.len() && 0 <= j < rs.len() implies (#[trigger] ls[i]).0.le(
                        (#[trigger] rs[j]).0,
                    ) && (DEDUP ==> ls[i].0 != rs[j].0) by {
                        if DEDUP {
                            crate::total_order::lemma_lt_le_lt(ls[i].0, n0.key_spec(), rs[j].0);
                        } else {
                            K::lemma_transitive(ls[i].0, n0.key_spec(), rs[j].0);
                        }
                    }
                }
                let merged = Self::merge(left, right);
                proof {
                    assert forall|p: i64| #[trigger]
                        Self::prios_bounded(Some(Box::new(n0)), p) implies Self::prios_bounded(
                        merged,
                        p,
                    ) by {
                        assert(Self::prios_bounded(n0.left_subtree(), p));
                        assert(Self::prios_bounded(n0.right_subtree(), p));
                    }
                }
                *node = merged;
                Some((key, value))
            },
        }
    }
}

impl<K: TotalOrder, V, M: Metadata<K, V>, const DEDUP: bool> Node<K, V, M, DEDUP> {
    /// Locate the topmost node carrying `key`, excise it, and merge its two
    /// subtrees into its place; absence is reported as `None`.
    #[verifier::rlimit(100)]
    fn remove_key_at(node: &mut BoxedNode<K, V, M, DEDUP>, key: &K) -> (r: Option<(K, V)>)
        requires
            Self::wf_opt(*old(node)),
        ensures
            Self::wf_opt(*final(node)),
            forall|p: i64|
                #[trigger] Self::prios_bounded(*old(node), p) ==> Self::prios_bounded(
                    *final(node),
                    p,
                ),
            match r {
                None => !has_key(Self::seq_of(*old(node)), *key) && Self::seq_of(*final(node))
                    == Self::seq_of(*old(node)),
                Some(pr) => pr.0 == *key && removed_one(
                    Self::seq_of(*old(node)),
                    pr,
                    Self::seq_of(*final(node)),
                ),
            },
        decreases *old(node),
    {
        match node.take() {
            None => None,
            Some(mut n) => {
                let ghost n0 = *n;
                let ghost s = n0.as_seq();
                let ghost ls = Self::seq_of(n0.left_subtree());
                let ghost rs = Self::seq_of(n0.right_subtree());
                let ghost e = n0.entry();
                proof {
                    n0.lemma_root_entry_index();
                    Self::lemma_key_localizes(n0, *key);
                }
                let c = key.compare(&n.key);
                if matches!(c, Cmp::Equal) {
                    *node = Some(n);
                    let r = Self::remove(node);
                    proof {
                        s.remove_ensures(ls.len() as int);
                        assert forall|x: int| 0 <= x < s.len() - 1 implies (ls + rs)[x]
                            == s.remove(ls.len() as int)[x] by {
                            if x < ls.len() {
                                assert((ls + rs)[x] == ls[x]);
                                assert(s[x] == ls[x]);
                            } else {
                                assert((ls + rs)[x] == rs[x - ls.len()]);
                                assert(s.remove(ls.len() as int)[x] == s[x + 1]);
                                assert(s[x + 1] == rs[x - ls.len()]);
                            }
                        }
                        assert(ls + rs =~= s.remove(ls.len() as int));
                        assert(s[ls.len() as int] == e);
                        assert(removed_one(s, e, ls + rs));
                    }
                    r
                } else if matches!(c, Cmp::Greater) {
                    let r = Self::remove_key_at(&mut n.right, key);
                    (&mut *n).update_metadata();
                    proof {
                        let trs = Self::seq_of(n.right);
                        Self::lemma_wf_prios_bounded(n0.right_subtree(), n0.prio_spec());
                        assert(Self::prios_bounded(n.right, n0.prio_spec()));
                        match &r {
                            None => {
                                assert(n.as_seq() =~= s);
                            },
                            Some(pr) => {
                                let i = choose|i: int| #![auto]
                                    0 <= i < rs.len() && rs[i] == *pr && trs == rs.remove(i);
                                rs.remove_ensures(i);
                                s.remove_ensures(ls.len() + 1 + i);
                                // Entries of the shrunk right sequence come
                                // from the old one.
                                assert forall|x: int| 0 <= x < trs.len() implies #[trigger] trs[x]
                                    == rs[x] || trs[x] == rs[x + 1] by {
                                    if x < i {
                                        assert(trs[x] == rs[x]);
                                    } else {
                                        assert(trs[x] == rs[x + 1]);
                                    }
                                }
                                assert(s[ls.len() + 1 + i] == rs[i]);
                                assert forall|x: int|
                                    0 <= x < s.len() - 1 implies n.as_seq()[x] == s.remove(
                                    ls.len() + 1 + i,
                                )[x] by {
                                    if x < ls.len() {
                                        assert(n.as_seq()[x] == ls[x]);
                                        assert(s[x] == ls[x]);
                                    } else if x == ls.len() {
                                        assert(n.as_seq()[x] == e);
                                    } else {
                                        let y = x - ls.len() - 1;
                                        assert(n.as_seq()[x] == trs[y]);
                                        if x < ls.len() + 1 + i {
                                            assert(trs[y] == rs[y]);
                                            assert(s[x] == rs[y]);
                                        } else {
                                            assert(trs[y] == rs[y + 1]);
                                            assert(s.remove(ls.len() + 1 + i)[x] == s[x + 1]);
                                            assert(s[x + 1] == rs[y + 1]);
                                        }
                                    }
                                }
                                assert(n.as_seq() =~= s.remove(ls.len() + 1 + i));
                                assert(s[ls.len() + 1 + i] == *pr);
                                assert(removed_one(s, *pr, n.as_seq()));
                            },
                        }
                        assert(n.well_formed());
                        assert forall|p: i64| #[trigger]
                            Self::prios_bounded(Some(Box::new(n0)), p) implies Self::prios_bounded(
                            Some(n),
                            p,
                        ) by {
                            assert(Self::prios_bounded(n0.right_subtree(), p));
                            assert(Self::prios_bounded(n.right, p));
                            assert(Self::prios_bounded(n0.left_subtree(), p));
                        }
                    }
                    *node = Some(n);
                    r
                } else {
                    let r = Self::remove_key_at(&mut n.left, key);
                    (&mut *n).update_metadata();
                    proof {
                        let tls = Self::seq_of(n.left);
                        Self::lemma_wf_prios_bounded(n0.left_subtree(), n0.prio_spec());
                        assert(Self::prios_bounded(n.left, n0.prio_spec()));
                        match &r {
                            None => {
                                assert(n.as_seq() =~= s);
                            },
                            Some(pr) => {
                                let i = choose|i: int| #![auto]
                                    0 <= i < ls.len() && ls[i] == *pr && tls == ls.remove(i);
                                ls.remove_ensures(i);
                                s.remove_ensures(i);
                                assert forall|x: int| 0 <= x < tls.len() implies #[trigger] tls[x]
                                    == ls[x] || tls[x] == ls[x + 1] by {
                                    if x < i {
                                        assert(tls[x] == ls[x]);
                                    } else {
                                        assert(tls[x] == ls[x + 1]);
                                    }
                                }
                                assert(s[i] == ls[i]);
                                assert forall|x: int|
                                    0 <= x < s.len() - 1 implies n.as_seq()[x] == s.remove(i)[
                                    x
                                ] by {
                                    if x < tls.len() {
                                        assert(n.as_seq()[x] == tls[x]);
                                        if x < i {
                                            assert(s[x] == ls[x]);
                                        } else {
                                            assert(s.remove(i)[x] == s[x + 1]);
                                            assert(x + 1 <= ls.len());
                                            if x + 1 < ls.len() {
                                                assert(s[x + 1] == ls[x + 1]);
                                            }
                                        }
                                    } else if x == tls.len() {
                                        assert(n.as_seq()[x] == e);
                                        assert(s.remove(i)[x] == s[x + 1]);
                                        assert(x + 1 == ls.len());
                                        assert(s[x + 1] == e);
                                    } else {
                                        assert(n.as_seq()[x] == rs[x - tls.len() - 1]);
                                        assert(s.remove(i)[x] == s[x + 1]);
                                        assert(s[x + 1] == rs[x + 1 - ls.len() - 1]);
                                    }
                                }
                                assert(n.as_seq() =~= s.remove(i));
                                assert(s[i] == *pr);
                                assert(removed_one(s, *pr, n.as_seq()));
                            },
                        }
                        assert(n.well_formed());
                        assert forall|p: i64| #[trigger]
                            Self::prios_bounded(Some(Box::new(n0)), p) implies Self::prios_bounded(
                            Some(n),
                            p,
                        ) by {
                            assert(Self::prios_bounded(n0.left_subtree(), p));
                            assert(Self::prios_bounded(n.left, p));
                            assert(Self::prios_bounded(n0.right_subtree(), p));
                        }
                    }
                    *node = Some(n);
                    r
                }
            },
        }
    }
}

/// The tree container: owns zero-or-one root node, transitively owning the
/// entire subtree; empty at construction; mutated in place.  Its abstract
/// view is the in-order sequence of (key, value) entries.
pub struct Tree<K: TotalOrder, V, M: Metadata<K, V>, const DEDUP: bool> {
    root: BoxedNode<K, V, M, DEDUP>,
}

impl<K: TotalOrder, V, M: Metadata<K, V>, const DEDUP: bool> View for Tree<K, V, M, DEDUP> {
    type V = Seq<(K, V)>;

    open spec fn view(&self) -> Seq<(K, V)> {
        self.as_seq()
    }
}

impl<K: TotalOrder, V, M: Metadata<K, V>, const DEDUP: bool> Tree<K, V, M, DEDUP> {
    /// The in-order entries of the whole tree.
    pub closed spec fn as_seq(self) -> Seq<(K, V)> {
        Node::seq_of(self.root)
    }

    /// The root subtree, for specification-level reasoning.
    pub closed spec fn root_spec(self) -> BoxedNode<K, V, M, DEDUP> {
        self.root
    }

    /// The container's invariant: the root subtree is well-formed (BST
    /// order, heap order, aggregate consistency at every node) and the
    /// entry count fits the machine.
    pub closed spec fn well_formed(self) -> bool {
        Node::wf_opt(self.root) && Node::seq_of(self.root).len() <= usize::MAX
    }

    pub fn root(&self) -> (r: Option<&Node<K, V, M, DEDUP>>)
        ensures
            match r {
                None => self.root_spec() is None,
                Some(n) => self.root_spec() matches Some(b) && *n == *b,
            },
            Node::seq_of_ref(r) == self@,
            self.well_formed() ==> Node::wf_ref(r),
    {
        match &self.root {
            Some(b) => Some(&**b),
            None => None,
        }
    }

    /// An empty container.
    pub fn new() -> (t: Self)
        ensures
            t.well_formed(),
            t@ == Seq::<(K, V)>::empty(),
    {
        Tree { root: None }
    }

    /// Draw a fresh random priority and insert `(key, value)` by key order:
    /// an upsert under the collapsing policy, an always-add under the
    /// additive one.
    pub fn insert(&mut self, key: K, value: V)
        requires
            old(self).well_formed(),
            old(self)@.len() < usize::MAX,
        ensures
            final(self).well_formed(),
            insert_model(old(self)@, key, value, final(self)@, DEDUP),
            final(self)@ == model_insert(old(self)@, key, value, DEDUP),
            has_key(final(self)@, key),
            old(self)@.len() <= final(self)@.len() <= old(self)@.len() + 1,
    {
        let node = Box::new(Node::new(key, value));
        let root = self.root.take();
        self.root = Some(Node::insert_generic(root, node));
        proof {
            lemma_insert_model_entries(old(self)@, key, value, final(self)@, DEDUP);
            old(self).lemma_in_order_sorted();
            lemma_insert_model_fn(old(self)@, key, value, final(self)@, DEDUP);
        }
    }

    /// Whether some entry carries `key`.
    pub fn contains_key(&self, key: &K) -> (r: bool)
        requires
            self.well_formed(),
        ensures
            r == has_key(self@, *key),
    {
        Node::contains_key(self.root(), key)
    }

    /// A reference to some node carrying `key`, or `None` exactly when no
    /// entry carries it.
    pub fn find(&self, key: &K) -> (r: Option<&Node<K, V, M, DEDUP>>)
        requires
            self.well_formed(),
        ensures
            (r is Some) == has_key(self@, *key),
            match r {
                None => !has_key(self@, *key),
                Some(f) => f.well_formed() && f.key_spec() == *key && exists|i: int|
                    0 <= i < self@.len() && #[trigger] self@[i] == (f.key_spec(), f.value_spec()),
            },
    {
        Node::find(self.root(), key)
    }

    /// The value of some entry carrying `key`, or `None` exactly when no
    /// entry carries it.
    pub fn get(&self, key: &K) -> (r: Option<&V>)
        requires
            self.well_formed(),
        ensures
            (r is Some) == has_key(self@, *key),
            match r {
                None => !has_key(self@, *key),
                Some(v) => exists|i: int|
                    0 <= i < self@.len() && #[trigger] self@[i] == (*key, *v),
            },
    {
        match Node::find(self.root(), key) {
            None => None,
            Some(n) => Some(n.value()),
        }
    }

    /// Keyed access that demands presence: asking for an absent key is a
    /// caller precondition violation, ruled out here rather than detected
    /// at run time.
    pub fn index(&self, key: &K) -> (v: &V)
        requires
            self.well_formed(),
            has_key(self@, *key),
        ensures
            exists|i: int| 0 <= i < self@.len() && #[trigger] self@[i] == (*key, *v),
    {
        self.get(key).unwrap()
    }

    /// Locate the topmost node carrying `key`, excise it, and return the
    /// removed pair; absence is reported as `None` and leaves the entries
    /// unchanged.
    pub fn remove_key(&mut self, key: &K) -> (r: Option<(K, V)>)
        requires
            old(self).well_formed(),
        ensures
            final(self).well_formed(),
            match r {
                None => !has_key(old(self)@, *key) && final(self)@ == old(self)@,
                Some(pr) => pr.0 == *key && has_key(old(self)@, *key) && removed_one(
                    old(self)@,
                    pr,
                    final(self)@,
                ),
            },
    {
        let r = Node::remove_key_at(&mut self.root, key);
        proof {
            if let Some(pr) = &r {
                let i = choose|i: int| #![auto]
                    0 <= i < old(self)@.len() && old(self)@[i] == *pr && final(self)@ == old(
                    self,
                )@.remove(i);
                old(self)@.remove_ensures(i);
                assert(old(self)@[i].0 == *key);
            }
        }
        r
    }
}

impl<K: TotalOrder, V, M: Metadata<K, V>, const DEDUP: bool> Default for Tree<K, V, M, DEDUP> {
    /// An empty container.
    fn default() -> (t: Self)
        ensures
            t.well_formed(),
            t@ == Seq::<(K, V)>::empty(),
    {
        Self::new()
    }
}

// ---------------------------------------------------------------------------
// The laws of the data model, as publicly stated proof functions.
// ---------------------------------------------------------------------------

/// Additive policy: every insertion, present key or not, increases the entry
/// count by exactly one.
pub proof fn lemma_additive_insert_count<K: TotalOrder, V>(s: Seq<(K, V)>, k: K, v: V, t: Seq<(K, V)>)
    requires
        is_insert_add(s, k, v, t),
    ensures
        t.len() == s.len() + 1,
{
    lemma_insert_model_entries(s, k, v, t, false);
}

/// Collapsing policy: inserting a present key leaves the entry count
/// unchanged and updates only that entry's value; inserting an absent key
/// increases the count by exactly one.
pub proof fn lemma_collapsing_insert_count<K: TotalOrder, V>(
    s: Seq<(K, V)>,
    k: K,
    v: V,
    t: Seq<(K, V)>,
)
    requires
        is_insert_dedup(s, k, v, t),
    ensures
        has_key(s, k) ==> t.len() == s.len() && exists|i: int| #![auto]
            0 <= i < s.len() && s[i].0 == k && t == s.update(i, (k, v)),
        !has_key(s, k) ==> t.len() == s.len() + 1,
{
    lemma_insert_model_entries(s, k, v, t, true);
}

/// An element landed by rank is found again at that rank: inserting at
/// position `r` puts the new entry exactly there.
pub proof fn lemma_insert_at_rank_found<A>(s: Seq<A>, r: int, v: A)
    requires
        0 <= r <= s.len(),
    ensures
        s.insert(r, v).len() == s.len() + 1,
        s.insert(r, v)[r] == v,
{
    s.insert_ensures(r, v);
}

/// After removing the element at rank `r`, rank `r` holds what previously
/// occupied rank `r + 1`, or nothing if none did.
pub proof fn lemma_rank_after_removal<A>(s: Seq<A>, r: int)
    requires
        0 <= r < s.len(),
    ensures
        s.remove(r).len() == s.len() - 1,
        r + 1 < s.len() ==> s.remove(r)[r] == s[r + 1],
        r + 1 == s.len() ==> r >= s.remove(r).len(),
{
    s.remove_ensures(r);
}

impl<K: TotalOrder, V, M: Metadata<K, V>, const DEDUP: bool> Node<K, V, M, DEDUP> {
    /// In-order traversal of a well-formed subtree yields keys in
    /// non-decreasing order — strictly increasing, with no duplicates ever,
    /// under the collapsing policy.
    pub proof fn lemma_in_order_sorted(node: BoxedNode<K, V, M, DEDUP>)
        requires
            Self::wf_opt(node),
        ensures
            sorted_le(Self::seq_of(node)),
            DEDUP ==> sorted_lt(Self::seq_of(node)),
        decreases node,
    {
        if let Some(n) = node {
            let n0 = *n;
            let s = n0.as_seq();
            let ls = Self::seq_of(n0.left_subtree());
            let rs = Self::seq_of(n0.right_subtree());
            n0.lemma_root_entry_index();
            Self::lemma_in_order_sorted(n0.left_subtree());
            Self::lemma_in_order_sorted(n0.right_subtree());
            assert forall|i: int, j: int| 0 <= i < j < s.len() implies (#[trigger] s[i]).0.le(
                (#[trigger] s[j]).0,
            ) && (DEDUP ==> s[i].0 != s[j].0) by {
                if j < ls.len() {
                    assert(s[i] == ls[i] && s[j] == ls[j]);
                } else if i < ls.len() && j == ls.len() {
                    assert(s[i] == ls[i] && s[j] == n0.entry());
                } else if i < ls.len() {
                    assert(s[i] == ls[i] && s[j] == rs[j - ls.len() - 1]);
                    if DEDUP {
                        crate::total_order::lemma_lt_le_lt(
                            ls[i].0,
                            n0.key_spec(),
                            rs[j - ls.len() - 1].0,
                        );
                    } else {
                        K::lemma_transitive(ls[i].0, n0.key_spec(), rs[j - ls.len() - 1].0);
                    }
                } else if i == ls.len() {
                    assert(s[i] == n0.entry() && s[j] == rs[j - ls.len() - 1]);
                } else {
                    assert(s[i] == rs[i - ls.len() - 1] && s[j] == rs[j - ls.len() - 1]);
                }
            }
        }
    }

    /// The invariants holding of every surviving node after every mutation:
    /// its aggregate equals the metadata strategy applied to its key, value
    /// and its children's current aggregates, and its priority is at least
    /// each present child's priority.  The same holds recursively of the
    /// children, which are well-formed themselves.
    pub proof fn lemma_aggregate_and_heap(n: Self)
        requires
            n.well_formed(),
        ensures
            n.metadata_spec() == M::update_spec(
                n.key_spec(),
                n.value_spec(),
                Self::meta_of(n.left_subtree()),
                Self::meta_of(n.right_subtree()),
            ),
            Self::wf_opt(n.left_subtree()),
            Self::wf_opt(n.right_subtree()),
            n.left_subtree() matches Some(l) ==> l.prio_spec() <= n.prio_spec(),
            n.right_subtree() matches Some(r) ==> r.prio_spec() <= n.prio_spec(),
    {
    }

    /// What the aggregates of an optional subtree's root are.
    pub proof fn lemma_meta_of(node: BoxedNode<K, V, M, DEDUP>)
        ensures
            match node {
                None => Self::meta_of(node) is None,
                Some(b) => Self::meta_of(node) == Some(b.metadata_spec()),
            },
    {
    }
}

impl<K: TotalOrder, V, M: Metadata<K, V>, const DEDUP: bool> Tree<K, V, M, DEDUP> {
    /// In-order traversal of a well-formed tree yields keys in
    /// non-decreasing order — strictly increasing under the collapsing
    /// policy.
    pub proof fn lemma_in_order_sorted(self)
        requires
            self.well_formed(),
        ensures
            sorted_le(self@),
            DEDUP ==> sorted_lt(self@),
    {
        Node::lemma_in_order_sorted(self.root);
    }
}

// ---------------------------------------------------------------------------
// Order-statistics augmentation: rank lookup, rank-based split, rank-based
// removal, built on the subtree-size aggregate.
// ---------------------------------------------------------------------------

/// Where a cut at `rank` falls in a sequence of length `len`: at `rank`
/// itself, or at the end for an out-of-range rank.
pub open spec fn rank_cut(len: int, rank: int) -> int {
    if rank <= len {
        rank
    } else {
        len
    }
}

impl<K: TotalOrder, V, M: Metadata<K, V>, const DEDUP: bool> Node<K, V, M, DEDUP> {
    /// Splitting a well-formed tree at any boundary yields two parts that
    /// satisfy `merge`'s precondition and whose concatenation, in the
    /// original order, is exactly the original sequence: a split followed by
    /// a merge of the two results reconstructs the sequence.
    pub proof fn lemma_split_then_merge_reconstructs(node: BoxedNode<K, V, M, DEDUP>, m: int)
        requires
            Self::wf_opt(node),
            0 <= m <= Self::seq_of(node).len(),
        ensures
            Self::merge_ordered(Self::seq_of(node).take(m), Self::seq_of(node).skip(m)),
            Self::seq_of(node).take(m) + Self::seq_of(node).skip(m) == Self::seq_of(node),
    {
        let s = Self::seq_of(node);
        Self::lemma_in_order_sorted(node);
        assert forall|i: int, j: int|
            0 <= i < s.take(m).len() && 0 <= j < s.skip(m).len() implies (
        #[trigger] s.take(m)[i]).0.le((#[trigger] s.skip(m)[j]).0) && (DEDUP ==> s.take(m)[i].0
            != s.skip(m)[j].0) by {
            assert(s.take(m)[i] == s[i]);
            assert(s.skip(m)[j] == s[m + j]);
        }
        assert(s.take(m) + s.skip(m) =~= s);
    }
}

impl<K: TotalOrder, V, const DEDUP: bool> Node<K, V, OrderStatistics, DEDUP> {
    /// In a well-formed subtree whose entry count fits the machine, the
    /// stored order aggregate is exactly the entry count.
    pub proof fn lemma_order_counts(node: BoxedNode<K, V, OrderStatistics, DEDUP>)
        requires
            Self::wf_opt(node),
            Self::seq_of(node).len() <= usize::MAX,
        ensures
            order_opt(Self::meta_of(node)) == Self::seq_of(node).len(),
        decreases node,
    {
        if let Some(n) = node {
            let n0 = *n;
            n0.lemma_root_entry_index();
            Self::lemma_order_counts(n0.left_subtree());
            Self::lemma_order_counts(n0.right_subtree());
        }
    }

    /// Produce (first `rank` entries, remainder); an out-of-range rank
    /// sends everything to the first part.
    #[verifier::rlimit(100)]
    pub fn split_by_rank(node: BoxedNode<K, V, OrderStatistics, DEDUP>, rank: usize) -> (r: (
        BoxedNode<K, V, OrderStatistics, DEDUP>,
        BoxedNode<K, V, OrderStatistics, DEDUP>,
    ))
        requires
            Self::wf_opt(node),
            Self::seq_of(node).len() <= usize::MAX,
        ensures
            Self::wf_opt(r.0),
            Self::wf_opt(r.1),
            Self::seq_of(r.0) == Self::seq_of(node).take(
                rank_cut(Self::seq_of(node).len() as int, rank as int),
            ),
            Self::seq_of(r.1) == Self::seq_of(node).skip(
                rank_cut(Self::seq_of(node).len() as int, rank as int),
            ),
            forall|p: i64|
                #[trigger] Self::prios_bounded(node, p) ==> Self::prios_bounded(r.0, p)
                    && Self::prios_bounded(r.1, p),
        decreases node,
    {
        match node {
            None => {
                proof {
                    assert(Self::seq_of(None::<Box<Node<K, V, OrderStatistics, DEDUP>>>).take(0)
                        =~= Seq::<(K, V)>::empty());
                    assert(Self::seq_of(None::<Box<Node<K, V, OrderStatistics, DEDUP>>>).skip(0)
                        =~= Seq::<(K, V)>::empty());
                }
                (None, None)
            },
            Some(mut n) => {
                let ghost n0 = *n;
                let ghost s = n0.as_seq();
                let ghost ls = Self::seq_of(n0.left_subtree());
                let ghost rs = Self::seq_of(n0.right_subtree());
                let ghost e = n0.entry();
                proof {
                    n0.lemma_root_entry_index();
                    Self::lemma_order_counts(n0.left_subtree());
                }
                let left_order: usize = match &n.left {
                    Some(l) => l.metadata.order,
                    None => 0,
                };
                if left_order >= rank {
                    let (a, b) = Self::split_by_rank(n.left.take(), rank);
                    n.left = b;
                    (&mut *n).update_metadata();
                    proof {
                        let m = rank as int;
                        assert(Self::seq_of(a) == ls.take(m));
                        assert(Self::seq_of(n.left) == ls.skip(m));
                        assert forall|x: int| 0 <= x < ls.skip(m).len() implies #[trigger] ls.skip(
                            m,
                        )[x] == ls[m + x] by {}
                        assert forall|x: int| 0 <= x < s.len() - m implies n.as_seq()[x]
                            == s.skip(m)[x] by {
                            assert(s.skip(m)[x] == s[m + x]);
                            if x < ls.len() - m {
                                assert(n.as_seq()[x] == ls.skip(m)[x]);
                                assert(s[m + x] == ls[m + x]);
                            } else if x == ls.len() - m {
                                assert(n.as_seq()[x] == e);
                                assert(s[m + x] == e);
                            } else {
                                assert(n.as_seq()[x] == rs[x - (ls.len() - m) - 1]);
                                assert(s[m + x] == rs[m + x - ls.len() - 1]);
                            }
                        }
                        assert(n.as_seq() =~= s.skip(m));
                        assert forall|x: int| 0 <= x < m implies #[trigger] ls.take(m)[x]
                            == s.take(m)[x] by {
                            assert(ls.take(m)[x] == ls[x]);
                            assert(s.take(m)[x] == s[x]);
                        }
                        assert(Self::seq_of(a) =~= s.take(m));
                        Self::lemma_wf_prios_bounded(Some(Box::new(n0)), n0.prio_spec());
                        assert(Self::prios_bounded(n0.left_subtree(), n0.prio_spec()));
                        assert(Self::prios_bounded(n.left, n0.prio_spec()));
                        assert(n.well_formed());
                        assert forall|p: i64| #[trigger]
                            Self::prios_bounded(Some(Box::new(n0)), p) implies Self::prios_bounded(
                            a,
                            p,
                        ) && Self::prios_bounded(Some(n), p) by {
                            assert(Self::prios_bounded(n0.left_subtree(), p));
                            assert(Self::prios_bounded(a, p));
                            assert(Self::prios_bounded(n.left, p));
                        }
                    }
                    (a, Some(n))
                } else {
                    let (a, b) = Self::split_by_rank(n.right.take(), rank - left_order - 1);
                    n.right = a;
                    (&mut *n).update_metadata();
                    proof {
                        let mr = rank_cut(rs.len() as int, rank - ls.len() - 1);
                        let m = ls.len() + 1 + mr;
                        assert(m == rank_cut(s.len() as int, rank as int));
                        assert(Self::seq_of(n.right) == rs.take(mr));
                        assert(Self::seq_of(b) == rs.skip(mr));
                        assert forall|x: int| 0 <= x < m implies n.as_seq()[x] == s.take(m)[x] by {
                            assert(s.take(m)[x] == s[x]);
                            if x < ls.len() {
                                assert(n.as_seq()[x] == ls[x]);
                                assert(s[x] == ls[x]);
                            } else if x == ls.len() {
                                assert(n.as_seq()[x] == e);
                            } else {
                                assert(n.as_seq()[x] == rs.take(mr)[x - ls.len() - 1]);
                                assert(rs.take(mr)[x - ls.len() - 1] == rs[x - ls.len() - 1]);
                                assert(s[x] == rs[x - ls.len() - 1]);
                            }
                        }
                        assert(n.as_seq() =~= s.take(m));
                        assert forall|x: int| 0 <= x < s.len() - m implies #[trigger] rs.skip(
                            mr,
                        )[x] == s.skip(m)[x] by {
                            assert(rs.skip(mr)[x] == rs[mr + x]);
                            assert(s.skip(m)[x] == s[m + x]);
                            assert(s[m + x] == rs[m + x - ls.len() - 1]);
                        }
                        assert(Self::seq_of(b) =~= s.skip(m));
                        Self::lemma_wf_prios_bounded(Some(Box::new(n0)), n0.prio_spec());
                        assert(Self::prios_bounded(n0.right_subtree(), n0.prio_spec()));
                        assert(Self::prios_bounded(n.right, n0.prio_spec()));
                        assert(n.well_formed());
                        assert forall|p: i64| #[trigger]
                            Self::prios_bounded(Some(Box::new(n0)), p) implies Self::prios_bounded(
                            Some(n),
                            p,
                        ) && Self::prios_bounded(b, p) by {
                            assert(Self::prios_bounded(n0.right_subtree(), p));
                            assert(Self::prios_bounded(b, p));
                            assert(Self::prios_bounded(n.right, p));
                        }
                    }
                    (Some(n), b)
                }
            },
        }
    }

    /// Navigate by rank: 0-based in-order position.
    fn find_by_rank_at(node: Option<&Node<K, V, OrderStatistics, DEDUP>>, rank: usize) -> (r:
        Option<&Node<K, V, OrderStatistics, DEDUP>>)
        requires
            Self::wf_ref(node),
            Self::seq_of_ref(node).len() <= usize::MAX,
        ensures
            match r {
                Some(f) => (rank as int) < Self::seq_of_ref(node).len() && f.well_formed()
                    && Self::seq_of_ref(node)[rank as int] == (f.key_spec(), f.value_spec()),
                None => rank >= Self::seq_of_ref(node).len(),
            },
        decreases node,
    {
        match node {
            None => None,
            Some(n) => {
                let ghost s = n.as_seq();
                let ghost ls = Self::seq_of(n.left_subtree());
                proof {
                    n.lemma_root_entry_index();
                    Self::lemma_order_counts(n.left_subtree());
                    Self::lemma_order_counts(n.right_subtree());
                }
                if rank >= n.metadata.order {
                    return None;
                }
                let rank_of_left: usize = match &n.left {
                    Some(l) => l.metadata.order,
                    None => 0,
                };
                if rank < rank_of_left {
                    let r = Self::find_by_rank_at(n.left(), rank);
                    proof {
                        assert(s[rank as int] == ls[rank as int]);
                    }
                    r
                } else if rank == rank_of_left {
                    proof {
                        assert(s[rank as int] == (n.key_spec(), n.value_spec()));
                    }
                    Some(n)
                } else {
                    let r = Self::find_by_rank_at(n.right(), rank - rank_of_left - 1);
                    proof {
                        let j = rank - ls.len() - 1;
                        assert(s[rank as int] == Self::seq_of(n.right_subtree())[j]);
                    }
                    r
                }
            },
        }
    }
}

impl<K: TotalOrder, V, const DEDUP: bool> Tree<K, V, OrderStatistics, DEDUP> {
    /// The entry count, read directly from the root's size aggregate.
    pub fn len(&self) -> (n: usize)
        requires
            self.well_formed(),
        ensures
            n == self@.len(),
    {
        proof {
            Node::lemma_order_counts(self.root);
        }
        match &self.root {
            Some(b) => b.metadata.order,
            None => 0,
        }
    }

    /// Whether the container holds no entries.
    pub fn is_empty(&self) -> (b: bool)
        requires
            self.well_formed(),
        ensures
            b == (self@.len() == 0),
    {
        self.len() == 0
    }

    /// The entry at in-order position `rank`, or `None` exactly when
    /// `rank` is out of range.
    pub fn find_by_rank(&self, rank: usize) -> (r: Option<&Node<K, V, OrderStatistics, DEDUP>>)
        requires
            self.well_formed(),
        ensures
            match r {
                Some(f) => (rank as int) < self@.len() && f.well_formed() && self@[rank as int]
                    == (f.key_spec(), f.value_spec()),
                None => rank >= self@.len(),
            },
    {
        Node::find_by_rank_at(self.root(), rank)
    }

    /// Split at `rank`, isolate the next entry by a split at rank 1, merge
    /// the outer parts back together, and return the isolated node — or
    /// `None`, leaving the entries unchanged, when `rank` is out of range.
    pub fn remove_by_rank(&mut self, rank: usize) -> (r: BoxedNode<K, V, OrderStatistics, DEDUP>)
        requires
            old(self).well_formed(),
        ensures
            final(self).well_formed(),
            (rank as int) < old(self)@.len() ==> (r matches Some(b) && b.entry() == old(
                self,
            )@[rank as int] && final(self)@ == old(self)@.remove(rank as int)),
            rank >= old(self)@.len() ==> r is None && final(self)@ == old(self)@,
    {
        let ghost s = old(self)@;
        proof {
            Node::lemma_in_order_sorted(old(self).root_spec());
        }
        let root = self.root.take();
        let (left, rest) = Node::split_by_rank(root, rank);
        let ghost m = rank_cut(s.len() as int, rank as int);
        let (mid, rest2) = Node::split_by_rank(rest, 1);
        let ghost m2 = rank_cut(s.skip(m).len() as int, 1);
        proof {
            // The two outer parts satisfy merge's precondition: the whole
            // sequence is sorted and they sit on either side of the cut.
            assert forall|i: int, j: int|
                0 <= i < s.take(m).len() && 0 <= j < s.skip(m).skip(m2).len() implies (
            #[trigger] s.take(m)[i]).0.le((#[trigger] s.skip(m).skip(m2)[j]).0) && (DEDUP
                ==> s.take(m)[i].0 != s.skip(m).skip(m2)[j].0) by {
                assert(s.take(m)[i] == s[i]);
                assert(s.skip(m).skip(m2)[j] == s.skip(m)[m2 + j]);
                assert(s.skip(m)[m2 + j] == s[m + m2 + j]);
            }
        }
        let merged = Node::merge(left, rest2);
        self.root = merged;
        proof {
            if (rank as int) < s.len() {
                assert(m == rank as int);
                assert(m2 == 1);
                assert forall|x: int| 0 <= x < s.len() - m - 1 implies #[trigger] s.skip(m).skip(
                    1,
                )[x] == s.skip(m + 1)[x] by {
                    assert(s.skip(m).skip(1)[x] == s.skip(m)[1 + x]);
                    assert(s.skip(m)[1 + x] == s[m + 1 + x]);
                    assert(s.skip(m + 1)[x] == s[m + 1 + x]);
                }
                assert(s.skip(m).skip(1) =~= s.skip(m + 1));
                assert(final(self)@ =~= s.remove(rank as int));
                assert(s.skip(m).take(1).len() == 1);
                if mid is None {
                    assert(false);
                }
                let b = mid.unwrap();
                b.lemma_root_entry_index();
                assert(b.as_seq() == s.skip(m).take(1));
                assert(b.as_seq()[0] == b.entry());
                assert(s.skip(m).take(1)[0] == s.skip(m)[0]);
                assert(s.skip(m)[0] == s[m]);
            } else {
                assert(m == s.len());
                assert(s.skip(m).len() == 0);
                assert(m2 == 0);
                if mid is Some {
                    let b = mid.unwrap();
                    b.lemma_root_entry_index();
                    assert(b.as_seq().len() >= 1);
                    assert(false);
                }
                assert(s.take(m) =~= s);
                assert(final(self)@ =~= s);
            }
        }
        mid
    }
}

// ---------------------------------------------------------------------------
// The implicit, keyless sequence.
// ---------------------------------------------------------------------------

/// An implicit positional sequence: a tree whose key space is degenerate
/// (every element carries the unit key), ordered purely by rank, using the
/// additive policy and the subtree-size aggregate.
pub type Sequence<V> = Tree<(), V, OrderStatistics, false>;

impl<V> Tree<(), V, OrderStatistics, false> {
    /// Prepend `value`: it becomes the first element.
    pub fn push_left(&mut self, value: V)
        requires
            old(self).well_formed(),
            old(self)@.len() < usize::MAX,
        ensures
            final(self).well_formed(),
            final(self)@ == seq![((), value)] + old(self)@,
    {
        let node = Node::new_boxed((), value);
        let root = self.root.take();
        self.root = Node::merge(node, root);
    }

    /// Append `value`: it becomes the last element.
    pub fn push_right(&mut self, value: V)
        requires
            old(self).well_formed(),
            old(self)@.len() < usize::MAX,
        ensures
            final(self).well_formed(),
            final(self)@ == old(self)@ + seq![((), value)],
    {
        let node = Node::new_boxed((), value);
        let root = self.root.take();
        self.root = Node::merge(root, node);
    }

    /// Land `value` at in-order position `rank`; an out-of-range rank
    /// appends at the end.
    #[verifier::rlimit(60)]
    pub fn insert_at_rank(&mut self, rank: usize, value: V)
        requires
            old(self).well_formed(),
            old(self)@.len() < usize::MAX,
        ensures
            final(self).well_formed(),
            final(self)@ == old(self)@.insert(
                rank_cut(old(self)@.len() as int, rank as int),
                ((), value),
            ),
    {
        let ghost s = old(self)@;
        let ghost m = rank_cut(s.len() as int, rank as int);
        let root = self.root.take();
        let (a, b) = Node::split_by_rank(root, rank);
        let single = Node::new_boxed((), value);
        let left = Node::merge(a, single);
        self.root = Node::merge(left, b);
        proof {
            s.insert_ensures(m, ((), value));
            assert forall|x: int| 0 <= x < s.len() + 1 implies final(self)@[x] == s.insert(
                m,
                ((), value),
            )[x] by {
                if x < m {
                    assert(final(self)@[x] == s.take(m)[x]);
                    assert(s.take(m)[x] == s[x]);
                } else if x == m {
                    assert(final(self)@[x] == ((), value));
                } else {
                    assert(final(self)@[x] == s.skip(m)[x - m - 1]);
                    assert(s.skip(m)[x - m - 1] == s[x - 1]);
                    assert(s.insert(m, ((), value))[(x - 1) + 1] == s[x - 1]);
                }
            }
            assert(final(self)@ =~= s.insert(m, ((), value)));
        }
    }
}

// ---------------------------------------------------------------------------
// Bulk construction: repeated insertion.
// ---------------------------------------------------------------------------

/// What inserting `(k, v)` into a *sorted* sequence yields, as a function:
/// walk past the keys that order strictly before `k`, then overwrite the
/// match in place (collapsing, when one is there) or land in front of the
/// rest.
pub open spec fn model_insert<K: TotalOrder, V>(
    s: Seq<(K, V)>,
    k: K,
    v: V,
    dedup: bool,
) -> Seq<(K, V)>
    decreases s.len(),
{
    if s.len() <= 0 {
        seq![(k, v)]
    } else if spec_lt(s[0].0, k) {
        seq![s[0]] + model_insert(s.skip(1), k, v, dedup)
    } else if dedup && s[0].0 == k {
        s.update(0, (k, v))
    } else {
        seq![(k, v)] + s
    }
}

/// On a sorted sequence the insertion predicate pins the result down to
/// exactly `model_insert`.
pub proof fn lemma_insert_model_fn<K: TotalOrder, V>(
    s: Seq<(K, V)>,
    k: K,
    v: V,
    t: Seq<(K, V)>,
    dedup: bool,
)
    requires
        sorted_le(s),
        dedup ==> sorted_lt(s),
        insert_model(s, k, v, t, dedup),
    ensures
        t == model_insert(s, k, v, dedup),
    decreases s.len(),
{
    if dedup && has_key(s, k) {
        let i = choose|i: int| #![auto] 0 <= i < s.len() && s[i].0 == k && t == s.update(i, (k, v));
        if s[0].0 == k {
            assert(i == 0);
            assert(!spec_lt(s[0].0, k));
            assert(t == model_insert(s, k, v, dedup));
        } else {
            assert(i >= 1);
            assert(spec_lt(s[0].0, k));
            let s1 = s.skip(1);
            let t1 = t.skip(1);
            assert forall|x: int, y: int| 0 <= x < y < s1.len() implies spec_lt(
                (#[trigger] s1[x]).0,
                (#[trigger] s1[y]).0,
            ) by {
                assert(s1[x] == s[x + 1] && s1[y] == s[y + 1]);
            }
            assert(s1[i - 1] == s[i]);
            assert forall|x: int| 0 <= x < t1.len() implies #[trigger] t1[x] == s1.update(
                i - 1,
                (k, v),
            )[x] by {
                assert(t1[x] == t[x + 1]);
                assert(s1[x] == s[x + 1]);
            }
            assert(t1 =~= s1.update(i - 1, (k, v)));
            assert(has_key(s1, k));
            assert(is_insert_dedup(s1, k, v, t1));
            lemma_insert_model_fn(s1, k, v, t1, dedup);
            assert(t[0] == s[0]);
            assert(t =~= seq![s[0]] + t1);
        }
    } else {
        let j = choose|j: int| #![auto] is_insert_add_at(s, k, v, t, j);
        s.insert_ensures(j, (k, v));
        if s.len() == 0 {
            assert(t =~= seq![(k, v)]);
        } else if spec_lt(s[0].0, k) {
            if j == 0 {
                assert(s.skip(0)[0] == s[0]);
                K::lemma_antisymmetric(k, s[0].0);
                assert(false);
            }
            let s1 = s.skip(1);
            let t1 = t.skip(1);
            s1.insert_ensures(j - 1, (k, v));
            assert forall|x: int, y: int| 0 <= x < y < s1.len() implies s1[x].0.le(
                (#[trigger] s1[y]).0,
            ) && (dedup ==> spec_lt((#[trigger] s1[x]).0, s1[y].0)) by {
                assert(s1[x] == s[x + 1] && s1[y] == s[y + 1]);
            }
            assert forall|x: int| 0 <= x < t1.len() implies #[trigger] t1[x] == s1.insert(
                j - 1,
                (k, v),
            )[x] by {
                assert(t1[x] == t[x + 1]);
                if x < j - 1 {
                    assert(t[x + 1] == s[x + 1]);
                    assert(s1[x] == s[x + 1]);
                } else if x == j - 1 {
                } else {
                    assert(t[(x) + 1] == s[x]);
                    assert(s1[(x - 1)] == s[x]);
                }
            }
            assert(t1 =~= s1.insert(j - 1, (k, v)));
            assert forall|x: int| 0 <= x < j - 1 implies spec_lt(
                (#[trigger] s1.take(j - 1)[x]).0,
                k,
            ) by {
                assert(s1.take(j - 1)[x] == s1[x]);
                assert(s1[x] == s[x + 1]);
                assert(s.take(j)[x + 1] == s[x + 1]);
            }
            assert forall|x: int| 0 <= x < s1.len() - (j - 1) implies k.le(
                (#[trigger] s1.skip(j - 1)[x]).0,
            ) by {
                assert(s1.skip(j - 1)[x] == s1[j - 1 + x]);
                assert(s1[j - 1 + x] == s[j + x]);
                assert(s.skip(j)[x] == s[j + x]);
            }
            assert(is_insert_add_at(s1, k, v, t1, j - 1));
            if dedup && has_key(s1, k) {
                let w = choose|w: int| 0 <= w < s1.len() && (#[trigger] s1[w]).0 == k;
                assert(s[w + 1] == s1[w]);
                assert(has_key(s, k));
                assert(false);
            }
            lemma_insert_model_fn(s1, k, v, t1, dedup);
            assert(t[0] == s[0]);
            assert(t =~= seq![s[0]] + t1);
        } else {
            if j != 0 {
                assert(s.take(j)[0] == s[0]);
                assert(false);
            }
            assert(t =~= seq![(k, v)] + s);
            if dedup && s[0].0 == k {
                assert(has_key(s, k));
                assert(false);
            }
        }
    }
}

/// What inserting each entry of `entries`, first to last, into a sorted
/// sequence yields.
pub open spec fn model_extend<K: TotalOrder, V>(
    s: Seq<(K, V)>,
    entries: Seq<(K, V)>,
    dedup: bool,
) -> Seq<(K, V)>
    decreases entries.len(),
{
    if entries.len() <= 0 {
        s
    } else {
        model_extend(model_insert(s, entries[0].0, entries[0].1, dedup), entries.skip(1), dedup)
    }
}

/// Folding one more entry at the end of the chain.
proof fn lemma_model_extend_snoc<K: TotalOrder, V>(
    s: Seq<(K, V)>,
    entries: Seq<(K, V)>,
    e: (K, V),
    dedup: bool,
)
    ensures
        model_extend(s, entries.push(e), dedup) == model_insert(
            model_extend(s, entries, dedup),
            e.0,
            e.1,
            dedup,
        ),
    decreases entries.len(),
{
    if entries.len() <= 0 {
        assert(entries.push(e)[0] == e);
        assert(entries.push(e).skip(1) =~= Seq::<(K, V)>::empty());
        assert(model_extend(model_insert(s, e.0, e.1, dedup), Seq::<(K, V)>::empty(), dedup)
            == model_insert(s, e.0, e.1, dedup));
        assert(model_extend(s, entries, dedup) == s);
    } else {
        assert(entries.push(e)[0] == entries[0]);
        assert(entries.push(e).skip(1) =~= entries.skip(1).push(e));
        lemma_model_extend_snoc(
            model_insert(s, entries[0].0, entries[0].1, dedup),
            entries.skip(1),
            e,
            dedup,
        );
        assert(model_extend(s, entries.push(e), dedup) == model_extend(
            model_insert(s, entries[0].0, entries[0].1, dedup),
            entries.skip(1).push(e),
            dedup,
        ));
        assert(model_extend(s, entries, dedup) == model_extend(
            model_insert(s, entries[0].0, entries[0].1, dedup),
            entries.skip(1),
            dedup,
        ));
    }
}

impl<K: TotalOrder, V, M: Metadata<K, V>, const DEDUP: bool> Tree<K, V, M, DEDUP> {
    /// Bulk construction from a sequence of entries: repeated insertion,
    /// first to last, with no batch optimization.
    pub fn extend(&mut self, entries: Vec<(K, V)>)
        requires
            old(self).well_formed(),
            old(self)@.len() + entries@.len() <= usize::MAX,
        ensures
            final(self).well_formed(),
            final(self)@ == model_extend(old(self)@, entries@, DEDUP),
    {
        let ghost all = entries@;
        let mut entries = entries;
        let ghost done: int = 0;
        proof {
            assert(all.take(0) =~= Seq::<(K, V)>::empty());
        }
        while entries.len() > 0
            invariant
                self.well_formed(),
                0 <= done <= all.len(),
                entries@ == all.skip(done),
                self@.len() <= old(self)@.len() + done,
                old(self)@.len() + all.len() <= usize::MAX,
                self@ == model_extend(old(self)@, all.take(done), DEDUP),
            decreases entries@.len(),
        {
            let ghost pre = self@;
            let (k, v) = entries.remove(0);
            proof {
                assert(all.skip(done)[0] == all[done]);
                assert forall|x: int| 0 <= x < all.len() - done - 1 implies #[trigger] all.skip(
                    done,
                ).remove(0)[x] == all.skip(done + 1)[x] by {
                    all.skip(done).remove_ensures(0);
                    assert(all.skip(done).remove(0)[x] == all.skip(done)[x + 1]);
                    assert(all.skip(done)[x + 1] == all[done + 1 + x]);
                    assert(all.skip(done + 1)[x] == all[done + 1 + x]);
                }
                assert(entries@ =~= all.skip(done + 1));
            }
            self.insert(k, v);
            proof {
                assert(all.take(done + 1) =~= all.take(done).push(all[done]));
                lemma_model_extend_snoc(old(self)@, all.take(done), all[done], DEDUP);
                done = done + 1;
            }
        }
        proof {
            assert(all.take(done) =~= all);
        }
    }
}

impl<K: TotalOrder, V, M: Metadata<K, V>, const DEDUP: bool> Tree<K, V, M, DEDUP> {
    /// Bulk construction of a fresh container from a sequence of entries.
    pub fn from_entries(entries: Vec<(K, V)>) -> (t: Self)
        ensures
            t.well_formed(),
            t@ == model_extend(Seq::<(K, V)>::empty(), entries@, DEDUP),
    {
        let mut t = Self::new();
        proof {
            vstd::std_specs::vec::axiom_spec_len(&entries);
        }
        t.extend(entries);
        t
    }
}

/// An element pushed at either end of a sequence is yielded there by an
/// in-order traversal: first after a push at the front, last after a push at
/// the back.
pub proof fn lemma_push_ends<A>(s: Seq<A>, v: A)
    ensures
        (seq![v] + s)[0] == v,
        (s + seq![v]).last() == v,
{
}

// ---------------------------------------------------------------------------
// Iteration: a lazy, restartable in-order traversal holding an explicit
// pending-ancestor stack instead of recursing, bounding auxiliary memory by
// the tree height.
// ---------------------------------------------------------------------------

/// A lazy in-order traversal.  Each call of `next` yields a reference to
/// the next node of the remaining in-order sequence.
pub struct Iter<'a, K: TotalOrder, V, M: Metadata<K, V>, const DEDUP: bool> {
    stack: Vec<&'a Node<K, V, M, DEDUP>>,
    curr: Option<&'a Node<K, V, M, DEDUP>>,
}

impl<'a, K: TotalOrder, V, M: Metadata<K, V>, const DEDUP: bool> Iter<'a, K, V, M, DEDUP> {
    /// What the pending ancestors still owe the traversal: for each, its own
    /// entry followed by its right subtree, innermost ancestor first.
    closed spec fn stack_remaining(stack: Seq<&'a Node<K, V, M, DEDUP>>) -> Seq<(K, V)>
        decreases stack.len(),
    {
        if stack.len() == 0 {
            Seq::empty()
        } else {
            seq![stack.last().entry()] + Node::seq_of(stack.last().right_subtree())
                + Self::stack_remaining(stack.drop_last())
        }
    }

    /// The entries this traversal has yet to yield, in order.
    pub closed spec fn remaining(self) -> Seq<(K, V)> {
        Node::seq_of_ref(self.curr) + Self::stack_remaining(self.stack@)
    }

    /// Yield the next in-order node, or `None` exactly when the traversal
    /// is exhausted.
    pub fn next(&mut self) -> (r: Option<&'a Node<K, V, M, DEDUP>>)
        ensures
            match r {
                None => old(self).remaining().len() == 0 && final(self).remaining().len() == 0,
                Some(n) => old(self).remaining().len() > 0 && old(self).remaining()[0]
                    == n.entry() && final(self).remaining() == old(self).remaining().skip(1),
            },
    {
        loop
            invariant
                self.remaining() == old(self).remaining(),
            ensures
                self.curr is None,
                self.remaining() == old(self).remaining(),
            decreases Node::height_ref(self.curr),
        {
            match self.curr {
                Some(c) => {
                    let ghost stack0 = self.stack@;
                    self.stack.push(c);
                    self.curr = c.left();
                    proof {
                        assert(self.stack@.drop_last() =~= stack0);
                        assert(self.stack@.last() == c);
                        assert(self.remaining() =~= Node::seq_of_ref(Some(c))
                            + Self::stack_remaining(stack0));
                    }
                },
                None => {
                    break ;
                },
            }
        }
        let ghost stack0 = self.stack@;
        let val = self.stack.pop();
        match val {
            None => {
                self.curr = None;
                proof {
                    assert(self.remaining() =~= Seq::<(K, V)>::empty());
                    assert(old(self).remaining().len() == 0);
                }
                None
            },
            Some(v) => {
                self.curr = v.right();
                proof {
                    assert(stack0.last() == v);
                    assert(self.stack@ =~= stack0.drop_last());
                    assert(Self::stack_remaining(stack0) == seq![v.entry()] + Node::seq_of(
                        v.right_subtree(),
                    ) + Self::stack_remaining(stack0.drop_last()));
                    assert(self.remaining() =~= Self::stack_remaining(stack0).skip(1));
                }
                Some(v)
            },
        }
    }
}

impl<K: TotalOrder, V, M: Metadata<K, V>, const DEDUP: bool> Node<K, V, M, DEDUP> {
    /// The structural height of an optional subtree reference.
    pub open spec fn height_ref(node: Option<&Node<K, V, M, DEDUP>>) -> nat {
        match node {
            None => 0,
            Some(n) => n.height(),
        }
    }

    /// A fresh in-order traversal of this subtree.
    pub fn iter<'a>(node: Option<&'a Node<K, V, M, DEDUP>>) -> (it: Iter<'a, K, V, M, DEDUP>)
        ensures
            it.remaining() == Self::seq_of_ref(node),
    {
        let it = Iter { stack: Vec::new(), curr: node };
        proof {
            assert(it.remaining() =~= Self::seq_of_ref(node));
        }
        it
    }
}

impl<K: TotalOrder, V, M: Metadata<K, V>, const DEDUP: bool> Tree<K, V, M, DEDUP> {
    /// A fresh in-order traversal of the whole tree; each call starts over.
    pub fn iter<'a>(&'a self) -> (it: Iter<'a, K, V, M, DEDUP>)
        ensures
            it.remaining() == self@,
    {
        Node::iter(self.root())
    }
}

/// Relies on `rand::random::<i64>`: draws one value from the process-wide
/// generator.  The result depends on the generator's hidden state, so nothing
/// is stated of it; every caller holds for an arbitrary outcome.
#[verifier::external_body]
fn random_priority() -> i64 {
    rand::random::<i64>()
}

} // verus!
