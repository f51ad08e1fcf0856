use vstd::prelude::*;

verus! {

/// Outcome of a three-way comparison between two keys.
#[derive(Debug, Clone, Copy, PartialEq, Eq, Structural)]
pub enum Cmp {
    Less,
    Equal,
    Greater,
}

/// A total order on a key type: a reflexive, transitive, antisymmetric and
/// total relation `le`, together with an executable three-way comparison
/// that decides it.  The tree engine orders its keys through this trait.
pub trait TotalOrder: Sized {
    /// The ordering relation itself, at the specification level.
    spec fn le(self, other: Self) -> bool;

    proof fn lemma_reflexive(x: Self)
        ensures
            Self::le(x, x),
    ;

    proof fn lemma_transitive(x: Self, y: Self, z: Self)
        requires
            Self::le(x, y),
            Self::le(y, z),
        ensures
            Self::le(x, z),
    ;

    proof fn lemma_antisymmetric(x: Self, y: Self)
        requires
            Self::le(x, y),
            Self::le(y, x),
        ensures
            x == y,
    ;

    proof fn lemma_total(x: Self, y: Self)
        ensures
            Self::le(x, y) || Self::le(y, x),
    ;

    /// Decide the order of two keys.
    fn compare(&self, other: &Self) -> (c: Cmp)
        ensures
            c == Cmp::Less ==> self.le(*other) && *self != *other,
            c == Cmp::Equal ==> *self == *other,
            c == Cmp::Greater ==> other.le(*self) && *self != *other,
    ;
}

/// Strict order derived from `TotalOrder::le`.
pub open spec fn spec_lt<K: TotalOrder>(a: K, b: K) -> bool {
    a.le(b) && a != b
}

/// A strict bound followed by a weak one stays strict.
pub proof fn lemma_lt_le_lt<K: TotalOrder>(a: K, b: K, c: K)
    requires
        spec_lt(a, b),
        b.le(c),
    ensures
        spec_lt(a, c),
{
    K::lemma_transitive(a, b, c);
    if a == c {
        K::lemma_antisymmetric(a, b);
    }
}

/// A weak bound followed by a strict one stays strict.
pub proof fn lemma_le_lt_lt<K: TotalOrder>(a: K, b: K, c: K)
    requires
        a.le(b),
        spec_lt(b, c),
    ensures
        spec_lt(a, c),
{
    K::lemma_transitive(a, b, c);
    if a == c {
        K::lemma_antisymmetric(b, c);
    }
}

impl TotalOrder for i64 {
    open spec fn le(self, other: Self) -> bool {
        self <= other
    }

    proof fn lemma_reflexive(x: Self) {
    }

    proof fn lemma_transitive(x: Self, y: Self, z: Self) {
    }

    proof fn lemma_antisymmetric(x: Self, y: Self) {
    }

    proof fn lemma_total(x: Self, y: Self) {
    }

    fn compare(&self, other: &Self) -> (c: Cmp) {
        if *self < *other {
            Cmp::Less
        } else if *self > *other {
            Cmp::Greater
        } else {
            Cmp::Equal
        }
    }
}

impl TotalOrder for i32 {
    open spec fn le(self, other: Self) -> bool {
        self <= other
    }

    proof fn lemma_reflexive(x: Self) {
    }

    proof fn lemma_transitive(x: Self, y: Self, z: Self) {
    }

    proof fn lemma_antisymmetric(x: Self, y: Self) {
    }

    proof fn lemma_total(x: Self, y: Self) {
    }

    fn compare(&self, other: &Self) -> (c: Cmp) {
        if *self < *other {
            Cmp::Less
        } else if *self > *other {
            Cmp::Greater
        } else {
            Cmp::Equal
        }
    }
}

impl TotalOrder for u64 {
    open spec fn le(self, other: Self) -> bool {
        self <= other
    }

    proof fn lemma_reflexive(x: Self) {
    }

    proof fn lemma_transitive(x: Self, y: Self, z: Self) {
    }

    proof fn lemma_antisymmetric(x: Self, y: Self) {
    }

    proof fn lemma_total(x: Self, y: Self) {
    }

    fn compare(&self, other: &Self) -> (c: Cmp) {
        if *self < *other {
            Cmp::Less
        } else if *self > *other {
            Cmp::Greater
        } else {
            Cmp::Equal
        }
    }
}

/// The degenerate key of implicit sequences: all keys are equal, so every
/// comparison answers `Equal` and the order relation always holds.
impl TotalOrder for () {
    open spec fn le(self, other: Self) -> bool {
        true
    }

    proof fn lemma_reflexive(x: Self) {
    }

    proof fn lemma_transitive(x: Self, y: Self, z: Self) {
    }

    proof fn lemma_antisymmetric(x: Self, y: Self) {
    }

    proof fn lemma_total(x: Self, y: Self) {
    }

    fn compare(&self, other: &Self) -> (c: Cmp) {
        Cmp::Equal
    }
}

} // verus!
