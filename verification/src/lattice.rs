//! The lattice algebra used by the dataflow engine: a semilattice contract,
//! a flat lattice for abstract single values, and a product-lattice view for
//! bit-vector-shaped facts.

use vstd::prelude::*;

verus! {

/// A join-semilattice. `meet` is the pure join; `meet_with` is the in-place
/// variant that reports whether the stored fact was altered, which is what
/// the fixed-point solver uses to detect convergence.
pub trait SemiLattice: Sized {
    /// Whether two facts belong to the same lattice (e.g. equal widths).
    spec fn joinable(&self, other: &Self) -> bool;

    /// Whether two facts denote the same abstract value.
    spec fn same_fact(&self, other: &Self) -> bool;

    /// What it means for `r` to be the join of `self` and `other`.
    spec fn is_meet(&self, other: &Self, r: &Self) -> bool;

    fn meet(&self, other: &Self) -> (r: Self)
        requires
            self.joinable(other),
        ensures
            self.is_meet(other, &r),
    ;

    fn meet_with(&mut self, other: &Self) -> (changed: bool)
        requires
            old(self).joinable(other),
        ensures
            old(self).is_meet(other, final(self)),
            changed == !old(self).same_fact(final(self)),
    ;
}

/// The two-element-plus-bottom lattice over abstract values: `Top` is
/// unconstrained, `Value(v)` is exactly `v`, `Bottom` is contradictory.
#[derive(Debug)]
pub enum FlatLattice<T> {
    Top,
    Value(T),
    Bottom,
}

/// Model of a [`FlatLattice`] fact over the model of its value type.
pub enum FlatV<M> {
    Top,
    Value(M),
    Bottom,
}

impl<T: View> View for FlatLattice<T> {
    type V = FlatV<<T as View>::V>;

    open spec fn view(&self) -> FlatV<<T as View>::V> {
        match self {
            FlatLattice::Top => FlatV::Top,
            FlatLattice::Value(v) => FlatV::Value(v@),
            FlatLattice::Bottom => FlatV::Bottom,
        }
    }
}

/// The join of two flat facts: `Top` yields the other operand, two distinct
/// concrete values contradict each other.
pub open spec fn flat_meet<M>(a: FlatV<M>, b: FlatV<M>) -> FlatV<M> {
    match a {
        FlatV::Top => b,
        FlatV::Bottom => FlatV::Bottom,
        FlatV::Value(x) => match b {
            FlatV::Top => FlatV::Value(x),
            FlatV::Bottom => FlatV::Bottom,
            FlatV::Value(y) => if x == y {
                FlatV::Value(x)
            } else {
                FlatV::Bottom
            },
        },
    }
}

/// A fact that behaves as an indexable array of sub-lattice values, used to
/// inspect bit-vector-shaped facts one position at a time.
pub trait ProductLattice<T> {
    /// The component values, in index order.
    spec fn components(&self) -> Seq<T>;

    fn get(&self, index: usize) -> (r: Option<T>)
        ensures
            r == if index < self.components().len() {
                Some(self.components()[index as int])
            } else {
                None::<T>
            },
    ;
}

impl SemiLattice for bool {
    open spec fn joinable(&self, other: &bool) -> bool {
        true
    }

    open spec fn same_fact(&self, other: &bool) -> bool {
        self == other
    }

    open spec fn is_meet(&self, other: &bool, r: &bool) -> bool {
        *r == (*self || *other)
    }

    fn meet(&self, other: &bool) -> (r: bool) {
        *self || *other
    }

    fn meet_with(&mut self, other: &bool) -> (changed: bool) {
        let joined = *self || *other;
        let changed = joined != *self;
        *self = joined;
        changed
    }
}

} // verus!
