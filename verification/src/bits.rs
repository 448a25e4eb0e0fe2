//! Trusted interface to the fixed-size bit set that reaching-definitions
//! facts are stored in. Each wrapper states, over the bit sequence
//! `bit_seq`, what the named library call does; everything above this file
//! is verified against these contracts.

use fixedbitset::FixedBitSet;
use vstd::prelude::*;

verus! {

#[verifier::external_type_specification]
#[verifier::external_body]
pub struct ExFixedBitSet(FixedBitSet);

/// The bits a set holds, in index order; its length is the set's capacity.
pub uninterp spec fn bit_seq(s: FixedBitSet) -> Seq<bool>;

/// Relies on FixedBitSet::with_capacity: `bits` bits, all initially clear.
#[verifier::external_body]
pub fn bits_new(bits: usize) -> (r: FixedBitSet)
    ensures
        bit_seq(r) == Seq::new(bits as nat, |i: int| false),
{
    FixedBitSet::with_capacity(bits)
}

/// Relies on FixedBitSet::len: the number of bits the set holds.
#[verifier::external_body]
pub fn bits_len(s: &FixedBitSet) -> (r: usize)
    ensures
        r == bit_seq(*s).len(),
{
    s.len()
}

/// Relies on FixedBitSet::contains: the bit's value, false out of range.
#[verifier::external_body]
pub fn bits_contains(s: &FixedBitSet, bit: usize) -> (r: bool)
    ensures
        r == (bit < bit_seq(*s).len() && bit_seq(*s)[bit as int]),
{
    s.contains(bit)
}

/// Relies on FixedBitSet::set, which panics out of range (excluded here).
#[verifier::external_body]
pub fn bits_set(s: &mut FixedBitSet, bit: usize, enabled: bool)
    requires
        bit < bit_seq(*old(s)).len(),
    ensures
        bit_seq(*final(s)) == bit_seq(*old(s)).update(bit as int, enabled),
{
    s.set(bit, enabled)
}

/// Relies on FixedBitSet::union_with: bitwise or; with equal capacities the
/// capacity is unchanged.
#[verifier::external_body]
pub fn bits_union_with(s: &mut FixedBitSet, other: &FixedBitSet)
    requires
        bit_seq(*old(s)).len() == bit_seq(*other).len(),
    ensures
        bit_seq(*final(s)) == Seq::new(
            bit_seq(*old(s)).len(),
            |i: int| bit_seq(*old(s))[i] || bit_seq(*other)[i],
        ),
{
    s.union_with(other)
}

/// Relies on FixedBitSet::intersect_with: bitwise and; the capacity is
/// unchanged.
#[verifier::external_body]
pub fn bits_intersect_with(s: &mut FixedBitSet, other: &FixedBitSet)
    requires
        bit_seq(*old(s)).len() == bit_seq(*other).len(),
    ensures
        bit_seq(*final(s)) == Seq::new(
            bit_seq(*old(s)).len(),
            |i: int| bit_seq(*old(s))[i] && bit_seq(*other)[i],
        ),
{
    s.intersect_with(other)
}

/// Relies on FixedBitSet::toggle_range over the full range: every bit is
/// inverted.
#[verifier::external_body]
pub fn bits_toggle_all(s: &mut FixedBitSet)
    ensures
        bit_seq(*final(s)) == Seq::new(bit_seq(*old(s)).len(), |i: int| !bit_seq(*old(s))[i]),
{
    s.toggle_range(..)
}

/// Relies on FixedBitSet::clone: the copy holds the same bits.
#[verifier::external_body]
pub fn bits_clone(s: &FixedBitSet) -> (r: FixedBitSet)
    ensures
        bit_seq(r) == bit_seq(*s),
{
    s.clone()
}

/// Whether two bit sets hold exactly the same bits, verified bit by bit.
pub fn bits_equal(a: &FixedBitSet, b: &FixedBitSet) -> (r: bool)
    ensures
        r == (bit_seq(*a) == bit_seq(*b)),
{
    let n = bits_len(a);
    if n != bits_len(b) {
        proof {
            assert(bit_seq(*a).len() != bit_seq(*b).len());
        }
        return false;
    }
    let mut i: usize = 0;
    while i < n
        invariant
            i <= n,
            n == bit_seq(*a).len(),
            n == bit_seq(*b).len(),
            forall|j: int| 0 <= j < i ==> bit_seq(*a)[j] == bit_seq(*b)[j],
        decreases n - i,
    {
        if bits_contains(a, i) != bits_contains(b, i) {
            return false;
        }
        i += 1;
    }
    proof {
        assert(bit_seq(*a) =~= bit_seq(*b));
    }
    true
}

} // verus!
