//! The chunk-membership bit-set that records which lookup dimensions of an
//! instruction draw from a given subtable, and the error kinds that the
//! instruction operations surface.
use vstd::prelude::*;

verus! {

use vstd::set_lib::{set_int_range, lemma_int_range};
use fixedbitset::FixedBitSet;

/// An error surfaced by an instruction operation.
#[derive(Clone, Copy, Debug, PartialEq, Eq, Structural)]
pub enum LassoError {
    /// A caller broke a stated precondition, e.g. an odd chunk bit-width.
    InvalidParameter,
    /// An internal consistency invariant broke, e.g. a value-slice length
    /// mismatch; proving must abort rather than continue.
    InvalidState,
}

#[verifier::external_type_specification]
#[verifier::external_body]
pub struct ExFixedBitSet(FixedBitSet);

/// The set of bit positions that are enabled in a `FixedBitSet`.
pub uninterp spec fn bitset_ones(s: FixedBitSet) -> Set<int>;

/// The length in bits that a `FixedBitSet` was grown to.
pub uninterp spec fn bitset_len(s: FixedBitSet) -> nat;

/// Relies on fixedbitset::FixedBitSet::new: an empty set of length zero.
#[verifier::external_body]
fn fb_new() -> (r: FixedBitSet)
    ensures
        bitset_ones(r) == Set::<int>::empty(),
        bitset_len(r) == 0,
{
    FixedBitSet::new()
}

/// Relies on fixedbitset::FixedBitSet::with_capacity: a set of the given
/// length with every bit clear.
#[verifier::external_body]
fn fb_with_capacity(bits: usize) -> (r: FixedBitSet)
    ensures
        bitset_ones(r) == Set::<int>::empty(),
        bitset_len(r) == bits as nat,
{
    FixedBitSet::with_capacity(bits)
}

/// Relies on fixedbitset::FixedBitSet::union_with: ORs the other set's
/// blocks into this one, growing it first to the larger length.
#[verifier::external_body]
fn fb_union_with(s: &mut FixedBitSet, other: &FixedBitSet)
    ensures
        bitset_ones(*final(s)) == bitset_ones(*old(s)).union(bitset_ones(*other)),
        bitset_len(*final(s)) == if bitset_len(*other) > bitset_len(*old(s)) {
            bitset_len(*other)
        } else {
            bitset_len(*old(s))
        },
{
    s.union_with(other)
}

/// Relies on fixedbitset::FixedBitSet::grow_and_insert: grows the set to
/// cover the bit, then enables it.
#[verifier::external_body]
fn fb_grow_and_insert(s: &mut FixedBitSet, bit: usize)
    requires
        bit < usize::MAX,
    ensures
        bitset_ones(*final(s)) == bitset_ones(*old(s)).insert(bit as int),
        bitset_len(*final(s)) == if bit as nat + 1 > bitset_len(*old(s)) {
            bit as nat + 1
        } else {
            bitset_len(*old(s))
        },
{
    s.grow_and_insert(bit)
}

/// Relies on fixedbitset::FixedBitSet::count_ones over the full range: the
/// number of enabled bits.
#[verifier::external_body]
fn fb_count_ones(s: &FixedBitSet) -> (r: usize)
    requires
        bitset_ones(*s).finite(),
    ensures
        r as nat == bitset_ones(*s).len(),
{
    s.count_ones(..)
}

/// Relies on fixedbitset::FixedBitSet::contains: whether the bit is
/// enabled; bits beyond the length are disabled.
#[verifier::external_body]
fn fb_contains(s: &FixedBitSet, bit: usize) -> (r: bool)
    ensures
        r == bitset_ones(*s).contains(bit as int),
{
    s.contains(bit)
}

/// Relies on fixedbitset::FixedBitSet::ones: iterates the enabled bits in
/// ascending order, each exactly once.
#[verifier::external_body]
fn fb_ones_vec(s: &FixedBitSet) -> (r: Vec<usize>)
    requires
        bitset_ones(*s).finite(),
    ensures
        r@.len() == bitset_ones(*s).len(),
        forall|i: int| 0 <= i < r@.len() ==> bitset_ones(*s).contains(#[trigger] r@[i] as int),
        forall|b: int|
            bitset_ones(*s).contains(b) ==> exists|i: int| 0 <= i < r@.len() && #[trigger] r@[i]
                == b,
        forall|i: int, j: int| 0 <= i < j < r@.len() ==> r@[i] < r@[j],
{
    let mut v: Vec<usize> = Vec::new();
    for bit in s.ones() {
        v.push(bit);
    }
    v
}

/// A fixed-capacity bit-set over the lookup dimensions `[0, C)`, recording
/// which chunk positions of an instruction read from one subtable.
pub struct SubtableIndices {
    pub bitset: FixedBitSet,
}

impl SubtableIndices {
    /// The set of chunk positions this value records.
    pub open spec fn view(self) -> Set<int> {
        bitset_ones(self.bitset)
    }

    /// The bit length the underlying set was grown to.
    pub open spec fn capacity(self) -> nat {
        bitset_len(self.bitset)
    }

    /// Well-formedness: the recorded set is finite and lies within the
    /// grown length.
    pub open spec fn wf(self) -> bool {
        &&& self.view().finite()
        &&& forall|b: int| self.view().contains(b) ==> 0 <= b < self.capacity()
    }

    /// An empty set able to record positions below `capacity`.
    pub fn with_capacity(capacity: usize) -> (r: Self)
        ensures
            r.wf(),
            r.view() == Set::<int>::empty(),
            r.capacity() == capacity as nat,
    {
        SubtableIndices { bitset: fb_with_capacity(capacity) }
    }

    /// Merges the other set's positions into this one.
    pub fn union_with(&mut self, other: &Self)
        requires
            old(self).wf(),
            other.wf(),
        ensures
            final(self).wf(),
            final(self).view() == old(self).view().union(other.view()),
    {
        proof {
            vstd::set_lib::lemma_set_union_finite_iff(self.view(), other.view());
        }
        fb_union_with(&mut self.bitset, &other.bitset);
    }

    /// The recorded positions, in ascending order.
    pub fn iter(&self) -> (r: Vec<usize>)
        requires
            self.wf(),
        ensures
            r@.len() == self.view().len(),
            forall|i: int| 0 <= i < r@.len() ==> self.view().contains(#[trigger] r@[i] as int),
            forall|b: int|
                self.view().contains(b) ==> exists|i: int| 0 <= i < r@.len() && #[trigger] r@[i]
                    == b,
            forall|i: int, j: int| 0 <= i < j < r@.len() ==> r@[i] < r@[j],
    {
        fb_ones_vec(&self.bitset)
    }

    /// How many positions are recorded.
    pub fn len(&self) -> (r: usize)
        requires
            self.wf(),
        ensures
            r as nat == self.view().len(),
    {
        fb_count_ones(&self.bitset)
    }

    /// Whether the given position is recorded.
    pub fn contains(&self, index: usize) -> (r: bool)
        ensures
            r == self.view().contains(index as int),
    {
        fb_contains(&self.bitset, index)
    }

    /// The singleton set holding one position.
    pub fn from_index(index: usize) -> (r: Self)
        requires
            index < usize::MAX,
        ensures
            r.wf(),
            r.view() == Set::<int>::empty().insert(index as int),
    {
        let mut bitset = fb_new();
        fb_grow_and_insert(&mut bitset, index);
        SubtableIndices { bitset }
    }

    /// The set of all positions in `[start, end)`.
    pub fn from_range(start: usize, end: usize) -> (r: Self)
        requires
            start <= end,
        ensures
            r.wf(),
            r.view() == set_int_range(start as int, end as int),
            r.view().len() == end - start,
    {
        let mut bitset = fb_new();
        let mut i: usize = start;
        proof {
            lemma_int_range(start as int, start as int);
            assert(bitset_ones(bitset) =~= set_int_range(start as int, start as int));
        }
        while i < end
            invariant
                start <= i <= end,
                bitset_ones(bitset) == set_int_range(start as int, i as int),
                bitset_len(bitset) == if i > start {
                    i as nat
                } else {
                    0nat
                },
            decreases end - i,
        {
            fb_grow_and_insert(&mut bitset, i);
            proof {
                assert(set_int_range(start as int, i as int).insert(i as int) =~= set_int_range(
                    start as int,
                    i + 1,
                ));
            }
            i = i + 1;
        }
        proof {
            lemma_int_range(start as int, end as int);
        }
        SubtableIndices { bitset }
    }
}

} // verus!
