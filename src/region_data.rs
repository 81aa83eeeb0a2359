//! The digest of a region: aggregate statistics of the items inside it,
//! merged with an associative and commutative `combine`.

use vstd::prelude::*;

verus! {

/// Aggregate statistics of a set of items: the XOR of their hashes, their
/// total size and their number (both wrapping at `2^32`).
#[derive(Clone, Copy, Debug, PartialEq, Eq, Structural)]
pub struct RegionData {
    pub hash: u64,
    pub size: u32,
    pub count: u32,
}

/// Addition modulo `2^32`.
pub open spec fn add_u32(a: u32, b: u32) -> u32 {
    if a as int + b as int <= u32::MAX {
        (a + b) as u32
    } else {
        (a + b - 0x1_0000_0000) as u32
    }
}

impl RegionData {
    /// The digest of the empty set of items.
    pub open spec fn spec_zero() -> RegionData {
        RegionData { hash: 0, size: 0, count: 0 }
    }

    /// The digest of the union of two disjoint sets of items.
    pub open spec fn spec_combine(self, other: RegionData) -> RegionData {
        RegionData {
            hash: self.hash ^ other.hash,
            size: add_u32(self.size, other.size),
            count: add_u32(self.count, other.count),
        }
    }

    /// The digest of the empty set of items.
    pub fn zero() -> (r: RegionData)
        ensures
            r == RegionData::spec_zero(),
    {
        RegionData { hash: 0, size: 0, count: 0 }
    }

    /// The digest of the union of two disjoint sets of items.
    pub fn combine(&self, other: &RegionData) -> (r: RegionData)
        ensures
            r == self.spec_combine(*other),
    {
        RegionData {
            hash: self.hash ^ other.hash,
            size: self.size.wrapping_add(other.size),
            count: self.count.wrapping_add(other.count),
        }
    }
}

/// Combining digests does not depend on the order of the operands.
pub proof fn lemma_combine_commutative(a: RegionData, b: RegionData)
    ensures
        a.spec_combine(b) == b.spec_combine(a),
{
    let (x, y) = (a.hash, b.hash);
    assert(x ^ y == y ^ x) by (bit_vector);
}

/// Combining digests does not depend on how the operands are grouped.
pub proof fn lemma_combine_associative(a: RegionData, b: RegionData, c: RegionData)
    ensures
        a.spec_combine(b).spec_combine(c) == a.spec_combine(b.spec_combine(c)),
{
    let (x, y, z) = (a.hash, b.hash, c.hash);
    assert((x ^ y) ^ z == x ^ (y ^ z)) by (bit_vector);
}

/// The digest of the empty set is neutral for `combine`.
pub proof fn lemma_combine_zero(a: RegionData)
    ensures
        RegionData::spec_zero().spec_combine(a) == a,
        a.spec_combine(RegionData::spec_zero()) == a,
{
    let x = a.hash;
    assert(0u64 ^ x == x) by (bit_vector);
    assert(x ^ 0u64 == x) by (bit_vector);
}

/// The combined digest of a sequence of digests, folded from the left.
pub open spec fn spec_sum(s: Seq<RegionData>) -> RegionData
    decreases s.len(),
{
    if s.len() == 0 {
        RegionData::spec_zero()
    } else {
        spec_sum(s.drop_last()).spec_combine(s.last())
    }
}

/// The sum of one digest is that digest.
pub proof fn lemma_sum_single(s: Seq<RegionData>)
    requires
        s.len() == 1,
    ensures
        spec_sum(s) == s[0],
{
    assert(s.drop_last().len() == 0);
    assert(spec_sum(s.drop_last()) == RegionData::spec_zero());
    lemma_combine_zero(s[0]);
}

} // verus!
