//! A store of items that answers the aggregate digest of a region.

use crate::quantum::{Loc, RegionCoords, SpaceSegment, SpacetimeQuanta, Timestamp, Topology};
use crate::region_data::{lemma_combine_associative, lemma_combine_commutative, lemma_combine_zero, RegionData};
use vstd::prelude::*;

verus! {

/// An item: where and when it is, its size and its hash.
#[derive(Clone, Copy, Debug, PartialEq, Eq, Structural)]
pub struct OpData {
    pub loc: Loc,
    pub timestamp: Timestamp,
    pub size: u32,
    pub hash: u64,
}

impl OpData {
    /// The hash that [`OpData::fake`] gives an item at `loc` and `timestamp`.
    pub open spec fn spec_fake_hash(loc: Loc, timestamp: Timestamp) -> u64 {
        ((loc as u64 * 0x1_0000_0000) as u64) ^ (timestamp as u64)
    }

    /// An item whose hash is made up from its location and timestamp.
    pub fn fake(loc: Loc, timestamp: Timestamp, size: u32) -> (r: OpData)
        ensures
            r == (OpData { loc, timestamp, size, hash: OpData::spec_fake_hash(loc, timestamp) }),
    {
        let high: u64 = loc as u64 * 0x1_0000_0000;
        OpData { loc, timestamp, size, hash: high ^ (timestamp as u64) }
    }

    /// The grid point of the item.
    pub open spec fn spec_coords(&self, topo: Topology) -> SpacetimeQuanta {
        SpacetimeQuanta {
            space: topo.spec_space_quantum(self.loc) as u32,
            time: topo.spec_time_quantum(self.timestamp) as u32,
        }
    }

    /// The digest of this item alone.
    pub open spec fn spec_region_data(&self) -> RegionData {
        RegionData { hash: self.hash, size: self.size, count: 1 }
    }

    /// The grid point of the item.
    pub fn coords(&self, topo: &Topology) -> (r: SpacetimeQuanta)
        requires
            topo.wf(),
        ensures
            r == self.spec_coords(*topo),
    {
        SpacetimeQuanta { space: topo.space_quantum(self.loc), time: topo.time_quantum(self.timestamp) }
    }

    /// The digest of this item alone.
    pub fn region_data(&self) -> (r: RegionData)
        ensures
            r == self.spec_region_data(),
    {
        RegionData { hash: self.hash, size: self.size, count: 1 }
    }
}

/// The digest of the items of `ops` that lie in `coords`, folded in order.
pub open spec fn spec_query(topo: Topology, ops: Seq<OpData>, coords: RegionCoords) -> RegionData
    decreases ops.len(),
{
    if ops.len() == 0 {
        RegionData::spec_zero()
    } else {
        let prev = spec_query(topo, ops.drop_last(), coords);
        if coords.spec_contains(topo, ops.last().spec_coords(topo)) {
            prev.spec_combine(ops.last().spec_region_data())
        } else {
            prev
        }
    }
}

/// An in-memory store of items over a topology.
#[derive(Clone, Debug)]
pub struct OpStore {
    pub topo: Topology,
    pub ops: Vec<OpData>,
}

impl OpStore {
    /// An empty store.
    pub fn new(topo: Topology) -> (r: OpStore)
        ensures
            r.topo == topo,
            r.ops@ == Seq::<OpData>::empty(),
    {
        OpStore { topo, ops: Vec::new() }
    }

    /// Adds the items to the store, after those already in it.
    pub fn integrate_ops(&mut self, ops: Vec<OpData>)
        ensures
            final(self).topo == old(self).topo,
            final(self).ops@ == old(self).ops@ + ops@,
    {
        let mut i: usize = 0;
        while i < ops.len()
            invariant
                i <= ops.len(),
                self.topo == old(self).topo,
                self.ops@ == old(self).ops@ + ops@.subrange(0, i as int),
            decreases ops.len() - i,
        {
            self.ops.push(ops[i]);
            i = i + 1;
            proof {
                assert(ops@.subrange(0, i as int) == ops@.subrange(0, i - 1).push(ops@[i - 1]));
            }
        }
        proof {
            assert(ops@.subrange(0, ops.len() as int) == ops@);
        }
    }

    /// The aggregate digest of the items whose grid point lies in `coords`.
    pub fn query_region_coords(&self, coords: &RegionCoords) -> (r: RegionData)
        requires
            self.topo.wf(),
            coords.fits(self.topo),
        ensures
            r == spec_query(self.topo, self.ops@, *coords),
    {
        let mut acc = RegionData::zero();
        let mut i: usize = 0;
        while i < self.ops.len()
            invariant
                i <= self.ops.len(),
                self.topo.wf(),
                coords.fits(self.topo),
                acc == spec_query(self.topo, self.ops@.subrange(0, i as int), *coords),
            decreases self.ops.len() - i,
        {
            let op = self.ops[i];
            let c = op.coords(&self.topo);
            if coords.contains(&self.topo, &c) {
                acc = acc.combine(&op.region_data());
            }
            proof {
                let s = self.ops@.subrange(0, i + 1);
                assert(s.drop_last() == self.ops@.subrange(0, i as int));
                assert(s.last() == op);
            }
            i = i + 1;
        }
        proof {
            assert(self.ops@.subrange(0, self.ops.len() as int) == self.ops@);
        }
        acc
    }
}

/// The digest of the items of `ops` in spatial segment `space` whose
/// temporal quantum lies in `[lo, hi)`, folded in order.
pub open spec fn spec_query_span(topo: Topology, ops: Seq<OpData>, space: SpaceSegment, lo: int, hi: int) -> RegionData
    decreases ops.len(),
{
    if ops.len() == 0 {
        RegionData::spec_zero()
    } else {
        let prev = spec_query_span(topo, ops.drop_last(), space, lo, hi);
        let c = ops.last().spec_coords(topo);
        if space.spec_contains(topo, c.space as nat) && lo <= c.time < hi {
            prev.spec_combine(ops.last().spec_region_data())
        } else {
            prev
        }
    }
}

/// A region query is a query over the span of its time window.
pub proof fn lemma_query_is_span(topo: Topology, ops: Seq<OpData>, coords: RegionCoords)
    ensures
        spec_query(topo, ops, coords)
            == spec_query_span(topo, ops, coords.space, coords.time.start(), coords.time.end()),
    decreases ops.len(),
{
    if ops.len() > 0 {
        lemma_query_is_span(topo, ops.drop_last(), coords);
    }
}

/// The digest over `[lo, hi)` is the digest over `[lo, mid)` combined with
/// the digest over `[mid, hi)`.
pub proof fn lemma_span_split(topo: Topology, ops: Seq<OpData>, space: SpaceSegment, lo: int, mid: int, hi: int)
    requires
        lo <= mid <= hi,
    ensures
        spec_query_span(topo, ops, space, lo, hi)
            == spec_query_span(topo, ops, space, lo, mid).spec_combine(spec_query_span(topo, ops, space, mid, hi)),
    decreases ops.len(),
{
    if ops.len() == 0 {
        lemma_combine_zero(RegionData::spec_zero());
    } else {
        let o = ops.drop_last();
        lemma_span_split(topo, o, space, lo, mid, hi);
        let p = spec_query_span(topo, o, space, lo, mid);
        let q = spec_query_span(topo, o, space, mid, hi);
        let d = ops.last().spec_region_data();
        lemma_combine_associative(p, q, d);
        lemma_combine_associative(p, d, q);
        lemma_combine_commutative(d, q);
    }
}

} // verus!
