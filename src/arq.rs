//! Quantized arcs of the ring: a start, a power-of-two chunk size and a
//! number of chunks.

use crate::quantum::{pow2_u64, Loc, SpaceSegment, Topology};
use vstd::arithmetic::power2::{lemma2_to64, lemma_pow2_adds, lemma_pow2_pos, pow2};
use vstd::prelude::*;

verus! {

/// An arc that starts at a location: `count` chunks of `2^power` spatial quanta.
#[derive(Clone, Copy, Debug, PartialEq, Eq, Structural)]
pub struct Arq {
    pub start: Loc,
    pub power: u8,
    pub count: u32,
}

/// An arc whose start is a chunk number: `count` chunks of `2^power`
/// spatial quanta, from chunk `start` on, wrapping around the ring.
#[derive(Clone, Copy, Debug, PartialEq, Eq, Structural)]
pub struct ArqBounds {
    pub start: u32,
    pub power: u8,
    pub count: u32,
}

/// The number of locations in a chunk of `power`.
pub open spec fn chunk_size(topo: Topology, power: u8) -> nat {
    pow2((topo.space_pow + power) as nat)
}

/// The number of chunks of `power` around the ring.
pub open spec fn num_chunks(topo: Topology, power: u8) -> nat {
    pow2((32 - topo.space_pow - power) as nat)
}

proof fn lemma_chunks(topo: Topology, power: u8)
    requires
        topo.wf(),
        topo.space_pow + power <= 32,
    ensures
        chunk_size(topo, power) * num_chunks(topo, power) == 0x1_0000_0000,
        chunk_size(topo, power) > 0,
        num_chunks(topo, power) > 0,
        chunk_size(topo, power) == topo.space_quantum_size() * pow2(power as nat),
{
    lemma_pow2_adds((topo.space_pow + power) as nat, (32 - topo.space_pow - power) as nat);
    lemma_pow2_adds(topo.space_pow as nat, power as nat);
    lemma_pow2_pos((topo.space_pow + power) as nat);
    lemma_pow2_pos((32 - topo.space_pow - power) as nat);
    lemma2_to64();
}

impl Arq {
    pub fn new(start: Loc, power: u8, count: u32) -> (r: Arq)
        ensures
            r == (Arq { start, power, count }),
    {
        Arq { start, power, count }
    }

    pub fn count(&self) -> (r: u32)
        ensures
            r == self.count,
    {
        self.count
    }

    /// The arc fits on the ring of the topology.
    pub open spec fn fits(&self, topo: Topology) -> bool {
        self.power as nat + topo.space_pow as nat <= 32
    }

    /// The arc over whole chunks whose first chunk holds `start`.
    pub open spec fn spec_to_bounds(&self, topo: Topology) -> ArqBounds {
        ArqBounds {
            start: (topo.spec_space_quantum(self.start) / pow2(self.power as nat)) as u32,
            power: self.power,
            count: self.count,
        }
    }

    /// The arc over whole chunks whose first chunk holds `start`.
    pub fn to_bounds(&self, topo: &Topology) -> (r: ArqBounds)
        requires
            topo.wf(),
            self.fits(*topo),
        ensures
            r == self.spec_to_bounds(*topo),
            r.fits(*topo),
    {
        let q = topo.space_quantum(self.start);
        let size = pow2_u64(self.power as u32);
        proof {
            lemma_pow2_pos(self.power as nat);
            assert(q as nat / size as nat <= q as nat) by {
                vstd::arithmetic::div_mod::lemma_div_is_ordered_by_denominator(q as int, 1, size as int);
            }
        }
        ArqBounds { start: (q as u64 / size) as u32, power: self.power, count: self.count }
    }

    /// The first and the last location the arc covers.
    pub fn to_edge_locs(&self, topo: &Topology) -> (r: (Loc, Loc))
        requires
            topo.wf(),
            self.fits(*topo),
        ensures
            r == self.spec_to_bounds(*topo).spec_edge_locs(*topo),
    {
        self.to_bounds(topo).to_edge_locs(topo)
    }
}

impl ArqBounds {
    pub fn new(start: u32, power: u8, count: u32) -> (r: ArqBounds)
        ensures
            r == (ArqBounds { start, power, count }),
    {
        ArqBounds { start, power, count }
    }

    pub fn count(&self) -> (r: u32)
        ensures
            r == self.count,
    {
        self.count
    }

    /// The arc fits on the ring of the topology.
    pub open spec fn fits(&self, topo: Topology) -> bool {
        self.power as nat + topo.space_pow as nat <= 32
    }

    /// The `count` chunks of the arc, in order from its start.
    pub open spec fn spec_segments(&self) -> Seq<SpaceSegment> {
        Seq::new(
            self.count as nat,
            |i: int| SpaceSegment { power: self.power, offset: ((self.start + i) % 0x1_0000_0000) as u32 },
        )
    }

    /// The `count` chunks of the arc, in order from its start.
    pub fn segments(&self) -> (r: Vec<SpaceSegment>)
        ensures
            r@ == self.spec_segments(),
    {
        let mut out: Vec<SpaceSegment> = Vec::new();
        let mut i: u32 = 0;
        while i < self.count
            invariant
                i <= self.count,
                out@ == self.spec_segments().subrange(0, i as int),
            decreases self.count - i,
        {
            let offset = ((self.start as u64 + i as u64) % 0x1_0000_0000) as u32;
            out.push(SpaceSegment { power: self.power, offset });
            i = i + 1;
            proof {
                assert(out@ =~= self.spec_segments().subrange(0, i as int));
            }
        }
        proof {
            assert(out@ =~= self.spec_segments());
        }
        out
    }

    /// The number of locations the arc covers: `count` chunks.
    pub fn absolute_length(&self, topo: &Topology) -> (r: u64)
        requires
            topo.wf(),
            self.fits(*topo),
        ensures
            r == self.count * chunk_size(*topo, self.power),
    {
        let cs = pow2_u64((topo.space_pow + self.power) as u32);
        proof {
            lemma_chunks(*topo, self.power);
            lemma2_to64();
            vstd::arithmetic::power2::lemma_pow2_strictly_increases(
                (topo.space_pow + self.power) as nat, 33);
            assert(self.count * cs <= 0xFFFF_FFFF * 0x1_0000_0000) by (nonlinear_arith)
                requires self.count <= 0xFFFF_FFFF, cs <= 0x1_0000_0000;
        }
        self.count as u64 * cs
    }

    /// The first and the last location the arc covers, counted around the ring.
    pub open spec fn spec_edge_locs(&self, topo: Topology) -> (Loc, Loc) {
        let cs = chunk_size(topo, self.power) as int;
        let first = (self.start as int % num_chunks(topo, self.power) as int) * cs;
        (first as u32, ((first + self.count * cs + 0xFFFF_FFFF) % 0x1_0000_0000) as u32)
    }

    /// The first and the last location the arc covers, counted around the ring.
    pub fn to_edge_locs(&self, topo: &Topology) -> (r: (Loc, Loc))
        requires
            topo.wf(),
            self.fits(*topo),
        ensures
            r == self.spec_edge_locs(*topo),
    {
        let cs = pow2_u64((topo.space_pow + self.power) as u32);
        let n = pow2_u64((32 - topo.space_pow - self.power) as u32);
        proof {
            lemma_chunks(*topo, self.power);
        }
        let c0: u64 = self.start as u64 % n;
        let k: u64 = self.count as u64 % n;
        proof {
            let cs_ = cs as int;
            let n_ = n as int;
            assert(c0 * cs_ < n_ * cs_) by (nonlinear_arith)
                requires c0 < n_, cs_ > 0;
            assert(k * cs_ < n_ * cs_) by (nonlinear_arith)
                requires k < n_, cs_ > 0;
            assert(n_ * cs_ == cs_ * n_) by (nonlinear_arith);
            vstd::arithmetic::div_mod::lemma_fundamental_div_mod(self.count as int, n_);
            let q = self.count as int / n_;
            assert(self.count * cs_ == q * 0x1_0000_0000 + k * cs_) by (nonlinear_arith)
                requires self.count == n_ * q + k, n_ * cs_ == 0x1_0000_0000;
            let first = c0 * cs_;
            vstd::arithmetic::div_mod::lemma_mod_multiples_vanish(
                q, first + k * cs_ + 0xFFFF_FFFF, 0x1_0000_0000);
        }
        let first: u64 = c0 * cs;
        let last: u64 = (first + k * cs + 0xFFFF_FFFF) % 0x1_0000_0000;
        (first as u32, last as u32)
    }
}

/// An ordered list of arcs.
#[derive(Clone, Debug)]
pub struct ArqBoundsSet {
    pub arqs: Vec<ArqBounds>,
}

impl PartialEq for ArqBoundsSet {
    fn eq(&self, other: &ArqBoundsSet) -> (r: bool) {
        if self.arqs.len() != other.arqs.len() {
            return false;
        }
        let mut i: usize = 0;
        while i < self.arqs.len()
            invariant
                i <= self.arqs.len() == other.arqs.len(),
                self.arqs@.subrange(0, i as int) == other.arqs@.subrange(0, i as int),
            decreases self.arqs.len() - i,
        {
            if self.arqs[i] != other.arqs[i] {
                proof {
                    assert(self.arqs@[i as int] != other.arqs@[i as int]);
                }
                return false;
            }
            i = i + 1;
            proof {
                assert(self.arqs@.subrange(0, i as int) =~= self.arqs@.subrange(0, i - 1).push(self.arqs@[i - 1]));
                assert(other.arqs@.subrange(0, i as int) =~= other.arqs@.subrange(0, i - 1).push(other.arqs@[i - 1]));
            }
        }
        proof {
            assert(self.arqs@ =~= self.arqs@.subrange(0, i as int));
            assert(other.arqs@ =~= other.arqs@.subrange(0, i as int));
        }
        true
    }
}

impl vstd::std_specs::cmp::PartialEqSpecImpl for ArqBoundsSet {
    open spec fn obeys_eq_spec() -> bool {
        true
    }

    open spec fn eq_spec(&self, other: &ArqBoundsSet) -> bool {
        self.arqs@ == other.arqs@
    }
}

/// The total number of chunks of a list of arcs.
pub open spec fn total_segments(arqs: Seq<ArqBounds>) -> nat
    decreases arqs.len(),
{
    if arqs.len() == 0 {
        0
    } else {
        total_segments(arqs.drop_last()) + arqs.last().count as nat
    }
}

/// The chunks of a list of arcs, arc by arc.
pub open spec fn all_segments(arqs: Seq<ArqBounds>) -> Seq<SpaceSegment>
    decreases arqs.len(),
{
    if arqs.len() == 0 {
        Seq::empty()
    } else {
        all_segments(arqs.drop_last()) + arqs.last().spec_segments()
    }
}

pub proof fn lemma_all_segments_len(arqs: Seq<ArqBounds>)
    ensures
        all_segments(arqs).len() == total_segments(arqs),
    decreases arqs.len(),
{
    if arqs.len() > 0 {
        lemma_all_segments_len(arqs.drop_last());
    }
}

impl ArqBoundsSet {
    pub fn new(arqs: Vec<ArqBounds>) -> (r: ArqBoundsSet)
        ensures
            r.arqs@ == arqs@,
    {
        ArqBoundsSet { arqs }
    }

    /// The set of one arc.
    pub fn single(arq: ArqBounds) -> (r: ArqBoundsSet)
        ensures
            r.arqs@ == seq![arq],
    {
        ArqBoundsSet { arqs: vec![arq] }
    }

    /// The set of no arcs.
    pub fn empty() -> (r: ArqBoundsSet)
        ensures
            r.arqs@ == Seq::<ArqBounds>::empty(),
    {
        ArqBoundsSet { arqs: Vec::new() }
    }

    pub fn arqs(&self) -> (r: &Vec<ArqBounds>)
        ensures
            r@ == self.arqs@,
    {
        &self.arqs
    }

    /// Every arc fits on the ring of the topology.
    pub open spec fn fits(&self, topo: Topology) -> bool {
        forall|i: int| 0 <= i < self.arqs@.len() ==> #[trigger] self.arqs@[i].fits(topo)
    }
}

} // verus!
