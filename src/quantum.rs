//! Quantization of locations and timestamps, and the segments of the
//! quantized grid.

use vstd::arithmetic::power2::{lemma2_to64, lemma_pow2_adds, lemma_pow2_pos, lemma_pow2_unfold, pow2};
use vstd::prelude::*;

verus! {

/// A location on the ring of `2^32` points; arithmetic on it wraps.
pub type Loc = u32;

/// A timestamp in microseconds.
pub type Timestamp = i64;

/// The index of a spatial quantum.
pub type SpaceQuantum = u32;

/// The index of a temporal quantum, counted from the topology's origin.
pub type TimeQuantum = u32;

/// The largest temporal quantum, in microseconds, that a topology may use.
pub const MAX_TIME_QUANTUM: u64 = 1073741824;

/// The latest time origin, in microseconds, that a topology may use.
pub const MAX_TIME_ORIGIN: i64 = 2305843009213693952;

/// Two to the power `e`, computed without shifts.
pub fn pow2_u64(e: u32) -> (r: u64)
    requires
        e < 64,
    ensures
        r as nat == pow2(e as nat),
{
    let mut r: u64 = 1;
    let mut i: u32 = 0;
    proof {
        lemma2_to64();
    }
    while i < e
        invariant
            i <= e < 64,
            r as nat == pow2(i as nat),
        decreases e - i,
    {
        proof {
            lemma_pow2_unfold((i + 1) as nat);
            vstd::bits::lemma_u64_pow2_no_overflow((i + 1) as nat);
        }
        r = r * 2;
        i = i + 1;
    }
    r
}

/// `q / s < n` whenever `q < s * n`.
proof fn lemma_div_below(q: int, s: int, n: int)
    requires
        0 <= q < s * n,
        s > 0,
    ensures
        q / s < n,
{
    vstd::arithmetic::div_mod::lemma_fundamental_div_mod(q, s);
    let d = q / s;
    if d >= n {
        assert(d * s >= n * s) by (nonlinear_arith)
            requires d >= n, s > 0;
        assert(s * d == d * s) by (nonlinear_arith);
        assert(s * n == n * s) by (nonlinear_arith);
    }
}

/// The quantization parameters shared by every party of a network.
#[derive(Clone, Copy, Debug, PartialEq, Eq, Structural)]
pub struct Topology {
    /// A spatial quantum spans `2^space_pow` locations.
    pub space_pow: u8,
    /// A temporal quantum spans this many microseconds.
    pub time_quantum: u64,
    /// The timestamp at which temporal quantum 0 starts.
    pub time_origin: i64,
}

impl Topology {
    pub open spec fn wf(&self) -> bool {
        &&& self.space_pow <= 32
        &&& 1 <= self.time_quantum <= MAX_TIME_QUANTUM
        &&& 0 <= self.time_origin <= MAX_TIME_ORIGIN
    }

    /// Number of locations in one spatial quantum.
    pub open spec fn space_quantum_size(&self) -> nat {
        pow2(self.space_pow as nat)
    }

    /// Number of spatial quanta around the ring.
    pub open spec fn num_space_quanta(&self) -> nat {
        pow2((32 - self.space_pow) as nat)
    }

    /// The spatial quantum that holds a location.
    pub open spec fn spec_space_quantum(&self, loc: Loc) -> nat {
        loc as nat / self.space_quantum_size()
    }

    /// The temporal quantum that holds a timestamp: 0 before the origin, and
    /// the last quantum for anything past the representable range.
    pub open spec fn spec_time_quantum(&self, t: Timestamp) -> nat {
        if t < self.time_origin {
            0
        } else {
            let q = (t - self.time_origin) / (self.time_quantum as int);
            if q > u32::MAX { u32::MAX as nat } else { q as nat }
        }
    }

    /// Quantum sizes of 1 location and 1 microsecond, starting at `origin`.
    pub fn unit(origin: Timestamp) -> (r: Topology)
        requires
            0 <= origin <= MAX_TIME_ORIGIN,
        ensures
            r.wf(),
            r == (Topology { space_pow: 0, time_quantum: 1, time_origin: origin }),
    {
        Topology { space_pow: 0, time_quantum: 1, time_origin: origin }
    }

    /// Unit quantum sizes, starting at timestamp 0.
    pub fn unit_zero() -> (r: Topology)
        ensures
            r.wf(),
            r == (Topology { space_pow: 0, time_quantum: 1, time_origin: 0 }),
    {
        Topology::unit(0)
    }

    /// The standard quantum sizes (`2^12` locations, five minutes), starting
    /// at timestamp 0.
    pub fn standard_zero() -> (r: Topology)
        ensures
            r.wf(),
            r == (Topology { space_pow: 12, time_quantum: 300000000, time_origin: 0 }),
    {
        Topology { space_pow: 12, time_quantum: 300000000, time_origin: 0 }
    }

    proof fn lemma_ring(&self)
        requires
            self.wf(),
        ensures
            self.space_quantum_size() > 0,
            self.num_space_quanta() > 0,
            self.space_quantum_size() * self.num_space_quanta() == 0x1_0000_0000,
    {
        lemma_pow2_pos(self.space_pow as nat);
        lemma_pow2_pos((32 - self.space_pow) as nat);
        lemma_pow2_adds(self.space_pow as nat, (32 - self.space_pow) as nat);
        lemma2_to64();
    }

    /// The spatial quantum that holds `loc`.
    pub fn space_quantum(&self, loc: Loc) -> (r: SpaceQuantum)
        requires
            self.wf(),
        ensures
            r as nat == self.spec_space_quantum(loc),
            (r as nat) < self.num_space_quanta(),
    {
        let size = pow2_u64(self.space_pow as u32);
        proof {
            self.lemma_ring();
            lemma_div_below(loc as int, size as int, self.num_space_quanta() as int);
            lemma2_to64();
            vstd::arithmetic::power2::lemma_pow2_strictly_increases((32 - self.space_pow) as nat, 33);
        }
        (loc as u64 / size) as u32
    }

    /// The temporal quantum that holds `t`.
    pub fn time_quantum(&self, t: Timestamp) -> (r: TimeQuantum)
        requires
            self.wf(),
        ensures
            r as nat == self.spec_time_quantum(t),
    {
        if t < self.time_origin {
            0
        } else {
            let d: u64 = (t - self.time_origin) as u64;
            let q: u64 = d / self.time_quantum;
            if q > u32::MAX as u64 { u32::MAX } else { q as u32 }
        }
    }

    /// The first and last location of spatial quantum `q`.
    pub fn space_quantum_loc_bounds(&self, q: SpaceQuantum) -> (r: (Loc, Loc))
        requires
            self.wf(),
            (q as nat) < self.num_space_quanta(),
        ensures
            r.0 as nat == q as nat * self.space_quantum_size(),
            r.1 as nat == r.0 as nat + self.space_quantum_size() - 1,
    {
        let size = pow2_u64(self.space_pow as u32);
        proof {
            self.lemma_ring();
            let s = size as int;
            let n = self.num_space_quanta() as int;
            assert((q as int + 1) * s <= n * s) by (nonlinear_arith)
                requires q + 1 <= n, s > 0;
            assert(q * s + s == (q + 1) * s) by (nonlinear_arith);
            assert(n * s == s * n) by (nonlinear_arith);
        }
        let lo: u64 = q as u64 * size;
        let hi: u64 = lo + (size - 1);
        (lo as u32, hi as u32)
    }

    /// The first and last microsecond of temporal quantum `q`.
    pub fn time_quantum_timestamp_bounds(&self, q: TimeQuantum) -> (r: (Timestamp, Timestamp))
        requires
            self.wf(),
        ensures
            r.0 == self.time_origin + q * self.time_quantum,
            r.1 == r.0 + self.time_quantum - 1,
    {
        proof {
            assert(q * self.time_quantum <= 0xFFFF_FFFF * MAX_TIME_QUANTUM) by (nonlinear_arith)
                requires q <= 0xFFFF_FFFF, self.time_quantum <= MAX_TIME_QUANTUM;
        }
        let d: u64 = q as u64 * self.time_quantum;
        let lo: i64 = self.time_origin + d as i64;
        (lo, lo + (self.time_quantum - 1) as i64)
    }
}

/// A pair of spatial and temporal quanta: where and when an item is.
#[derive(Clone, Copy, Debug, PartialEq, Eq, Structural)]
pub struct SpacetimeQuanta {
    pub space: SpaceQuantum,
    pub time: TimeQuantum,
}

/// A run of `2^power` spatial quanta: the chunk number `offset` of that size,
/// counted around the ring (so the offset wraps).
#[derive(Clone, Copy, Debug, PartialEq, Eq, Structural)]
pub struct SpaceSegment {
    pub power: u8,
    pub offset: u32,
}

/// A run of `2^power` temporal quanta: the window number `offset` of that size.
#[derive(Clone, Copy, Debug, PartialEq, Eq, Structural)]
pub struct TimeSegment {
    pub power: u8,
    pub offset: u32,
}

impl SpaceSegment {
    /// The segment fits on the ring of the topology.
    pub open spec fn fits(&self, topo: Topology) -> bool {
        self.power as nat + topo.space_pow as nat <= 32
    }

    /// Whether spatial quantum `q` lies in this segment.
    pub open spec fn spec_contains(&self, topo: Topology, q: nat) -> bool {
        q / pow2(self.power as nat) == (self.offset as nat) % pow2(
            (32 - topo.space_pow - self.power) as nat,
        )
    }

    /// Whether spatial quantum `q` lies in this segment.
    pub fn contains(&self, topo: &Topology, q: SpaceQuantum) -> (r: bool)
        requires
            topo.wf(),
            self.fits(*topo),
        ensures
            r == self.spec_contains(*topo, q as nat),
    {
        let size = pow2_u64(self.power as u32);
        let chunks = pow2_u64((32 - topo.space_pow - self.power) as u32);
        proof {
            lemma_pow2_pos(self.power as nat);
            lemma_pow2_pos((32 - topo.space_pow - self.power) as nat);
        }
        q as u64 / size == self.offset as u64 % chunks
    }
}

impl TimeSegment {
    /// The first temporal quantum of the window.
    pub open spec fn start(&self) -> int {
        self.offset * pow2(self.power as nat)
    }

    /// The number of temporal quanta in the window.
    pub open spec fn width(&self) -> nat {
        pow2(self.power as nat)
    }

    /// The quantum just past the window.
    pub open spec fn end(&self) -> int {
        self.start() + self.width()
    }

    /// Whether temporal quantum `q` lies in this window.
    pub open spec fn spec_contains(&self, q: nat) -> bool {
        self.start() <= q < self.end()
    }

    /// The number of temporal quanta in the window.
    pub fn num_quanta(&self) -> (r: u64)
        requires
            self.power < 64,
        ensures
            r as nat == self.width(),
    {
        pow2_u64(self.power as u32)
    }

    /// Whether temporal quantum `q` lies in this window.
    pub fn contains(&self, q: TimeQuantum) -> (r: bool)
        requires
            self.power < 32,
        ensures
            r == self.spec_contains(q as nat),
    {
        let size = pow2_u64(self.power as u32);
        proof {
            lemma_pow2_pos(self.power as nat);
            vstd::arithmetic::div_mod::lemma_fundamental_div_mod(q as int, size as int);
            let d = q as int / size as int;
            let m = q as int % size as int;
            let o = self.offset as int;
            let z = size as int;
            assert(q == z * d + m);
            assert(z * d == d * z) by (nonlinear_arith);
            assert(self.start() == o * z);
            if d < o {
                assert(d * z + z <= o * z) by (nonlinear_arith)
                    requires d + 1 <= o, z > 0;
            } else if d > o {
                assert(o * z + z <= d * z) by (nonlinear_arith)
                    requires o + 1 <= d, z > 0;
            }
        }
        q as u64 / size == self.offset as u64
    }
}

/// A rectangle of the quantized grid: a spatial segment across a temporal window.
#[derive(Clone, Copy, Debug, PartialEq, Eq, Structural)]
pub struct RegionCoords {
    pub space: SpaceSegment,
    pub time: TimeSegment,
}

impl RegionCoords {
    pub fn new(space: SpaceSegment, time: TimeSegment) -> (r: RegionCoords)
        ensures
            r == (RegionCoords { space, time }),
    {
        RegionCoords { space, time }
    }

    /// The rectangle fits the topology's ring and a 32-bit time axis.
    pub open spec fn fits(&self, topo: Topology) -> bool {
        self.space.fits(topo) && self.time.power < 32
    }

    /// Whether the point `c` of the grid lies in the rectangle.
    pub open spec fn spec_contains(&self, topo: Topology, c: SpacetimeQuanta) -> bool {
        self.space.spec_contains(topo, c.space as nat) && self.time.spec_contains(c.time as nat)
    }

    /// Whether the point `c` of the grid lies in the rectangle.
    pub fn contains(&self, topo: &Topology, c: &SpacetimeQuanta) -> (r: bool)
        requires
            topo.wf(),
            self.fits(*topo),
        ensures
            r == self.spec_contains(*topo, *c),
    {
        self.space.contains(topo, c.space) && self.time.contains(c.time)
    }
}

} // verus!
