//! Telescoping time windows: a constant number of windows covering all of
//! history, narrowest near the present and doubling in width into the past.

use crate::quantum::{pow2_u64, TimeQuantum, TimeSegment};
use vstd::arithmetic::power2::{lemma2_to64, lemma_pow2_pos, lemma_pow2_unfold, pow2};
use vstd::prelude::*;

verus! {

/// Windows covering temporal quanta `[0, time)`, truncated to the first
/// `limit` windows when a limit is set.
#[derive(Clone, Copy, Debug, PartialEq, Eq, Structural)]
pub struct TelescopingTimes {
    pub time: TimeQuantum,
    pub limit: Option<u32>,
}

/// The position of the most significant bit of `n`.
pub open spec fn msb(n: nat) -> nat
    decreases n,
{
    if n < 2 { 0 } else { 1 + msb(n / 2) }
}

/// The windows for `n - 1` quanta, from quantum `start` on, using the powers
/// below `p`: for each power from the highest down, one window of that width,
/// and a second one where `n` has that bit set.
pub open spec fn full_segs(n: nat, p: nat, start: nat) -> Seq<TimeSegment>
    decreases p,
{
    if p == 0 {
        Seq::empty()
    } else {
        let q = (p - 1) as nat;
        let w = pow2(q);
        let first = TimeSegment { power: q as u8, offset: (start / w) as u32 };
        if (n / w) % 2 == 0 {
            seq![first] + full_segs(n, q, start + w)
        } else {
            seq![first, TimeSegment { power: q as u8, offset: ((start + w) / w) as u32 }]
                + full_segs(n, q, start + 2 * w)
        }
    }
}

proof fn lemma_msb(n: nat)
    requires
        n >= 1,
    ensures
        n / pow2(msb(n)) == 1,
        pow2(msb(n)) <= n,
    decreases n,
{
    if n < 2 {
        lemma2_to64();
        assert(msb(n) == 0);
        assert(n == 1);
        assert(1nat / 1nat == 1);
    } else {
        let k = msb(n / 2);
        lemma_msb(n / 2);
        assert(msb(n) == 1 + k);
        lemma_pow2_unfold(1 + k);
        assert(pow2(msb(n)) == 2 * pow2(k));
        lemma_pow2_pos(k);
        vstd::arithmetic::div_mod::lemma_div_denominator(n as int, 2, pow2(k) as int);
        assert(n / pow2(msb(n)) == (n / 2) / pow2(k));
        assert(2 * pow2(k) <= 2 * (n / 2));
    }
}

proof fn lemma_full_segs_shape(n: nat, p: nat, start: nat)
    ensures
        full_segs(n, p, start).len() <= 2 * p,
        forall|i: int| 0 <= i < full_segs(n, p, start).len() ==> (#[trigger] full_segs(n, p, start)[i]).power < p,
    decreases p,
{
    if p > 0 {
        lemma_full_segs_shape(n, (p - 1) as nat, start + pow2((p - 1) as nat));
        lemma_full_segs_shape(n, (p - 1) as nat, start + 2 * pow2((p - 1) as nat));
    }
}

impl TelescopingTimes {
    /// Windows covering `[0, time)`.
    pub fn new(time: TimeQuantum) -> (r: TelescopingTimes)
        ensures
            r == (TelescopingTimes { time, limit: None }),
    {
        TelescopingTimes { time, limit: None }
    }

    /// No windows at all.
    pub open spec fn empty_spec() -> TelescopingTimes {
        TelescopingTimes { time: 0, limit: None }
    }

    /// No windows at all.
    pub fn empty() -> (r: TelescopingTimes)
        ensures
            r == TelescopingTimes::empty_spec(),
            r.spec_segments().len() == 0,
    {
        TelescopingTimes { time: 0, limit: None }
    }

    /// The same windows, truncated to the first `limit`.
    pub fn limit(&self, limit: u32) -> (r: TelescopingTimes)
        ensures
            r == self.spec_limit(limit),
    {
        TelescopingTimes { time: self.time, limit: Some(limit) }
    }

    /// The same windows, truncated to the first `limit`.
    pub open spec fn spec_limit(&self, limit: u32) -> TelescopingTimes {
        TelescopingTimes { time: self.time, limit: Some(limit) }
    }

    /// Truncating to a length the windows already reach keeps a prefix.
    pub proof fn lemma_limit(&self, c: u32)
        requires
            c <= self.spec_segments().len(),
        ensures
            self.spec_limit(c).spec_segments() == self.spec_segments().take(c as int),
    {
        let f = self.spec_full_segments();
        assert(self.spec_segments().len() <= f.len());
        if c as int == f.len() {
            assert(f.take(c as int) =~= f);
        }
        assert(self.spec_limit(c).spec_segments() =~= self.spec_segments().take(c as int));
    }

    /// All windows before any limit is applied.
    pub open spec fn spec_full_segments(&self) -> Seq<TimeSegment> {
        let n = self.time + 1;
        if n < 2 { Seq::empty() } else { full_segs(n as nat, msb(n as nat), 0) }
    }

    /// The windows, oldest first.
    pub open spec fn spec_segments(&self) -> Seq<TimeSegment> {
        let f = self.spec_full_segments();
        match self.limit {
            Some(l) => if l < f.len() { f.take(l as int) } else { f },
            None => f,
        }
    }

    /// `self` reaches further into the past than `other`, or as far with
    /// a looser limit (no limit being the tightest).
    pub open spec fn spec_gt(&self, other: TelescopingTimes) -> bool {
        if self.time != other.time {
            self.time > other.time
        } else {
            match (self.limit, other.limit) {
                (Some(a), Some(b)) => a > b,
                (Some(_), None) => true,
                _ => false,
            }
        }
    }

    /// See [`TelescopingTimes::spec_gt`].
    pub fn gt(&self, other: &TelescopingTimes) -> (r: bool)
        ensures
            r == self.spec_gt(*other),
    {
        if self.time != other.time {
            self.time > other.time
        } else {
            match (self.limit, other.limit) {
                (Some(a), Some(b)) => a > b,
                (Some(_), None) => true,
                _ => false,
            }
        }
    }

    pub proof fn lemma_segments_shape(&self)
        ensures
            self.spec_segments().len() <= 64,
            forall|i: int| 0 <= i < self.spec_segments().len() ==> (#[trigger] self.spec_segments()[i]).power < 32,
    {
        let n = (self.time + 1) as nat;
        if n >= 2 {
            lemma_msb(n);
            lemma2_to64();
            vstd::arithmetic::power2::lemma2_to64_rest();
            assert(pow2(33) == 0x2_0000_0000);
            if msb(n) > 33 {
                vstd::arithmetic::power2::lemma_pow2_strictly_increases(33, msb(n));
            }
            lemma_full_segs_shape(n, msb(n), 0);
        }
        let f = self.spec_full_segments();
        assert forall|i: int| 0 <= i < self.spec_segments().len() implies (#[trigger] self.spec_segments()[i]).power < 32 by {
            assert(self.spec_segments()[i] == f[i]);
        }
    }

    /// The windows, oldest first.
    pub fn segments(&self) -> (r: Vec<TimeSegment>)
        ensures
            r@ == self.spec_segments(),
            r@.len() <= 64,
            forall|i: int| 0 <= i < r@.len() ==> (#[trigger] r@[i]).power < 32,
    {
        proof {
            self.lemma_segments_shape();
        }
        let mut out: Vec<TimeSegment> = Vec::new();
        let n: u64 = self.time as u64 + 1;
        if n < 2 {
            return out;
        }
        proof {
            lemma_msb(n as nat);
            lemma2_to64();
            vstd::arithmetic::power2::lemma2_to64_rest();
            assert(pow2(33) == 0x2_0000_0000);
            if msb(n as nat) > 33 {
                vstd::arithmetic::power2::lemma_pow2_strictly_increases(33, msb(n as nat));
            }
        }
        let mut m: u32 = 0;
        let mut v: u64 = n;
        while v >= 2
            invariant
                1 <= v <= n,
                m + msb(v as nat) == msb(n as nat) <= 32,
            decreases v,
        {
            v = v / 2;
            m = m + 1;
        }
        proof {
            assert(v == 1);
            assert(msb(1) == 0);
            assert(m == msb(n as nat));
            lemma_pow2_pos(m as nat);
            vstd::arithmetic::div_mod::lemma_fundamental_div_mod(n as int, pow2(m as nat) as int);
            assert(pow2(m as nat) + (n as nat) % pow2(m as nat) == n);
        }
        let ghost full = full_segs(n as nat, m as nat, 0);
        let mut p: u32 = m;
        let mut start: u64 = 0;
        while p > 0
            invariant
                2 <= n <= 0x1_0000_0000,
                p <= m <= 32,
                out@ + full_segs(n as nat, p as nat, start as nat) == full,
                start + pow2(p as nat) + (n as nat) % pow2(p as nat) == n,
            decreases p,
        {
            p = p - 1;
            let w = pow2_u64(p);
            proof {
                lemma_pow2_pos(p as nat);
                lemma_pow2_unfold((p + 1) as nat);
                vstd::arithmetic::div_mod::lemma_mod_breakdown(n as int, w as int, 2);
                vstd::arithmetic::div_mod::lemma_mod_pos_bound(n as int, w as int);
                vstd::arithmetic::div_mod::lemma_div_is_ordered_by_denominator(start as int, 1, w as int);
                vstd::arithmetic::div_mod::lemma_div_is_ordered_by_denominator((start + w) as int, 1, w as int);
            }
            proof {
                assert(pow2((p + 1) as nat) == w * 2);
                assert((n as nat) % pow2((p + 1) as nat) == w * ((n as int / w as int) % 2) + (n as int) % (w as int));
            }
            let ghost s0 = start;
            let first = TimeSegment { power: p as u8, offset: (start / w) as u32 };
            out.push(first);
            if (n / w) % 2 == 0 {
                start = start + w;
                proof {
                    let b = (n as int / w as int) % 2;
                    assert(b == 0);
                    assert(w * b == 0) by (nonlinear_arith) requires b == 0;
                }
            } else {
                out.push(TimeSegment { power: p as u8, offset: ((start + w) / w) as u32 });
                start = start + 2 * w;
                proof {
                    let b = (n as int / w as int) % 2;
                    vstd::arithmetic::div_mod::lemma_mod_pos_bound(n as int / w as int, 2);
                    assert(b == 1);
                    assert(w * b == w) by (nonlinear_arith) requires b == 1;
                }
            }
            proof {
                assert(out@ + full_segs(n as nat, p as nat, start as nat) =~= full);
            }
        }
        match self.limit {
            Some(l) => {
                if (l as usize) < out.len() {
                    out.truncate(l as usize);
                }
            },
            None => {},
        }
        proof {
            assert(out@ =~= self.spec_segments());
        }
        out
    }
}

/// The widths of a list of windows, in quanta.
pub open spec fn widths(segs: Seq<TimeSegment>) -> Seq<int> {
    segs.map_values(|t: TimeSegment| t.width() as int)
}

/// The target width of output window `k`, or `-1` past the end of `rw`.
pub open spec fn target(rw: Seq<int>, k: int) -> int {
    if 0 <= k < rw.len() { rw[k] } else { -1 }
}

/// How many more windows of `lw`, from index `s` on, join a merged window
/// whose width so far is `acc`: they join while it is narrower than `t`.
pub open spec fn group_len(lw: Seq<int>, s: int, acc: int, t: int) -> nat
    decreases lw.len() - s,
{
    if s >= lw.len() || s < 0 || acc >= t {
        0
    } else {
        1 + group_len(lw, s + 1, acc + lw[s], t)
    }
}

/// The merge plan of the finer windows `lw` against the coarser `rw`, from
/// window `s` of `lw` and window `k` of `rw` on: the number of consecutive
/// windows of `lw` that make up each merged window. Each merged window
/// grows until it is at least as wide as its counterpart in `rw`.
pub open spec fn plan_from(lw: Seq<int>, rw: Seq<int>, s: int, k: int) -> Seq<nat>
    decreases (if 0 <= s < lw.len() { lw.len() - s } else { 0 }),
{
    if s >= lw.len() || s < 0 {
        Seq::empty()
    } else {
        let g = 1 + group_len(lw, s + 1, lw[s], target(rw, k));
        seq![g as nat] + plan_from(lw, rw, s + g, k + 1)
    }
}

/// The merge plan of the finer windows `lw` against the coarser `rw`.
pub open spec fn merge_plan(lw: Seq<int>, rw: Seq<int>) -> Seq<nat> {
    plan_from(lw, rw, 0, 0)
}

/// The sum of a merge plan.
pub open spec fn plan_total(plan: Seq<nat>) -> nat
    decreases plan.len(),
{
    if plan.len() == 0 { 0 } else { plan[0] + plan_total(plan.skip(1)) }
}

proof fn lemma_group_len_bound(lw: Seq<int>, s: int, acc: int, t: int)
    requires
        0 <= s <= lw.len(),
    ensures
        s + group_len(lw, s, acc, t) <= lw.len(),
    decreases lw.len() - s,
{
    if s < lw.len() && acc < t {
        lemma_group_len_bound(lw, s + 1, acc + lw[s], t);
    }
}

/// A merge plan uses each window of `lw` exactly once.
pub proof fn lemma_plan_total(lw: Seq<int>, rw: Seq<int>, s: int, k: int)
    requires
        0 <= s <= lw.len(),
    ensures
        plan_total(plan_from(lw, rw, s, k)) == lw.len() - s,
        forall|i: int| 0 <= i < plan_from(lw, rw, s, k).len() ==> #[trigger] plan_from(lw, rw, s, k)[i] >= 1,
    decreases lw.len() - s,
{
    if s < lw.len() {
        let g = 1 + group_len(lw, s + 1, lw[s], target(rw, k));
        lemma_group_len_bound(lw, s + 1, lw[s], target(rw, k));
        lemma_plan_total(lw, rw, s + g, k + 1);
        let p = plan_from(lw, rw, s, k);
        assert(p.skip(1) =~= plan_from(lw, rw, s + g, k + 1));
    }
}

/// Merging windows against an identical list merges nothing.
pub proof fn lemma_plan_identity(w: Seq<int>, s: int)
    requires
        0 <= s <= w.len(),
    ensures
        plan_from(w, w, s, s) == Seq::new((w.len() - s) as nat, |i: int| 1nat),
    decreases w.len() - s,
{
    if s < w.len() {
        lemma_plan_identity(w, s + 1);
        assert(plan_from(w, w, s, s) =~= Seq::new((w.len() - s) as nat, |i: int| 1nat));
    } else {
        assert(plan_from(w, w, s, s) =~= Seq::new((w.len() - s) as nat, |i: int| 1nat));
    }
}

/// The widths of `segs` as integers.
pub fn segment_widths(segs: &Vec<TimeSegment>) -> (r: Vec<u64>)
    requires
        forall|i: int| 0 <= i < segs@.len() ==> (#[trigger] segs@[i]).power < 32,
    ensures
        r@.len() == segs@.len(),
        forall|i: int| 0 <= i < r@.len() ==> #[trigger] r@[i] as int == widths(segs@)[i],
        forall|i: int| 0 <= i < r@.len() ==> #[trigger] r@[i] <= 0x8000_0000,
{
    let mut out: Vec<u64> = Vec::new();
    let mut i: usize = 0;
    while i < segs.len()
        invariant
            i <= segs@.len(),
            out@.len() == i,
            forall|i: int| 0 <= i < segs@.len() ==> (#[trigger] segs@[i]).power < 32,
            forall|j: int| 0 <= j < i ==> #[trigger] out@[j] as int == widths(segs@)[j],
            forall|j: int| 0 <= j < i ==> #[trigger] out@[j] <= 0x8000_0000,
        decreases segs@.len() - i,
    {
        let w = segs[i].num_quanta();
        proof {
            lemma2_to64();
            if segs@[i as int].power < 31 {
                vstd::arithmetic::power2::lemma_pow2_strictly_increases(segs@[i as int].power as nat, 31);
            }
        }
        out.push(w);
        i = i + 1;
    }
    out
}

/// Computes [`merge_plan`] of two lists of window widths.
pub fn merge_plan_of(lw: &Vec<u64>, rw: &Vec<u64>) -> (r: Vec<usize>)
    requires
        lw@.len() <= 64,
        forall|i: int| 0 <= i < lw@.len() ==> #[trigger] lw@[i] <= 0x8000_0000,
    ensures
        r@.map_values(|g: usize| g as nat) == merge_plan(
            lw@.map_values(|x: u64| x as int),
            rw@.map_values(|x: u64| x as int),
        ),
{
    let ghost l = lw@.map_values(|x: u64| x as int);
    let ghost rr = rw@.map_values(|x: u64| x as int);
    let mut plan: Vec<usize> = Vec::new();
    let mut s: usize = 0;
    while s < lw.len()
        invariant
            s <= lw@.len() <= 64,
            forall|i: int| 0 <= i < lw@.len() ==> #[trigger] lw@[i] <= 0x8000_0000,
            l == lw@.map_values(|x: u64| x as int),
            rr == rw@.map_values(|x: u64| x as int),
            plan@.map_values(|g: usize| g as nat) + plan_from(l, rr, s as int, plan@.len() as int)
                == merge_plan(l, rr),
        decreases lw@.len() - s,
    {
        let k = plan.len();
        let has_target = k < rw.len();
        let t: u64 = if has_target { rw[k] } else { 0 };
        let ghost tt = target(rr, k as int);
        let mut acc: u64 = lw[s];
        let mut g: usize = 1;
        while s + g < lw.len() && has_target && acc < t
            invariant
                s < lw@.len() <= 64,
                1 <= g,
                s + g <= lw@.len(),
                forall|i: int| 0 <= i < lw@.len() ==> #[trigger] lw@[i] <= 0x8000_0000,
                acc <= g * 0x8000_0000,
                l == lw@.map_values(|x: u64| x as int),
                has_target ==> tt == t,
                !has_target ==> tt == -1,
                1 + group_len(l, s + 1, l[s as int], tt) == g + group_len(l, (s + g) as int, acc as int, tt),
            decreases lw@.len() - s - g,
        {
            acc = acc + lw[s + g];
            g = g + 1;
        }
        proof {
            assert(group_len(l, (s + g) as int, acc as int, tt) == 0);
            assert(plan_from(l, rr, s as int, k as int) == seq![g as nat] + plan_from(l, rr, (s + g) as int, k + 1));
        }
        let ghost pm = plan@.map_values(|g: usize| g as nat);
        plan.push(g);
        s = s + g;
        proof {
            assert(plan@.map_values(|g: usize| g as nat) =~= pm.push(g as nat));
            assert(pm.push(g as nat) + plan_from(l, rr, s as int, plan@.len() as int)
                =~= pm + plan_from(l, rr, (s - g) as int, k as int));
        }
    }
    plan
}

/// The windows built from quantum `start` on are contiguous: the first
/// starts at `start`, each starts where the previous one ends, and the last
/// ends at quantum `n - 1`.
pub proof fn lemma_full_segs_contiguous(n: nat, p: nat, start: nat)
    requires
        n <= 0x1_0000_0000,
        p >= 1 ==> start % pow2((p - 1) as nat) == 0,
        start + pow2(p) + n % pow2(p) == n,
    ensures
        full_segs(n, p, start).len() > 0 ==> full_segs(n, p, start)[0].start() == start,
        full_segs(n, p, start).len() > 0 ==> full_segs(n, p, start).last().end() == n - 1,
        full_segs(n, p, start).len() == 0 ==> start == n - 1,
        forall|j: int| 0 <= j < full_segs(n, p, start).len() - 1
            ==> (#[trigger] full_segs(n, p, start)[j]).end() == full_segs(n, p, start)[j + 1].start(),
    decreases p,
{
    lemma_pow2_pos(p);
    if p == 0 {
        lemma2_to64();
        vstd::arithmetic::div_mod::lemma_mod_pos_bound(n as int, 1);
    } else {
        let q = (p - 1) as nat;
        let w = pow2(q);
        lemma_pow2_pos(q);
        lemma_pow2_unfold(p);
        vstd::arithmetic::div_mod::lemma_mod_breakdown(n as int, w as int, 2);
        vstd::arithmetic::div_mod::lemma_mod_pos_bound(n as int, w as int);
        vstd::arithmetic::div_mod::lemma_mod_pos_bound(n as int / w as int, 2);
        assert(pow2(p) == w * 2);
        assert(w < 0x1_0000_0000) by {
            lemma2_to64();
            if q >= 32 {
                if q > 32 {
                    vstd::arithmetic::power2::lemma_pow2_strictly_increases(32, q);
                }
            }
        }
        assert(q < 32) by {
            lemma2_to64();
            if q >= 32 {
                if q > 32 {
                    vstd::arithmetic::power2::lemma_pow2_strictly_increases(32, q);
                }
            }
        }
        let b = (n as int / w as int) % 2;
        assert(w * b == if b == 0 { 0 } else { w as int }) by (nonlinear_arith)
            requires b == 0 || b == 1;
        // the first window starts at `start`
        vstd::arithmetic::div_mod::lemma_fundamental_div_mod(start as int, w as int);
        vstd::arithmetic::div_mod::lemma_div_is_ordered_by_denominator(start as int, 1, w as int);
        let o1 = start / w;
        assert(o1 * w == start) by (nonlinear_arith)
            requires start == w * (start / w) + start % w, start % w == 0, o1 == start / w;
        let first = TimeSegment { power: q as u8, offset: o1 as u32 };
        assert(first.start() == start);
        assert(first.end() == start + w);
        // the second window, if any, starts right after
        let o2 = (start + w) / w;
        assert(o2 == o1 + 1) by {
            vstd::arithmetic::div_mod::lemma_div_plus_one(start as int, w as int);
        }
        assert(o2 * w == start + w) by (nonlinear_arith)
            requires o2 == o1 + 1, o1 * w == start;
        let second = TimeSegment { power: q as u8, offset: o2 as u32 };
        let next = if b == 0 { start + w } else { start + 2 * w };
        if q >= 1 {
            lemma_pow2_unfold(q);
            let h = pow2((q - 1) as nat);
            lemma_pow2_pos((q - 1) as nat);
            assert(w == h * 2);
            assert(next % h == 0) by {
                let k: int = if b == 0 { 2 * o1 as int + 2 } else { 2 * o1 as int + 4 };
                if b == 0 {
                    assert(next == k * h) by (nonlinear_arith)
                        requires o1 * w == start, w == h * 2, next == start + w, k == 2 * o1 + 2;
                } else {
                    assert(next == k * h) by (nonlinear_arith)
                        requires o1 * w == start, w == h * 2, next == start + 2 * w, k == 2 * o1 + 4;
                }
                vstd::arithmetic::div_mod::lemma_mod_multiples_basic(k, h as int);
            }
        }
        lemma_full_segs_contiguous(n, q, next);
        let rest = full_segs(n, q, next);
        if b == 0 {
            assert(full_segs(n, p, start) == seq![first] + rest);
            assert(first.end() == next);
        } else {
            assert(second.start() == start + w);
            assert(second.end() == next);
            assert(full_segs(n, p, start) == seq![first, second] + rest);
        }
        let f = full_segs(n, p, start);
        assert forall|j: int| 0 <= j < f.len() - 1 implies (#[trigger] f[j]).end() == f[j + 1].start() by {
            if b == 0 {
                if j >= 1 {
                    assert(f[j] == rest[j - 1]);
                    assert(f[j + 1] == rest[j]);
                }
            } else {
                if j >= 2 {
                    assert(f[j] == rest[j - 2]);
                    assert(f[j + 1] == rest[j - 1]);
                }
            }
        }
    }
}

impl TelescopingTimes {
    /// The windows are contiguous from quantum 0 on, and, without a limit
    /// that cuts them, end at `time`.
    pub proof fn lemma_segments_contiguous(&self)
        ensures
            self.spec_segments().len() > 0 ==> self.spec_segments()[0].start() == 0,
            forall|j: int| 0 <= j < self.spec_segments().len() - 1
                ==> (#[trigger] self.spec_segments()[j]).end() == self.spec_segments()[j + 1].start(),
            self.spec_segments() == self.spec_full_segments() && self.spec_segments().len() > 0
                ==> self.spec_segments().last().end() == self.time,
    {
        let n = (self.time + 1) as nat;
        let f = self.spec_full_segments();
        if n >= 2 {
            lemma_msb(n);
            let m = msb(n);
            lemma_pow2_pos(m);
            vstd::arithmetic::div_mod::lemma_fundamental_div_mod(n as int, pow2(m) as int);
            assert(pow2(m) + n % pow2(m) == n);
            if m >= 1 {
                lemma_pow2_pos((m - 1) as nat);
                vstd::arithmetic::div_mod::lemma_small_mod(0, pow2((m - 1) as nat));
                assert(0nat % pow2((m - 1) as nat) == 0);
            }
            lemma_full_segs_contiguous(n, m, 0);
        }
        let s = self.spec_segments();
        assert forall|j: int| 0 <= j < s.len() - 1 implies (#[trigger] s[j]).end() == s[j + 1].start() by {
            assert(s[j] == f[j]);
            assert(s[j + 1] == f[j + 1]);
        }
    }
}

} // verus!
