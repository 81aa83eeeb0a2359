//! Region sets in the XTCS layout ("exponential time, constant space"): a
//! grid of digests, one per spatial segment of a set of arcs and per
//! telescoping time window, and their reconciliation.

use crate::arq::{all_segments, lemma_all_segments_len, total_segments, ArqBounds, ArqBoundsSet};
use crate::op_store::{lemma_query_is_span, lemma_span_split, spec_query, spec_query_span, OpData, OpStore};
use crate::quantum::{RegionCoords, SpaceSegment, TimeSegment, Topology};
use crate::region_data::{lemma_sum_single, spec_sum, RegionData};
use crate::telescoping::{
    lemma_plan_identity, lemma_plan_total, merge_plan, merge_plan_of, plan_total,
    segment_widths, widths, TelescopingTimes,
};
use once_cell::sync::OnceCell;
use vstd::arithmetic::power2::lemma_pow2_pos;
use vstd::prelude::*;

verus! {

/// once_cell's write-once cell, held opaque: a region set keeps its
/// generated coordinates in one, outside the set's identity.
#[verifier::external_type_specification]
#[verifier::external_body]
#[verifier::reject_recursive_types(T)]
pub struct ExOnceCell<T>(OnceCell<T>);

/// Relies on `once_cell::sync::OnceCell::new`, which makes an empty cell.
pub assume_specification<T>[ OnceCell::<T>::new ]() -> OnceCell<T>;

/// A cell of the grid with its relative (spatial, temporal) index.
pub type IndexedCoords = ((u32, u32), RegionCoords);

/// The generator of an XTCS grid: a set of arcs across telescoping times.
#[derive(Clone, Debug)]
pub struct RegionCoordSetXtcs {
    pub times: TelescopingTimes,
    pub arq_set: ArqBoundsSet,
}

impl PartialEq for RegionCoordSetXtcs {
    fn eq(&self, other: &RegionCoordSetXtcs) -> (r: bool) {
        self.times == other.times && self.arq_set == other.arq_set
    }
}

impl vstd::std_specs::cmp::PartialEqSpecImpl for RegionCoordSetXtcs {
    open spec fn obeys_eq_spec() -> bool {
        true
    }

    open spec fn eq_spec(&self, other: &RegionCoordSetXtcs) -> bool {
        self.times == other.times && self.arq_set.arqs@ == other.arq_set.arqs@
    }
}

/// The rows of a grid laid end to end.
pub open spec fn flatten<A>(rows: Seq<Seq<A>>) -> Seq<A>
    decreases rows.len(),
{
    if rows.len() == 0 {
        Seq::empty()
    } else {
        flatten(rows.drop_last()) + rows.last()
    }
}

impl RegionCoordSetXtcs {
    pub fn new(times: TelescopingTimes, arq_set: ArqBoundsSet) -> (r: RegionCoordSetXtcs)
        ensures
            r.times == times,
            r.arq_set.arqs@ == arq_set.arqs@,
    {
        RegionCoordSetXtcs { times, arq_set }
    }

    /// No arcs and no time windows.
    pub fn empty() -> (r: RegionCoordSetXtcs)
        ensures
            r.times == TelescopingTimes::empty_spec(),
            r.arq_set.arqs@.len() == 0,
            r.spec_rows().len() == 0,
            r.spec_cols().len() == 0,
    {
        RegionCoordSetXtcs { times: TelescopingTimes::empty(), arq_set: ArqBoundsSet::empty() }
    }

    /// The spatial segments of the grid, arc by arc.
    pub open spec fn spec_rows(&self) -> Seq<SpaceSegment> {
        all_segments(self.arq_set.arqs@)
    }

    /// The time windows of the grid, oldest first.
    pub open spec fn spec_cols(&self) -> Seq<TimeSegment> {
        self.times.spec_segments()
    }

    /// The grid's indices fit in 32 bits.
    pub open spec fn indexable(&self) -> bool {
        total_segments(self.arq_set.arqs@) <= u32::MAX
    }

    /// Cell `(i, j)` of the grid with its index.
    pub open spec fn spec_cell(&self, i: int, j: int) -> IndexedCoords {
        ((i as u32, j as u32), RegionCoords { space: self.spec_rows()[i], time: self.spec_cols()[j] })
    }

    /// The grid, one row per spatial segment and one column per time window.
    pub open spec fn spec_nested(&self) -> Seq<Seq<IndexedCoords>> {
        Seq::new(
            self.spec_rows().len(),
            |i: int| Seq::new(self.spec_cols().len(), |j: int| self.spec_cell(i, j)),
        )
    }

    /// One row of the grid.
    fn coords_row(&self, ix: u32, seg: SpaceSegment, times: &Vec<TimeSegment>) -> (r: Vec<IndexedCoords>)
        requires
            times@ == self.spec_cols(),
        ensures
            r@ == Seq::new(
                times@.len(),
                |j: int| ((ix, j as u32), RegionCoords { space: seg, time: times@[j] }),
            ),
    {
        proof {
            self.times.lemma_segments_shape();
        }
        let mut row: Vec<IndexedCoords> = Vec::new();
        let mut j: usize = 0;
        while j < times.len()
            invariant
                j <= times@.len() <= 64,
                row@ == Seq::new(
                    j as nat,
                    |k: int| ((ix, k as u32), RegionCoords { space: seg, time: times@[k] }),
                ),
            decreases times@.len() - j,
        {
            row.push(((ix, j as u32), RegionCoords::new(seg, times[j])));
            j = j + 1;
            proof {
                assert(row@ =~= Seq::new(
                    j as nat,
                    |k: int| ((ix, k as u32), RegionCoords { space: seg, time: times@[k] }),
                ));
            }
        }
        row
    }

    /// The grid, one row per spatial segment (in arc order) and one column
    /// per time window, each cell tagged with its (spatial, temporal) index.
    pub fn region_coords_nested(&self) -> (r: Vec<Vec<IndexedCoords>>)
        requires
            self.indexable(),
        ensures
            r@.len() == total_segments(self.arq_set.arqs@),
            forall|i: int| 0 <= i < r@.len() ==> (#[trigger] r@[i])@.len() == self.spec_cols().len(),
            r@.map_values(|row: Vec<IndexedCoords>| row@) == self.spec_nested(),
    {
        let times = self.times.segments();
        let arqs = self.arq_set.arqs();
        let ghost nested = self.spec_nested();
        let ghost all = self.spec_rows();
        proof {
            lemma_all_segments_len(self.arq_set.arqs@);
        }
        let mut out: Vec<Vec<IndexedCoords>> = Vec::new();
        let mut a: usize = 0;
        let mut ix: u32 = 0;
        while a < arqs.len()
            invariant
                a <= arqs@.len(),
                arqs@ == self.arq_set.arqs@,
                times@ == self.spec_cols(),
                self.indexable(),
                nested == self.spec_nested(),
                all == self.spec_rows(),
                all.len() == total_segments(arqs@),
                ix as nat == out@.len(),
                out@.len() == total_segments(arqs@.take(a as int)),
                all_segments(arqs@.take(a as int)) == all.take(out@.len() as int),
                forall|i: int| 0 <= i < out@.len() ==> (#[trigger] out@[i])@ == nested[i],
            decreases arqs@.len() - a,
        {
            let arq = arqs[a];
            let segs = arq.segments();
            proof {
                lemma_total_prefix(arqs@, a as int + 1);
                assert(arqs@.take(a + 1).drop_last() =~= arqs@.take(a as int));
                assert(arqs@.take(a + 1).last() == arq);
                lemma_all_prefix(arqs@, a as int + 1);
            }
            let mut k: usize = 0;
            while k < segs.len()
                invariant
                    k <= segs@.len(),
                    segs@ == arq.spec_segments(),
                    a < arqs@.len(),
                    arq == arqs@[a as int],
                    times@ == self.spec_cols(),
                    nested == self.spec_nested(),
                    all == self.spec_rows(),
                    all.len() == total_segments(arqs@) <= u32::MAX,
                    ix as nat == out@.len(),
                    out@.len() == total_segments(arqs@.take(a as int)) + k,
                    total_segments(arqs@.take(a as int)) + segs@.len() <= all.len(),
                    all_segments(arqs@.take(a as int)) + segs@ == all.take((total_segments(arqs@.take(a as int)) + segs@.len()) as int),
                    forall|i: int| 0 <= i < out@.len() ==> (#[trigger] out@[i])@ == nested[i],
                decreases segs@.len() - k,
            {
                let ghost base = total_segments(arqs@.take(a as int));
                proof {
                    lemma_all_segments_len(arqs@.take(a as int));
                    assert(all[base + k] == segs@[k as int]) by {
                        assert((all_segments(arqs@.take(a as int)) + segs@)[base + k] == segs@[k as int]);
                    }
                }
                let row = self.coords_row(ix, segs[k], &times);
                proof {
                    assert(row@ =~= nested[ix as int]);
                }
                out.push(row);
                ix = ix + 1;
                k = k + 1;
            }
            a = a + 1;
            proof {
                lemma_all_segments_len(arqs@.take(a - 1));
                assert(all_segments(arqs@.take(a as int)) =~= all.take(out@.len() as int));
            }
        }
        proof {
            assert(arqs@.take(a as int) =~= arqs@);
            assert(out@.map_values(|row: Vec<IndexedCoords>| row@) =~= nested);
        }
        out
    }

    /// The cells of [`RegionCoordSetXtcs::region_coords_nested`], row after row.
    pub fn region_coords_flat(&self) -> (r: Vec<IndexedCoords>)
        requires
            self.indexable(),
        ensures
            r@ == flatten(self.spec_nested()),
    {
        let nested = self.region_coords_nested();
        let ghost rows = nested@.map_values(|row: Vec<IndexedCoords>| row@);
        let mut out: Vec<IndexedCoords> = Vec::new();
        let mut i: usize = 0;
        while i < nested.len()
            invariant
                i <= nested@.len(),
                rows == nested@.map_values(|row: Vec<IndexedCoords>| row@),
                out@ == flatten(rows.take(i as int)),
            decreases nested@.len() - i,
        {
            let row = &nested[i];
            let mut j: usize = 0;
            while j < row.len()
                invariant
                    j <= row@.len(),
                    i < nested@.len(),
                    *row == nested@[i as int],
                    out@ == flatten(rows.take(i as int)) + row@.take(j as int),
                decreases row@.len() - j,
            {
                out.push(row[j]);
                j = j + 1;
                proof {
                    assert(out@ =~= flatten(rows.take(i as int)) + row@.take(j as int));
                }
            }
            proof {
                assert(rows.take(i + 1).drop_last() =~= rows.take(i as int));
                assert(out@ =~= flatten(rows.take(i + 1)));
            }
            i = i + 1;
        }
        proof {
            assert(rows.take(i as int) =~= rows);
        }
        out
    }
}

proof fn lemma_total_prefix(arqs: Seq<ArqBounds>, a: int)
    requires
        0 <= a <= arqs.len(),
    ensures
        total_segments(arqs.take(a)) <= total_segments(arqs),
    decreases arqs.len(),
{
    if a < arqs.len() {
        assert(arqs.drop_last().take(a) =~= arqs.take(a));
        lemma_total_prefix(arqs.drop_last(), a);
    } else {
        assert(arqs.take(a) =~= arqs);
    }
}

proof fn lemma_all_prefix(arqs: Seq<ArqBounds>, a: int)
    requires
        0 <= a <= arqs.len(),
    ensures
        all_segments(arqs.take(a)) == all_segments(arqs).take(total_segments(arqs.take(a)) as int),
    decreases arqs.len(),
{
    lemma_all_segments_len(arqs.take(a));
    lemma_all_segments_len(arqs);
    if a < arqs.len() {
        assert(arqs.drop_last().take(a) =~= arqs.take(a));
        lemma_all_prefix(arqs.drop_last(), a);
        lemma_total_prefix(arqs.drop_last(), a);
        lemma_all_segments_len(arqs.drop_last());
        assert(all_segments(arqs).take(total_segments(arqs.take(a)) as int)
            =~= all_segments(arqs.drop_last()).take(total_segments(arqs.take(a)) as int));
    } else {
        assert(arqs.take(a) =~= arqs);
        assert(all_segments(arqs).take(total_segments(arqs) as int) =~= all_segments(arqs));
    }
}

/// Reconciliation failures.
#[derive(Clone, Copy, Debug, PartialEq, Eq, Structural)]
pub enum GossipError {
    /// The two region sets do not cover the same arcs.
    ArqSetMismatchForDiff,
}

/// A rectangle of the grid with its digest.
#[derive(Clone, Copy, Debug, PartialEq, Eq, Structural)]
pub struct Region {
    pub coords: RegionCoords,
    pub data: RegionData,
}

impl Region {
    pub fn new(coords: RegionCoords, data: RegionData) -> (r: Region)
        ensures
            r == (Region { coords, data }),
    {
        Region { coords, data }
    }
}

/// The digests of a grid as a sequence of rows.
pub open spec fn grid_of(data: Seq<Vec<RegionData>>) -> Seq<Seq<RegionData>> {
    data.map_values(|row: Vec<RegionData>| row@)
}

/// Each group of `plan`, from index `s` of `row` on, combined into one digest.
pub open spec fn merge_row(row: Seq<RegionData>, plan: Seq<nat>, s: int) -> Seq<RegionData>
    decreases plan.len(),
{
    if plan.len() == 0 {
        Seq::empty()
    } else {
        seq![spec_sum(row.subrange(s, s + plan[0]))] + merge_row(row, plan.skip(1), s + plan[0])
    }
}

/// A grid of digests over an XTCS coordinate set.
#[derive(Debug)]
pub struct RegionSetXtcs {
    /// The generator for the coordinates.
    pub coords: RegionCoordSetXtcs,
    /// The coordinates as generated; a local cache, never compared.
    pub region_coords_cache: OnceCell<Vec<RegionCoords>>,
    /// One row per spatial segment, one column per time window.
    pub data: Vec<Vec<RegionData>>,
}

impl Clone for RegionSetXtcs {
    fn clone(&self) -> (r: RegionSetXtcs)
        ensures
            r.coords.times == self.coords.times,
            r.coords.arq_set.arqs@ == self.coords.arq_set.arqs@,
            r.grid() == self.grid(),
    {
        let arqs = clone_arqs(&self.coords.arq_set.arqs);
        RegionSetXtcs {
            coords: RegionCoordSetXtcs { times: self.coords.times, arq_set: ArqBoundsSet { arqs } },
            region_coords_cache: OnceCell::new(),
            data: clone_grid(&self.data),
        }
    }
}

fn clone_arqs(arqs: &Vec<ArqBounds>) -> (r: Vec<ArqBounds>)
    ensures
        r@ == arqs@,
{
    let mut out: Vec<ArqBounds> = Vec::new();
    let mut i: usize = 0;
    while i < arqs.len()
        invariant
            i <= arqs@.len(),
            out@ == arqs@.take(i as int),
        decreases arqs@.len() - i,
    {
        out.push(arqs[i]);
        i = i + 1;
        proof {
            assert(out@ =~= arqs@.take(i as int));
        }
    }
    proof {
        assert(arqs@.take(i as int) =~= arqs@);
    }
    out
}

/// The first `n` digests of a row (all of them if it is shorter).
fn take_row(row: &Vec<RegionData>, n: usize) -> (r: Vec<RegionData>)
    ensures
        r@ == (if n < row@.len() { row@.take(n as int) } else { row@ }),
{
    let mut out: Vec<RegionData> = Vec::new();
    let mut i: usize = 0;
    while i < row.len() && i < n
        invariant
            i <= row@.len(),
            i <= n,
            out@ == row@.take(i as int),
        decreases row@.len() - i,
    {
        out.push(row[i]);
        i = i + 1;
        proof {
            assert(out@ =~= row@.take(i as int));
        }
    }
    proof {
        if n >= row@.len() {
            assert(row@.take(i as int) =~= row@);
        }
    }
    out
}

fn clone_grid(data: &Vec<Vec<RegionData>>) -> (r: Vec<Vec<RegionData>>)
    ensures
        grid_of(r@) == grid_of(data@),
{
    let mut out: Vec<Vec<RegionData>> = Vec::new();
    let mut i: usize = 0;
    while i < data.len()
        invariant
            i <= data@.len(),
            grid_of(out@) == grid_of(data@).take(i as int),
        decreases data@.len() - i,
    {
        let row = take_row(&data[i], data[i].len());
        let ghost prev = out@;
        out.push(row);
        i = i + 1;
        proof {
            assert(out@ == prev.push(row));
            assert(grid_of(prev) == grid_of(data@).take(i - 1));
            assert(row@ == data@[i - 1]@);
            assert forall|k: int| 0 <= k < i implies grid_of(out@)[k] == grid_of(data@)[k] by {
                if k < i - 1 {
                    assert(grid_of(prev)[k] == grid_of(data@)[k]);
                }
            }
            assert(grid_of(out@) =~= grid_of(data@).take(i as int));
        }
    }
    proof {
        assert(grid_of(data@).take(i as int) =~= grid_of(data@));
    }
    out
}

/// Whether two rows hold the same digests.
fn rows_equal(a: &Vec<RegionData>, b: &Vec<RegionData>) -> (r: bool)
    ensures
        r == (a@ == b@),
{
    if a.len() != b.len() {
        return false;
    }
    let mut i: usize = 0;
    while i < a.len()
        invariant
            i <= a@.len() == b@.len(),
            a@.take(i as int) == b@.take(i as int),
        decreases a@.len() - i,
    {
        if a[i] != b[i] {
            return false;
        }
        i = i + 1;
        proof {
            assert(a@.take(i as int) =~= a@.take(i - 1).push(a@[i - 1]));
            assert(b@.take(i as int) =~= b@.take(i - 1).push(b@[i - 1]));
        }
    }
    proof {
        assert(a@ =~= a@.take(i as int));
        assert(b@ =~= b@.take(i as int));
    }
    true
}

impl PartialEq for RegionSetXtcs {
    fn eq(&self, other: &RegionSetXtcs) -> (r: bool) {
        if !(self.coords == other.coords) {
            return false;
        }
        if self.data.len() != other.data.len() {
            proof {
                assert(self.grid().len() != other.grid().len());
            }
            return false;
        }
        let mut i: usize = 0;
        while i < self.data.len()
            invariant
                i <= self.data@.len() == other.data@.len(),
                grid_of(self.data@).take(i as int) == grid_of(other.data@).take(i as int),
            decreases self.data@.len() - i,
        {
            if !rows_equal(&self.data[i], &other.data[i]) {
                proof {
                    assert(grid_of(self.data@)[i as int] != grid_of(other.data@)[i as int]);
                }
                return false;
            }
            i = i + 1;
            proof {
                assert(grid_of(self.data@).take(i as int) =~= grid_of(self.data@).take(i - 1).push(grid_of(self.data@)[i - 1]));
                assert(grid_of(other.data@).take(i as int) =~= grid_of(other.data@).take(i - 1).push(grid_of(other.data@)[i - 1]));
            }
        }
        proof {
            assert(grid_of(self.data@) =~= grid_of(self.data@).take(i as int));
            assert(grid_of(other.data@) =~= grid_of(other.data@).take(i as int));
        }
        true
    }
}

impl vstd::std_specs::cmp::PartialEqSpecImpl for RegionSetXtcs {
    open spec fn obeys_eq_spec() -> bool {
        true
    }

    open spec fn eq_spec(&self, other: &RegionSetXtcs) -> bool {
        self.coords.times == other.coords.times
            && self.coords.arq_set.arqs@ == other.coords.arq_set.arqs@
            && self.grid() == other.grid()
    }
}

/// The two sets ordered so that the one whose times are not greater comes first.
pub open spec fn ordered(x: RegionSetXtcs, y: RegionSetXtcs) -> (RegionSetXtcs, RegionSetXtcs) {
    if x.coords.times.spec_gt(y.coords.times) { (y, x) } else { (x, y) }
}

/// How the windows of `a` (the finer side) merge onto those of `b`.
pub open spec fn rectify_plan(a: RegionSetXtcs, b: RegionSetXtcs) -> Seq<nat> {
    merge_plan(widths(a.coords.spec_cols()), widths(b.coords.spec_cols()))
}

/// The number of windows both sides keep after rectifying.
pub open spec fn common_len(a: RegionSetXtcs, b: RegionSetXtcs) -> nat {
    if a.data@.len() == 0 {
        0
    } else {
        let p = rectify_plan(a, b).len();
        let c = b.coords.spec_cols().len();
        if p < c { p } else { c }
    }
}

/// The finer side's grid after rectifying against `b`.
pub open spec fn rectified_finer(a: RegionSetXtcs, b: RegionSetXtcs) -> Seq<Seq<RegionData>> {
    Seq::new(
        a.data@.len(),
        |i: int| merge_row(a.grid()[i], rectify_plan(a, b), 0).take(common_len(a, b) as int),
    )
}

/// The coarser side's grid after rectifying against `a`.
pub open spec fn rectified_coarser(a: RegionSetXtcs, b: RegionSetXtcs) -> Seq<Seq<RegionData>> {
    Seq::new(b.data@.len(), |i: int| b.grid()[i].take(common_len(a, b) as int))
}

/// The regions of row `i` among the first `j` cells where `da` and `db`
/// differ, with `da`'s digest.
pub open spec fn diff_row(cells: Seq<IndexedCoords>, ra: Seq<RegionData>, rb: Seq<RegionData>, j: int) -> Seq<Region>
    decreases j,
{
    if j <= 0 {
        Seq::empty()
    } else {
        let prev = diff_row(cells, ra, rb, j - 1);
        if ra[j - 1] != rb[j - 1] {
            prev.push(Region { coords: cells[j - 1].1, data: ra[j - 1] })
        } else {
            prev
        }
    }
}

/// The regions of the first `i` rows where `da` and `db` differ, row by
/// row, with `da`'s digest.
pub open spec fn diff_cells(
    nested: Seq<Seq<IndexedCoords>>,
    da: Seq<Seq<RegionData>>,
    db: Seq<Seq<RegionData>>,
    i: int,
) -> Seq<Region>
    decreases i,
{
    if i <= 0 {
        Seq::empty()
    } else {
        diff_cells(nested, da, db, i - 1) + diff_row(nested[i - 1], da[i - 1], db[i - 1], nested[i - 1].len() as int)
    }
}


impl RegionSetXtcs {
    /// The digests as a sequence of rows.
    pub open spec fn grid(&self) -> Seq<Seq<RegionData>> {
        grid_of(self.data@)
    }

    /// The grid has exactly the shape of its coordinates.
    pub open spec fn wf(&self) -> bool {
        &&& self.coords.indexable()
        &&& self.data@.len() == self.coords.spec_rows().len()
        &&& forall|i: int| 0 <= i < self.data@.len() ==> (#[trigger] self.data@[i])@.len() == self.coords.spec_cols().len()
    }

    /// No arcs and no time windows.
    pub fn empty() -> (r: RegionSetXtcs)
        ensures
            r.wf(),
            r.coords.times == TelescopingTimes::empty_spec(),
            r.coords.arq_set.arqs@.len() == 0,
            r.data@.len() == 0,
    {
        proof {
            lemma_all_segments_len(Seq::<ArqBounds>::empty());
        }
        RegionSetXtcs {
            coords: RegionCoordSetXtcs::empty(),
            region_coords_cache: OnceCell::new(),
            data: Vec::new(),
        }
    }

    /// A set from its coordinates and the matching grid of digests.
    pub fn from_data(coords: RegionCoordSetXtcs, data: Vec<Vec<RegionData>>) -> (r: RegionSetXtcs)
        requires
            coords.indexable(),
            data@.len() == coords.spec_rows().len(),
            forall|i: int| 0 <= i < data@.len() ==> (#[trigger] data@[i])@.len() == coords.spec_cols().len(),
        ensures
            r.wf(),
            r.coords == coords,
            r.data == data,
    {
        RegionSetXtcs { coords, region_coords_cache: OnceCell::new(), data }
    }

    /// Every cell computed by asking the store for the digest of the items
    /// in that cell's rectangle.
    pub fn from_store(store: &OpStore, coords: RegionCoordSetXtcs) -> (r: RegionSetXtcs)
        requires
            store.topo.wf(),
            coords.indexable(),
            coords.arq_set.fits(store.topo),
        ensures
            r.wf(),
            r.coords == coords,
            forall|i: int, j: int|
                0 <= i < r.data@.len() && 0 <= j < r.data@[i]@.len() ==> #[trigger] r.data@[i]@[j]
                    == spec_query(store.topo, store.ops@, coords.spec_cell(i, j).1),
    {
        let nested = coords.region_coords_nested();
        let ghost sn = coords.spec_nested();
        proof {
            lemma_rows_fit(coords, store.topo);
            coords.times.lemma_segments_shape();
            lemma_all_segments_len(coords.arq_set.arqs@);
        }
        let mut data: Vec<Vec<RegionData>> = Vec::new();
        let mut i: usize = 0;
        while i < nested.len()
            invariant
                i <= nested@.len(),
                store.topo.wf(),
                nested@.len() == coords.spec_rows().len(),
                forall|k: int| 0 <= k < nested@.len() ==> (#[trigger] nested@[k])@ == sn[k],
                sn == coords.spec_nested(),
                forall|k: int| 0 <= k < coords.spec_rows().len() ==> (#[trigger] coords.spec_rows()[k]).fits(store.topo),
                forall|k: int| 0 <= k < coords.spec_cols().len() ==> (#[trigger] coords.spec_cols()[k]).power < 32,
                data@.len() == i,
                forall|k: int| 0 <= k < i ==> (#[trigger] data@[k])@.len() == coords.spec_cols().len(),
                forall|k: int, j: int|
                    0 <= k < i && 0 <= j < data@[k]@.len() ==> #[trigger] data@[k]@[j]
                        == spec_query(store.topo, store.ops@, coords.spec_cell(k, j).1),
            decreases nested@.len() - i,
        {
            let row = &nested[i];
            let mut out: Vec<RegionData> = Vec::new();
            let mut j: usize = 0;
            proof {
                assert(row@ == sn[i as int]);
            }
            while j < row.len()
                invariant
                    j <= row@.len(),
                    i < nested@.len(),
                    store.topo.wf(),
                    row@ == sn[i as int],
                    sn == coords.spec_nested(),
                    nested@.len() == coords.spec_rows().len(),
                    (coords.spec_rows()[i as int]).fits(store.topo),
                    forall|k: int| 0 <= k < coords.spec_cols().len() ==> (#[trigger] coords.spec_cols()[k]).power < 32,
                    out@.len() == j,
                    forall|k: int| 0 <= k < j ==> #[trigger] out@[k]
                        == spec_query(store.topo, store.ops@, coords.spec_cell(i as int, k).1),
                decreases row@.len() - j,
            {
                let c = row[j].1;
                proof {
                    assert(c == coords.spec_cell(i as int, j as int).1);
                }
                out.push(store.query_region_coords(&c));
                j = j + 1;
            }
            data.push(out);
            i = i + 1;
        }
        RegionSetXtcs { coords, region_coords_cache: OnceCell::new(), data }
    }

    /// The number of cells: rows times columns, 0 when there are no rows.
    pub fn count(&self) -> (r: usize)
        requires
            self.data@.len() > 0 ==> self.data@.len() * self.data@[0]@.len() <= usize::MAX,
        ensures
            r == (if self.data@.len() == 0 { 0 } else { self.data@.len() * self.data@[0]@.len() }),
    {
        if self.data.len() == 0 {
            0
        } else {
            self.data.len() * self.data[0].len()
        }
    }
}

proof fn lemma_rows_fit(coords: RegionCoordSetXtcs, topo: Topology)
    requires
        coords.arq_set.fits(topo),
    ensures
        forall|k: int| 0 <= k < coords.spec_rows().len() ==> (#[trigger] coords.spec_rows()[k]).fits(topo),
{
    lemma_all_fit(coords.arq_set.arqs@, topo);
}

proof fn lemma_all_fit(arqs: Seq<ArqBounds>, topo: Topology)
    requires
        forall|i: int| 0 <= i < arqs.len() ==> #[trigger] arqs[i].fits(topo),
    ensures
        forall|k: int| 0 <= k < all_segments(arqs).len() ==> (#[trigger] all_segments(arqs)[k]).fits(topo),
    decreases arqs.len(),
{
    if arqs.len() > 0 {
        lemma_all_fit(arqs.drop_last(), topo);
        let prev = all_segments(arqs.drop_last());
        let last = arqs.last().spec_segments();
        assert(arqs.last().fits(topo));
        assert forall|k: int| 0 <= k < all_segments(arqs).len() implies (#[trigger] all_segments(arqs)[k]).fits(topo) by {
            if k >= prev.len() {
                assert(all_segments(arqs)[k] == last[k - prev.len()]);
            } else {
                assert(all_segments(arqs)[k] == prev[k]);
            }
        }
    }
}

proof fn lemma_merge_row_len(row: Seq<RegionData>, plan: Seq<nat>, s: int)
    ensures
        merge_row(row, plan, s).len() == plan.len(),
    decreases plan.len(),
{
    if plan.len() > 0 {
        lemma_merge_row_len(row, plan.skip(1), s + plan[0]);
    }
}

/// Merging in groups of one keeps the row as it is.
proof fn lemma_merge_row_ones(row: Seq<RegionData>, n: nat, s: int)
    requires
        0 <= s,
        s + n <= row.len(),
    ensures
        merge_row(row, Seq::new(n, |i: int| 1nat), s) == row.subrange(s, s + n),
    decreases n,
{
    let ones = Seq::new(n, |i: int| 1nat);
    if n > 0 {
        assert(ones.skip(1) =~= Seq::new((n - 1) as nat, |i: int| 1nat));
        lemma_merge_row_ones(row, (n - 1) as nat, s + 1);
        lemma_sum_single(row.subrange(s, s + 1));
        assert(merge_row(row, ones, s) =~= row.subrange(s, s + n));
    } else {
        assert(merge_row(row, ones, s) =~= row.subrange(s, s + n));
    }
}

/// Combines the digests of `row` group by group, for the first `n` groups
/// of `plan`.
fn merge_apply(row: &Vec<RegionData>, plan: &Vec<usize>, n: usize) -> (r: Vec<RegionData>)
    requires
        n <= plan@.len(),
        plan_total(plan@.map_values(|g: usize| g as nat)) == row@.len(),
        forall|i: int| 0 <= i < plan@.len() ==> #[trigger] plan@[i] >= 1,
    ensures
        r@ == merge_row(row@, plan@.map_values(|g: usize| g as nat), 0).take(n as int),
{
    let ghost pv = plan@.map_values(|g: usize| g as nat);
    let row_len = row.len();
    let mut out: Vec<RegionData> = Vec::new();
    let mut s: usize = 0;
    let mut k: usize = 0;
    proof {
        assert(pv.skip(0) =~= pv);
    }
    while k < n
        invariant
            k <= n <= plan@.len(),
            pv == plan@.map_values(|g: usize| g as nat),
            forall|i: int| 0 <= i < plan@.len() ==> #[trigger] plan@[i] >= 1,
            s + plan_total(pv.skip(k as int)) == row@.len(),
            row@.len() == row_len,
            out@.len() == k,
            merge_row(row@, pv, 0) == out@ + merge_row(row@, pv.skip(k as int), s as int),
        decreases n - k,
    {
        let g = plan[k];
        proof {
            assert(pv.skip(k as int).skip(1) =~= pv.skip(k + 1));
            assert(pv.skip(k as int)[0] == g);
            assert(plan_total(pv.skip(k as int)) == g + plan_total(pv.skip(k + 1)));
        }
        assert(s + g <= row@.len());
        let mut acc = row[s];
        let mut j: usize = 1;
        proof {
            lemma_sum_single(row@.subrange(s as int, s + 1));
        }
        while j < g
            invariant
                1 <= j <= g,
                s + g <= row@.len(),
                row@.len() == row_len,
                acc == spec_sum(row@.subrange(s as int, s + j)),
            decreases g - j,
        {
            proof {
                let t = row@.subrange(s as int, s + j + 1);
                assert(t.drop_last() =~= row@.subrange(s as int, s + j));
                assert(t.last() == row@[s + j]);
            }
            acc = acc.combine(&row[s + j]);
            j = j + 1;
        }
        let ghost prev = out@;
        out.push(acc);
        proof {
            assert(merge_row(row@, pv.skip(k as int), s as int)
                == seq![acc] + merge_row(row@, pv.skip(k + 1), s + g));
            assert(merge_row(row@, pv, 0) =~= out@ + merge_row(row@, pv.skip(k + 1), s + g));
        }
        s = s + g;
        k = k + 1;
    }
    proof {
        assert(out@ =~= merge_row(row@, pv, 0).take(n as int));
    }
    out
}

/// The mismatching regions of two rectified grids over `coords`.
pub open spec fn spec_mismatches(
    coords: RegionCoordSetXtcs,
    da: Seq<Seq<RegionData>>,
    db: Seq<Seq<RegionData>>,
) -> Seq<Region> {
    diff_cells(coords.spec_nested(), da, db, coords.spec_nested().len() as int)
}

/// What [`RegionSetXtcs::diff`] returns when the arcs match: the regions
/// where the two rectified grids differ, with the digest of the side that
/// ends up first after rectifying.
pub open spec fn spec_diff(x: RegionSetXtcs, y: RegionSetXtcs) -> Seq<Region> {
    let (a, b) = ordered(x, y);
    let c = common_len(a, b);
    spec_mismatches(
        RegionCoordSetXtcs { times: b.coords.times.spec_limit(c as u32), arq_set: a.coords.arq_set },
        rectified_finer(a, b),
        rectified_coarser(a, b),
    )
}

impl RegionSetXtcs {
    /// Reshapes both sets onto common time windows: the side with the
    /// coarser-or-equal times (not greater) ends up in `self`, its windows
    /// merged onto the other side's, and both are cut to the windows they
    /// share. Fails, changing nothing, when the arcs differ.
    pub fn rectify(&mut self, other: &mut RegionSetXtcs) -> (r: Result<(), GossipError>)
        requires
            old(self).wf(),
            old(other).wf(),
        ensures
            old(self).coords.arq_set.arqs@ != old(other).coords.arq_set.arqs@ ==> {
                &&& r == Err::<(), GossipError>(GossipError::ArqSetMismatchForDiff)
                &&& *final(self) == *old(self)
                &&& *final(other) == *old(other)
            },
            old(self).coords.arq_set.arqs@ == old(other).coords.arq_set.arqs@ ==> {
                let (a, b) = ordered(*old(self), *old(other));
                let c = common_len(a, b);
                &&& r == Ok::<(), GossipError>(())
                &&& final(self).wf()
                &&& final(other).wf()
                &&& final(self).coords.times == b.coords.times.spec_limit(c as u32)
                &&& final(other).coords.times == b.coords.times.spec_limit(c as u32)
                &&& final(self).coords.arq_set == a.coords.arq_set
                &&& final(other).coords.arq_set == b.coords.arq_set
                &&& final(self).grid() == rectified_finer(a, b)
                &&& final(other).grid() == rectified_coarser(a, b)
                &&& final(self).coords.spec_cols() == b.coords.spec_cols().take(c as int)
            },
    {
        if !(self.coords.arq_set == other.coords.arq_set) {
            return Err(GossipError::ArqSetMismatchForDiff);
        }
        if self.coords.times.gt(&other.coords.times) {
            std::mem::swap(self, other);
        }
        let ghost a = *self;
        let ghost b = *other;
        let lsegs = self.coords.times.segments();
        let rsegs = other.coords.times.segments();
        let lw = segment_widths(&lsegs);
        let rw = segment_widths(&rsegs);
        proof {
            assert(lw@.map_values(|x: u64| x as int) =~= widths(lsegs@));
            assert(rw@.map_values(|x: u64| x as int) =~= widths(rsegs@));
        }
        let plan = merge_plan_of(&lw, &rw);
        let ghost pv = plan@.map_values(|g: usize| g as nat);
        proof {
            assert(pv == rectify_plan(a, b));
            lemma_plan_total(widths(lsegs@), widths(rsegs@), 0, 0);
            assert forall|i: int| 0 <= i < plan@.len() implies #[trigger] plan@[i] >= 1 by {
                assert(pv[i] >= 1);
            }
        }
        let common: usize = if self.data.len() == 0 {
            0
        } else if plan.len() < rsegs.len() {
            plan.len()
        } else {
            rsegs.len()
        };
        let mut new_a: Vec<Vec<RegionData>> = Vec::new();
        let mut i: usize = 0;
        while i < self.data.len()
            invariant
                *self == a,
                a.wf(),
                i <= a.data@.len(),
                pv == plan@.map_values(|g: usize| g as nat),
                pv == rectify_plan(a, b),
                common == common_len(a, b),
                common <= plan@.len(),
                plan_total(pv) == lsegs@.len(),
                lsegs@ == a.coords.spec_cols(),
                forall|i: int| 0 <= i < plan@.len() ==> #[trigger] plan@[i] >= 1,
                new_a@.len() == i,
                forall|k: int| 0 <= k < i ==> (#[trigger] new_a@[k])@ == rectified_finer(a, b)[k],
            decreases a.data@.len() - i,
        {
            let row = merge_apply(&self.data[i], &plan, common);
            new_a.push(row);
            i = i + 1;
        }
        let mut new_b: Vec<Vec<RegionData>> = Vec::new();
        let mut i: usize = 0;
        while i < other.data.len()
            invariant
                *other == b,
                b.wf(),
                i <= b.data@.len(),
                common == common_len(a, b),
                common <= rsegs@.len(),
                rsegs@ == b.coords.spec_cols(),
                new_b@.len() == i,
                forall|k: int| 0 <= k < i ==> (#[trigger] new_b@[k])@ == rectified_coarser(a, b)[k],
            decreases b.data@.len() - i,
        {
            let row = take_row(&other.data[i], common);
            proof {
                assert(row@ =~= rectified_coarser(a, b)[i as int]);
            }
            new_b.push(row);
            i = i + 1;
        }
        proof {
            assert(grid_of(new_a@) =~= rectified_finer(a, b));
            assert(grid_of(new_b@) =~= rectified_coarser(a, b));
            b.coords.times.lemma_limit(common as u32);
            lemma_all_segments_len(a.coords.arq_set.arqs@);
            assert forall|k: int| 0 <= k < new_a@.len() implies (#[trigger] new_a@[k])@.len() == common by {
                lemma_merge_row_len(a.grid()[k], pv, 0);
            }
        }
        self.data = new_a;
        other.data = new_b;
        let times = other.coords.times.limit(common as u32);
        self.coords.times = times;
        other.coords.times = times;
        Ok(())
    }
}

/// The regions of two grids over `nested` that differ, row by row.
fn mismatches(
    nested: &Vec<Vec<IndexedCoords>>,
    da: &Vec<Vec<RegionData>>,
    db: &Vec<Vec<RegionData>>,
) -> (r: Vec<Region>)
    requires
        da@.len() == nested@.len(),
        db@.len() == nested@.len(),
        forall|i: int| 0 <= i < nested@.len() ==> (#[trigger] da@[i])@.len() == nested@[i]@.len(),
        forall|i: int| 0 <= i < nested@.len() ==> (#[trigger] db@[i])@.len() == nested@[i]@.len(),
    ensures
        r@ == diff_cells(
            nested@.map_values(|row: Vec<IndexedCoords>| row@),
            grid_of(da@),
            grid_of(db@),
            nested@.len() as int,
        ),
{
    let ghost n = nested@.map_values(|row: Vec<IndexedCoords>| row@);
    let ghost ga = grid_of(da@);
    let ghost gb = grid_of(db@);
    let mut out: Vec<Region> = Vec::new();
    let mut i: usize = 0;
    while i < nested.len()
        invariant
            i <= nested@.len(),
            da@.len() == nested@.len(),
            db@.len() == nested@.len(),
            forall|i: int| 0 <= i < nested@.len() ==> (#[trigger] da@[i])@.len() == nested@[i]@.len(),
            forall|i: int| 0 <= i < nested@.len() ==> (#[trigger] db@[i])@.len() == nested@[i]@.len(),
            n == nested@.map_values(|row: Vec<IndexedCoords>| row@),
            ga == grid_of(da@),
            gb == grid_of(db@),
            out@ == diff_cells(n, ga, gb, i as int),
        decreases nested@.len() - i,
    {
        let cells = &nested[i];
        let ra = &da[i];
        let rb = &db[i];
        let mut j: usize = 0;
        while j < cells.len()
            invariant
                i < nested@.len(),
                j <= cells@.len(),
                *cells == nested@[i as int],
                *ra == da@[i as int],
                *rb == db@[i as int],
                ra@.len() == cells@.len(),
                rb@.len() == cells@.len(),
                n == nested@.map_values(|row: Vec<IndexedCoords>| row@),
                ga == grid_of(da@),
                gb == grid_of(db@),
                out@ == diff_cells(n, ga, gb, i as int) + diff_row(cells@, ra@, rb@, j as int),
            decreases cells@.len() - j,
        {
            if ra[j] != rb[j] {
                out.push(Region::new(cells[j].1, ra[j]));
            }
            j = j + 1;
            proof {
                assert(out@ =~= diff_cells(n, ga, gb, i as int) + diff_row(cells@, ra@, rb@, j as int));
            }
        }
        i = i + 1;
        proof {
            assert(n[i - 1] == cells@);
            assert(ga[i - 1] == ra@);
            assert(gb[i - 1] == rb@);
        }
    }
    out
}

impl RegionSetXtcs {
    /// The regions where two sets differ, after rectifying them, row by row,
    /// with the digest of the side that is first after rectifying. Fails
    /// when the arcs differ.
    pub fn diff(self, other: RegionSetXtcs) -> (r: Result<Vec<Region>, GossipError>)
        requires
            self.wf(),
            other.wf(),
        ensures
            self.coords.arq_set.arqs@ != other.coords.arq_set.arqs@
                ==> r == Err::<Vec<Region>, GossipError>(GossipError::ArqSetMismatchForDiff),
            self.coords.arq_set.arqs@ == other.coords.arq_set.arqs@
                ==> r is Ok && r->Ok_0@ == spec_diff(self, other),
    {
        let mut a = self;
        let mut b = other;
        match a.rectify(&mut b) {
            Err(e) => {
                return Err(e);
            },
            Ok(()) => {},
        }
        proof {
            lemma_all_segments_len(a.coords.arq_set.arqs@);
        }
        let nested = a.coords.region_coords_nested();
        proof {
            let ghost n = nested@.map_values(|row: Vec<IndexedCoords>| row@);
            assert(n == a.coords.spec_nested());
            assert forall|i: int| 0 <= i < nested@.len() implies (#[trigger] a.data@[i])@.len() == nested@[i]@.len() by {
                assert(nested@[i]@ == n[i]);
            }
            assert forall|i: int| 0 <= i < nested@.len() implies (#[trigger] b.data@[i])@.len() == nested@[i]@.len() by {
                assert(nested@[i]@ == n[i]);
            }
        }
        Ok(mismatches(&nested, &a.data, &b.data))
    }

    /// Every region of the set with its digest, row by row.
    pub fn regions(&self) -> (r: Vec<Region>)
        requires
            self.wf(),
        ensures
            r@ == flatten(
                Seq::new(
                    self.data@.len(),
                    |i: int| Seq::new(
                        self.coords.spec_cols().len(),
                        |j: int| Region { coords: self.coords.spec_cell(i, j).1, data: self.grid()[i][j] },
                    ),
                ),
            ),
    {
        let ghost want = Seq::new(
            self.data@.len(),
            |i: int| Seq::new(
                self.coords.spec_cols().len(),
                |j: int| Region { coords: self.coords.spec_cell(i, j).1, data: self.grid()[i][j] },
            ),
        );
        proof {
            lemma_all_segments_len(self.coords.arq_set.arqs@);
        }
        let nested = self.coords.region_coords_nested();
        let mut out: Vec<Region> = Vec::new();
        let mut i: usize = 0;
        while i < nested.len()
            invariant
                self.wf(),
                i <= nested@.len(),
                nested@.len() == self.data@.len(),
                nested@.map_values(|row: Vec<IndexedCoords>| row@) == self.coords.spec_nested(),
                want == Seq::new(
                    self.data@.len(),
                    |i: int| Seq::new(
                        self.coords.spec_cols().len(),
                        |j: int| Region { coords: self.coords.spec_cell(i, j).1, data: self.grid()[i][j] },
                    ),
                ),
                out@ == flatten(want.take(i as int)),
            decreases nested@.len() - i,
        {
            let cells = &nested[i];
            let row = &self.data[i];
            proof {
                assert(cells@ == self.coords.spec_nested()[i as int]);
            }
            let mut j: usize = 0;
            while j < cells.len()
                invariant
                    self.wf(),
                    i < nested@.len() == self.data@.len(),
                    j <= cells@.len(),
                    cells@ == self.coords.spec_nested()[i as int],
                    *row == self.data@[i as int],
                    row@.len() == cells@.len(),
                    want[i as int] == Seq::new(
                        self.coords.spec_cols().len(),
                        |j: int| Region { coords: self.coords.spec_cell(i as int, j).1, data: self.grid()[i as int][j] },
                    ),
                    out@ == flatten(want.take(i as int)) + want[i as int].take(j as int),
                decreases cells@.len() - j,
            {
                out.push(Region::new(cells[j].1, row[j]));
                j = j + 1;
                proof {
                    assert(out@ =~= flatten(want.take(i as int)) + want[i as int].take(j as int));
                }
            }
            proof {
                assert(want.take(i + 1).drop_last() =~= want.take(i as int));
                assert(want[i as int].take(j as int) =~= want[i as int]);
                assert(out@ =~= flatten(want.take(i + 1)));
            }
            i = i + 1;
        }
        proof {
            assert(want.take(i as int) =~= want);
        }
        out
    }
}

/// `diff_row` over two equal rows finds nothing.
proof fn lemma_diff_row_same(cells: Seq<IndexedCoords>, ra: Seq<RegionData>, j: int)
    ensures
        diff_row(cells, ra, ra, j) == Seq::<Region>::empty(),
    decreases j,
{
    if j > 0 {
        lemma_diff_row_same(cells, ra, j - 1);
    }
}

/// `diff_cells` over two equal grids finds nothing.
proof fn lemma_diff_cells_same(nested: Seq<Seq<IndexedCoords>>, da: Seq<Seq<RegionData>>, i: int)
    ensures
        diff_cells(nested, da, da, i) == Seq::<Region>::empty(),
    decreases i,
{
    if i > 0 {
        lemma_diff_cells_same(nested, da, i - 1);
        lemma_diff_row_same(nested[i - 1], da[i - 1], nested[i - 1].len() as int);
        assert(diff_cells(nested, da, da, i) =~= Seq::<Region>::empty());
    }
}

/// Rectifying two sets with the same coordinates and the same digests
/// changes no digest, keeps the order of the two, and (where there is at
/// least one spatial segment) keeps every window.
pub proof fn lemma_rectify_idempotent(a: RegionSetXtcs, b: RegionSetXtcs)
    requires
        a.wf(),
        b.wf(),
        a.coords.times == b.coords.times,
        a.coords.arq_set.arqs@ == b.coords.arq_set.arqs@,
        a.grid() == b.grid(),
    ensures
        ordered(a, b) == (a, b),
        rectified_finer(a, b) == a.grid(),
        rectified_coarser(a, b) == b.grid(),
        a.data@.len() > 0 ==> b.coords.times.spec_limit(common_len(a, b) as u32).spec_segments()
            == b.coords.spec_cols(),
{
    let w = widths(a.coords.spec_cols());
    let n = w.len();
    a.coords.times.lemma_segments_shape();
    lemma_plan_identity(w, 0);
    lemma_all_segments_len(a.coords.arq_set.arqs@);
    let c = common_len(a, b);
    assert(c <= n);
    assert forall|i: int| 0 <= i < a.data@.len() implies #[trigger] rectified_finer(a, b)[i] == a.grid()[i] by {
        let row = a.grid()[i];
        assert(row.len() == n);
        lemma_merge_row_ones(row, n, 0);
        assert(c == n);
        assert(row.subrange(0, n as int) =~= row);
        assert(row.take(n as int) =~= row);
    }
    assert(rectified_finer(a, b) =~= a.grid());
    assert forall|i: int| 0 <= i < b.data@.len() implies #[trigger] rectified_coarser(a, b)[i] == b.grid()[i] by {
        assert(c == n);
        assert(b.grid()[i].take(n as int) =~= b.grid()[i]);
    }
    assert(rectified_coarser(a, b) =~= b.grid());
    b.coords.times.lemma_limit(c as u32);
    if a.data@.len() > 0 {
        assert(c == n);
        assert(b.coords.spec_cols().take(c as int) =~= b.coords.spec_cols());
    }
}

/// A set has no mismatching region with a copy of itself.
pub proof fn lemma_diff_reflexive(a: RegionSetXtcs, b: RegionSetXtcs)
    requires
        a.wf(),
        b.wf(),
        a.coords.times == b.coords.times,
        a.coords.arq_set.arqs@ == b.coords.arq_set.arqs@,
        a.grid() == b.grid(),
    ensures
        spec_diff(a, b) == Seq::<Region>::empty(),
{
    lemma_rectify_idempotent(a, b);
    let c = common_len(a, b);
    let coords = RegionCoordSetXtcs { times: b.coords.times.spec_limit(c as u32), arq_set: a.coords.arq_set };
    lemma_diff_cells_same(coords.spec_nested(), a.grid(), coords.spec_nested().len() as int);
}

impl RegionCoordSetXtcs {
    /// Fills the grid with the digest `f` gives each cell, stopping at the
    /// first error.
    pub fn into_region_set<E, F>(self, f: F) -> (r: Result<RegionSetXtcs, E>)
        where
            F: Fn(IndexedCoords) -> Result<RegionData, E>,
        requires
            self.indexable(),
            forall|c: IndexedCoords| #[trigger] f.requires((c,)),
        ensures
            r is Ok ==> {
                &&& r->Ok_0.wf()
                &&& r->Ok_0.coords == self
                &&& forall|i: int, j: int|
                    0 <= i < self.spec_rows().len() && 0 <= j < self.spec_cols().len()
                        ==> f.ensures((self.spec_cell(i, j),), Ok::<RegionData, E>(#[trigger] r->Ok_0.grid()[i][j]))
            },
            (forall|i: int, j: int, res: Result<RegionData, E>|
                0 <= i < self.spec_rows().len() && 0 <= j < self.spec_cols().len()
                    && #[trigger] f.ensures((self.spec_cell(i, j),), res) ==> res is Ok) ==> r is Ok,
    {
        proof {
            lemma_all_segments_len(self.arq_set.arqs@);
        }
        let nested = self.region_coords_nested();
        let ghost sn = self.spec_nested();
        let mut data: Vec<Vec<RegionData>> = Vec::new();
        let mut i: usize = 0;
        while i < nested.len()
            invariant
                i <= nested@.len(),
                nested@.len() == self.spec_rows().len(),
                forall|k: int| 0 <= k < nested@.len() ==> (#[trigger] nested@[k])@ == sn[k],
                sn == self.spec_nested(),
                forall|c: IndexedCoords| #[trigger] f.requires((c,)),
                data@.len() == i,
                forall|k: int| 0 <= k < i ==> (#[trigger] data@[k])@.len() == self.spec_cols().len(),
                forall|k: int, j: int|
                    0 <= k < i && 0 <= j < self.spec_cols().len()
                        ==> f.ensures((self.spec_cell(k, j),), Ok::<RegionData, E>(#[trigger] data@[k]@[j])),
            decreases nested@.len() - i,
        {
            let row = &nested[i];
            let mut out: Vec<RegionData> = Vec::new();
            let mut j: usize = 0;
            proof {
                assert(row@ == sn[i as int]);
            }
            while j < row.len()
                invariant
                    j <= row@.len(),
                    i < nested@.len(),
                    nested@.len() == self.spec_rows().len(),
                    row@ == sn[i as int],
                    sn == self.spec_nested(),
                    forall|c: IndexedCoords| #[trigger] f.requires((c,)),
                    out@.len() == j,
                    forall|k: int| 0 <= k < j
                        ==> f.ensures((self.spec_cell(i as int, k),), Ok::<RegionData, E>(#[trigger] out@[k])),
                decreases row@.len() - j,
            {
                let c = row[j];
                proof {
                    assert(c == self.spec_cell(i as int, j as int));
                }
                let res = f(c);
                match res {
                    Ok(d) => {
                        out.push(d);
                    },
                    Err(e) => {
                        proof {
                            assert(j < self.spec_cols().len());
                            assert(f.ensures((self.spec_cell(i as int, j as int),), Err::<RegionData, E>(e)));
                        }
                        return Err(e);
                    },
                }
                j = j + 1;
            }
            data.push(out);
            i = i + 1;
        }
        Ok(RegionSetXtcs { coords: self, region_coords_cache: OnceCell::new(), data })
    }
}

/// A set of regions. The XTCS layout is the one representation so far;
/// this leaves room for another.
#[derive(Debug)]
pub enum RegionSet {
    /// eXponential Time, Constant Space.
    Xtcs(RegionSetXtcs),
}

impl RegionSet {
    /// The set in its XTCS layout.
    pub open spec fn xtcs(&self) -> RegionSetXtcs {
        match self {
            RegionSet::Xtcs(set) => *set,
        }
    }

    /// The number of regions in the set.
    pub fn count(&self) -> (r: usize)
        requires
            self.xtcs().data@.len() > 0 ==> self.xtcs().data@.len() * self.xtcs().data@[0]@.len() <= usize::MAX,
        ensures
            r == (if self.xtcs().data@.len() == 0 {
                0
            } else {
                self.xtcs().data@.len() * self.xtcs().data@[0]@.len()
            }),
    {
        match self {
            RegionSet::Xtcs(set) => set.count(),
        }
    }

    /// The coordinates of every region, row by row.
    pub fn region_coords(&self) -> (r: Vec<RegionCoords>)
        requires
            self.xtcs().coords.indexable(),
        ensures
            r@ == flatten(self.xtcs().coords.spec_nested()).map_values(|c: IndexedCoords| c.1),
    {
        match self {
            RegionSet::Xtcs(set) => {
                let flat = set.coords.region_coords_flat();
                let mut out: Vec<RegionCoords> = Vec::new();
                let mut i: usize = 0;
                while i < flat.len()
                    invariant
                        i <= flat@.len(),
                        out@ == flat@.take(i as int).map_values(|c: IndexedCoords| c.1),
                    decreases flat@.len() - i,
                {
                    out.push(flat[i].1);
                    i = i + 1;
                    proof {
                        assert(out@ =~= flat@.take(i as int).map_values(|c: IndexedCoords| c.1));
                    }
                }
                proof {
                    assert(flat@.take(i as int) =~= flat@);
                }
                out
            },
        }
    }

    /// Every region of the set with its digest, row by row.
    pub fn regions(&self) -> (r: Vec<Region>)
        requires
            self.xtcs().wf(),
        ensures
            r@ == flatten(
                Seq::new(
                    self.xtcs().data@.len(),
                    |i: int| Seq::new(
                        self.xtcs().coords.spec_cols().len(),
                        |j: int| Region {
                            coords: self.xtcs().coords.spec_cell(i, j).1,
                            data: self.xtcs().grid()[i][j],
                        },
                    ),
                ),
            ),
    {
        match self {
            RegionSet::Xtcs(set) => set.regions(),
        }
    }

    /// The regions where two sets differ; see [`RegionSetXtcs::diff`].
    pub fn diff(self, other: RegionSet) -> (r: Result<Vec<Region>, GossipError>)
        requires
            self.xtcs().wf(),
            other.xtcs().wf(),
        ensures
            self.xtcs().coords.arq_set.arqs@ != other.xtcs().coords.arq_set.arqs@
                ==> r == Err::<Vec<Region>, GossipError>(GossipError::ArqSetMismatchForDiff),
            self.xtcs().coords.arq_set.arqs@ == other.xtcs().coords.arq_set.arqs@
                ==> r is Ok && r->Ok_0@ == spec_diff(self.xtcs(), other.xtcs()),
    {
        match (self, other) {
            (RegionSet::Xtcs(left), RegionSet::Xtcs(right)) => left.diff(right),
        }
    }
}

/// `plan_total` of a prefix grows by one group at a time.
proof fn lemma_plan_total_step(plan: Seq<nat>, k: int)
    requires
        0 <= k < plan.len(),
    ensures
        plan_total(plan.take(k + 1)) == plan_total(plan.take(k)) + plan[k],
    decreases k,
{
    let t1 = plan.take(k + 1);
    assert(t1.skip(1) =~= plan.skip(1).take(k));
    assert(plan_total(t1) == plan[0] + plan_total(plan.skip(1).take(k)));
    if k > 0 {
        lemma_plan_total_step(plan.skip(1), k - 1);
        let t0 = plan.take(k);
        assert(t0.skip(1) =~= plan.skip(1).take(k - 1));
        assert(plan_total(t0) == plan[0] + plan_total(plan.skip(1).take(k - 1)));
    } else {
        assert(plan.take(0).len() == 0);
        assert(plan_total(plan.take(0)) == 0);
        assert(plan.skip(1).take(0).len() == 0);
        assert(plan_total(plan.skip(1).take(0)) == 0);
    }
}

/// `plan_total` of a prefix is at most the total.
proof fn lemma_plan_total_prefix(plan: Seq<nat>, k: int)
    requires
        0 <= k <= plan.len(),
    ensures
        plan_total(plan.take(k)) <= plan_total(plan),
    decreases plan.len() - k,
{
    if k < plan.len() {
        lemma_plan_total_step(plan, k);
        lemma_plan_total_prefix(plan, k + 1);
    } else {
        assert(plan.take(k) =~= plan);
    }
}

/// Group `k` of a merged row combines the digests from the end of the
/// earlier groups to the end of group `k`.
proof fn lemma_merge_row_index(row: Seq<RegionData>, plan: Seq<nat>, s: int, k: int)
    requires
        0 <= k < plan.len(),
    ensures
        merge_row(row, plan, s)[k]
            == spec_sum(row.subrange(s + plan_total(plan.take(k)), s + plan_total(plan.take(k + 1)))),
    decreases k,
{
    lemma_merge_row_len(row, plan, s);
    let rest = merge_row(row, plan.skip(1), s + plan[0]);
    assert(merge_row(row, plan, s) == seq![spec_sum(row.subrange(s, s + plan[0]))] + rest);
    lemma_plan_total_step(plan, k);
    if k == 0 {
        assert(plan.take(0).len() == 0);
        assert(plan_total(plan.take(0)) == 0);
    } else {
        lemma_merge_row_index(row, plan.skip(1), s + plan[0], k - 1);
        assert(merge_row(row, plan, s)[k] == rest[k - 1]);
        let t0 = plan.take(k);
        let t1 = plan.take(k + 1);
        assert(t0.skip(1) =~= plan.skip(1).take(k - 1));
        assert(t1.skip(1) =~= plan.skip(1).take(k));
        assert(plan_total(t0) == plan[0] + plan_total(plan.skip(1).take(k - 1)));
        assert(plan_total(t1) == plan[0] + plan_total(plan.skip(1).take(k)));
    }
}

/// Every cell of the set holds the store's digest of its rectangle.
pub open spec fn built_from(x: RegionSetXtcs, topo: Topology, ops: Seq<OpData>) -> bool {
    forall|i: int, j: int|
        0 <= i < x.data@.len() && 0 <= j < x.data@[i]@.len() ==> #[trigger] x.grid()[i][j]
            == spec_query(topo, ops, x.coords.spec_cell(i, j).1)
}

/// Each merged window of the finer side ends where the matching window of
/// the coarser side ends.
pub open spec fn aligned(a: RegionSetXtcs, b: RegionSetXtcs) -> bool {
    let plan = rectify_plan(a, b);
    forall|k: int| 0 <= k < common_len(a, b)
        ==> a.coords.spec_cols()[plan_total(plan.take(k + 1)) - 1].end() == (#[trigger] b.coords.spec_cols()[k]).end()
}

/// A run of contiguous windows whose digests are the store's digests over
/// those windows holds, summed, the store's digest over the whole run.
proof fn lemma_row_sum(
    topo: Topology,
    ops: Seq<OpData>,
    space: SpaceSegment,
    row: Seq<RegionData>,
    lo: Seq<int>,
    hi: Seq<int>,
    s: int,
    e: int,
)
    requires
        row.len() == lo.len() == hi.len(),
        forall|j: int| 0 <= j < row.len() ==> #[trigger] row[j] == spec_query_span(topo, ops, space, lo[j], hi[j]),
        forall|j: int| 0 <= j < row.len() ==> lo[j] <= #[trigger] hi[j],
        forall|j: int| 0 <= j < row.len() - 1 ==> #[trigger] hi[j] == lo[j + 1],
        0 <= s < e <= row.len(),
    ensures
        spec_sum(row.subrange(s, e)) == spec_query_span(topo, ops, space, lo[s], hi[e - 1]),
    decreases e - s,
{
    if e == s + 1 {
        lemma_sum_single(row.subrange(s, e));
    } else {
        lemma_row_sum(topo, ops, space, row, lo, hi, s, e - 1);
        let t = row.subrange(s, e);
        assert(t.drop_last() =~= row.subrange(s, e - 1));
        assert(t.last() == row[e - 1]);
        assert(hi[e - 2] == lo[e - 1]);
        assert(lo[s] <= hi[e - 2]) by {
            lemma_ordered_run(lo, hi, s, e - 2);
        }
        lemma_span_split(topo, ops, space, lo[s], lo[e - 1], hi[e - 1]);
    }
}

proof fn lemma_ordered_run(lo: Seq<int>, hi: Seq<int>, s: int, e: int)
    requires
        lo.len() == hi.len(),
        forall|j: int| 0 <= j < lo.len() ==> lo[j] <= #[trigger] hi[j],
        forall|j: int| 0 <= j < lo.len() - 1 ==> #[trigger] hi[j] == lo[j + 1],
        0 <= s <= e < lo.len(),
    ensures
        lo[s] <= hi[e],
    decreases e - s,
{
    if s < e {
        lemma_ordered_run(lo, hi, s, e - 1);
        assert(hi[e - 1] == lo[e]);
    }
}

/// Two sets over the same arcs, built from the same items, agree cell for
/// cell after rectifying, wherever the merged windows of the finer side
/// line up with the windows of the coarser side.
pub proof fn lemma_rectify_converges(topo: Topology, ops: Seq<OpData>, x: RegionSetXtcs, y: RegionSetXtcs)
    requires
        x.wf(),
        y.wf(),
        x.coords.arq_set.arqs@ == y.coords.arq_set.arqs@,
        built_from(x, topo, ops),
        built_from(y, topo, ops),
        aligned(ordered(x, y).0, ordered(x, y).1),
    ensures
        rectified_finer(ordered(x, y).0, ordered(x, y).1) == rectified_coarser(ordered(x, y).0, ordered(x, y).1),
{
    let (a, b) = ordered(x, y);
    let plan = rectify_plan(a, b);
    let c = common_len(a, b);
    let la = a.coords.spec_cols();
    let rb = b.coords.spec_cols();
    a.coords.times.lemma_segments_shape();
    b.coords.times.lemma_segments_shape();
    a.coords.times.lemma_segments_contiguous();
    b.coords.times.lemma_segments_contiguous();
    lemma_all_segments_len(a.coords.arq_set.arqs@);
    lemma_plan_total(widths(la), widths(rb), 0, 0);
    assert(widths(la).len() == la.len());
    let fin = rectified_finer(a, b);
    let coa = rectified_coarser(a, b);
    assert forall|i: int| 0 <= i < fin.len() implies #[trigger] fin[i] == coa[i] by {
        let row = a.grid()[i];
        lemma_merge_row_len(row, plan, 0);
        assert(row.len() == la.len());
        let lo = Seq::new(la.len(), |j: int| la[j].start());
        let hi = Seq::new(la.len(), |j: int| la[j].end());
        assert forall|j: int| 0 <= j < row.len() implies lo[j] <= #[trigger] hi[j] by {
            lemma_pow2_pos(la[j].power as nat);
        }
        assert forall|j: int| 0 <= j < row.len() - 1 implies #[trigger] hi[j] == lo[j + 1] by {
            assert(la[j].end() == la[j + 1].start());
        }
        assert forall|j: int| 0 <= j < row.len() implies #[trigger] row[j]
            == spec_query_span(topo, ops, a.coords.spec_rows()[i], lo[j], hi[j]) by {
            assert(row[j] == spec_query(topo, ops, a.coords.spec_cell(i, j).1));
            lemma_query_is_span(topo, ops, a.coords.spec_cell(i, j).1);
        }
        assert(c <= plan.len());
        assert(c <= rb.len());
        assert forall|k: int| 0 <= k < c implies fin[i][k] == coa[i][k] by {
            lemma_plan_total_step(plan, k);
            lemma_plan_total_prefix(plan, k + 1);
            lemma_merge_row_index(row, plan, 0, k);
            let s = plan_total(plan.take(k)) as int;
            let e = plan_total(plan.take(k + 1)) as int;
            assert(plan[k] >= 1);
            // the run starts where window k of the coarser side starts
            if k == 0 {
                assert(plan.take(0).len() == 0);
                assert(la[s].start() == 0);
            } else {
                lemma_plan_total_step(plan, k - 1);
                assert(plan[k - 1] >= 1);
                assert(la[s - 1].end() == la[s].start());
                assert(la[s - 1].end() == rb[k - 1].end());
                assert(rb[k - 1].end() == rb[k].start());
            }
            lemma_row_sum(topo, ops, a.coords.spec_rows()[i], row, lo, hi, s, e);
            assert(la[e - 1].end() == rb[k].end());
            lemma_query_is_span(topo, ops, b.coords.spec_cell(i, k).1);
            assert(b.coords.spec_rows() == a.coords.spec_rows());
        }
        assert(fin[i] =~= coa[i]);
    }
    assert(fin =~= coa);
}

} // verus!
