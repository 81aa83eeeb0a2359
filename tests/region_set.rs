use kitsune_regions::arq::{Arq, ArqBounds, ArqBoundsSet};
use kitsune_regions::op_store::{OpData, OpStore};
use kitsune_regions::quantum::{Loc, TimeQuantum, Topology};
use kitsune_regions::region_set::{GossipError, RegionCoordSetXtcs, RegionSet, RegionSetXtcs};
use kitsune_regions::telescoping::TelescopingTimes;

/// Create a uniform grid of ops:
/// - one gridline per arq segment
/// - one gridline per time in `trange`
///
/// Only works for arqs that don't span `u32::MAX / 2`
fn op_grid(
    topo: &Topology,
    arq: &ArqBounds,
    trange: impl Iterator<Item = i64> + Clone,
) -> Vec<OpData> {
    let (left, right) = arq.to_edge_locs(topo);
    let mid = u32::MAX / 2;
    assert!(
        !(left < mid && right > mid),
        "This hacky logic does not work for arqs which span `u32::MAX / 2`"
    );
    let xstep = (arq.absolute_length(topo) / arq.count() as u64) as usize;
    (left as i32..=right as i32)
        .step_by(xstep)
        .flat_map(|x| {
            trange.clone().map(move |t| {
                let x = topo.space_quantum_loc_bounds(x as u32).0;
                let t = topo.time_quantum_timestamp_bounds(t as u32).0;
                OpData::fake(x, t, 10)
            })
        })
        .collect()
}

#[test]
fn test_regions() {
    let topo = Topology::unit(1000);
    let pow = 8;
    let arq = Arq::new(0u32, pow, 4);
    assert_eq!(arq.to_edge_locs(&topo), (0u32, 1023u32));

    let mut store = OpStore::new(topo);

    // Create a nx by nt grid of ops and integrate into the store
    let nx = 8;
    let nt = 10;
    let ops = op_grid(
        &topo,
        &Arq::new(0u32, pow, 8).to_bounds(&topo),
        (1000..11000 as i64).step_by(1000),
    );
    assert_eq!(ops.len(), nx * nt);
    store.integrate_ops(ops);

    // The total count should be half of what's in the op store,
    // since the arq covers exactly half of the ops
    let times = TelescopingTimes::new(TimeQuantum::from(11000u32));
    let coords = RegionCoordSetXtcs::new(times, ArqBoundsSet::single(arq.to_bounds(&topo)));
    let rset = RegionSetXtcs::from_store(&store, coords);
    assert_eq!(
        rset.data.concat().iter().map(|r| r.count).sum::<u32>() as usize,
        nx * nt / 2
    );
}

#[test]
fn test_rectify() {
    let topo = Topology::unit_zero();
    let arq = Arq::new(0u32, 8, 4).to_bounds(&topo);
    let mut store = OpStore::new(topo);
    store.integrate_ops(op_grid(&topo, &arq, 10..20));

    let tt_a = TelescopingTimes::new(TimeQuantum::from(20u32));
    let tt_b = TelescopingTimes::new(TimeQuantum::from(30u32));
    let coords_a = RegionCoordSetXtcs::new(tt_a, ArqBoundsSet::single(arq));
    let coords_b = RegionCoordSetXtcs::new(tt_b, ArqBoundsSet::single(arq));

    let mut rset_a = RegionSetXtcs::from_store(&store, coords_a);
    let mut rset_b = RegionSetXtcs::from_store(&store, coords_b);
    assert_ne!(rset_a.data, rset_b.data);

    rset_a.rectify(&mut rset_b).unwrap();

    assert_eq!(rset_a, rset_b);

    let coords: Vec<Vec<_>> = rset_a.coords.region_coords_nested();

    assert_eq!(coords.len(), arq.count() as usize);
    for col in coords.iter() {
        assert_eq!(col.len(), rset_a.coords.times.segments().len());
    }
    let nt = coords[0].len();
    assert_eq!(tt_b.segments()[0..nt], rset_a.coords.times.segments());
    assert_eq!(tt_b.segments()[0..nt], rset_b.coords.times.segments());
}

fn check_diff(topo: Topology, arq: ArqBounds, extra_ops: [OpData; 2]) {
    let mut store1 = OpStore::new(topo);
    store1.integrate_ops(op_grid(&topo, &arq, 10..20));

    let mut store2 = store1.clone();
    store2.integrate_ops(extra_ops.to_vec());

    let coords_a = RegionCoordSetXtcs::new(
        TelescopingTimes::new(TimeQuantum::from(20u32)),
        ArqBoundsSet::single(arq),
    );
    let coords_b = RegionCoordSetXtcs::new(
        TelescopingTimes::new(TimeQuantum::from(21u32)),
        ArqBoundsSet::single(arq),
    );

    let rset_a = RegionSetXtcs::from_store(&store1, coords_a);
    let rset_b = RegionSetXtcs::from_store(&store2, coords_b);
    assert_ne!(rset_a.data, rset_b.data);

    let diff = rset_a.clone().diff(rset_b.clone()).unwrap();
    assert_eq!(diff.len(), 2);

    assert!(diff[0].coords.contains(&topo, &extra_ops[0].coords(&topo)));
    assert!(diff[1].coords.contains(&topo, &extra_ops[1].coords(&topo)));

    // Adding the region data from each extra op to the region data of the
    // diff which was missing those ops should be the same as the query
    // of the store which contains the extra ops over the same region
    assert_eq!(
        diff[0].data.combine(&extra_ops[0].region_data()),
        store2.query_region_coords(&diff[0].coords)
    );
    assert_eq!(
        diff[1].data.combine(&extra_ops[1].region_data()),
        store2.query_region_coords(&diff[1].coords)
    );
}

#[test]
fn test_diff() {
    let topo = Topology::unit_zero();
    let arq = Arq::new(-512i32 as u32, 8, 4).to_bounds(&topo);
    let extra_ops = [
        OpData::fake(-300i32 as Loc, 18, 4),
        OpData::fake(12u32, 12, 4),
    ];
    check_diff(topo, arq, extra_ops);
}

#[test]
fn test_diff_standard_topo() {
    let topo = Topology::standard_zero();
    let pow: u8 = 4;
    // This arq goes from -2^17 to 2^17, with a chunk size of 2^16
    let left_edge = (-(2i32.pow(pow as u32 + 12 + 1))) as Loc;
    let arq = Arq::new(left_edge, pow, 4).to_bounds(&topo);
    let extra_ops = [
        OpData::fake(left_edge, topo.time_quantum_timestamp_bounds(18).0, 13),
        OpData::fake(11111u32, topo.time_quantum_timestamp_bounds(12).0, 11),
    ];
    check_diff(topo, arq, extra_ops);
}

#[test]
fn diff_with_copy_is_empty() {
    let topo = Topology::unit_zero();
    let arq = Arq::new(0u32, 8, 4).to_bounds(&topo);
    let mut store = OpStore::new(topo);
    store.integrate_ops(op_grid(&topo, &arq, 10..20));
    let coords = RegionCoordSetXtcs::new(TelescopingTimes::new(25), ArqBoundsSet::single(arq));
    let a = RegionSetXtcs::from_store(&store, coords);
    let b = a.clone();
    assert_eq!(a, b);
    assert_eq!(a.diff(b).unwrap(), vec![]);
}

#[test]
fn rectify_converges_on_same_store() {
    let topo = Topology::unit_zero();
    let arq = Arq::new(0u32, 8, 4).to_bounds(&topo);
    let mut store = OpStore::new(topo);
    store.integrate_ops(op_grid(&topo, &arq, 3..27));
    let mut a = RegionSetXtcs::from_store(
        &store,
        RegionCoordSetXtcs::new(TelescopingTimes::new(27), ArqBoundsSet::single(arq)),
    );
    let mut b = RegionSetXtcs::from_store(
        &store,
        RegionCoordSetXtcs::new(TelescopingTimes::new(40), ArqBoundsSet::single(arq)),
    );
    a.rectify(&mut b).unwrap();
    assert_eq!(a, b);
    // rectifying again changes nothing
    let (a0, b0) = (a.clone(), b.clone());
    a.rectify(&mut b).unwrap();
    assert_eq!(a.data, a0.data);
    assert_eq!(b.data, b0.data);
    assert_eq!(a.coords.times.segments(), a0.coords.times.segments());
}

#[test]
fn rectify_rejects_other_arcs_and_changes_nothing() {
    let topo = Topology::unit_zero();
    let arq1 = Arq::new(0u32, 8, 4).to_bounds(&topo);
    let arq2 = Arq::new(0u32, 8, 3).to_bounds(&topo);
    let mut store = OpStore::new(topo);
    store.integrate_ops(op_grid(&topo, &arq1, 10..20));
    let mut a = RegionSetXtcs::from_store(
        &store,
        RegionCoordSetXtcs::new(TelescopingTimes::new(20), ArqBoundsSet::single(arq1)),
    );
    let mut b = RegionSetXtcs::from_store(
        &store,
        RegionCoordSetXtcs::new(TelescopingTimes::new(30), ArqBoundsSet::single(arq2)),
    );
    let (a0, b0) = (a.clone(), b.clone());
    assert_eq!(a.rectify(&mut b), Err(GossipError::ArqSetMismatchForDiff));
    assert_eq!(a, a0);
    assert_eq!(b, b0);
    assert_eq!(a.diff(b), Err(GossipError::ArqSetMismatchForDiff));
}

#[test]
fn nested_grid_shape() {
    let arqs = ArqBoundsSet::new(vec![ArqBounds::new(0, 8, 3), ArqBounds::new(100, 4, 2)]);
    let coords = RegionCoordSetXtcs::new(TelescopingTimes::new(20), arqs);
    let nested = coords.region_coords_nested();
    assert_eq!(nested.len(), 5);
    for row in nested.iter() {
        assert_eq!(row.len(), 6);
    }
    assert_eq!(nested[3][2].0, (3, 2));
    assert_eq!(nested[3][2].1.space.offset, 100);
    assert_eq!(nested[3][2].1.space.power, 4);
    let flat = coords.region_coords_flat();
    assert_eq!(flat.len(), 30);
    assert_eq!(flat[7], nested[1][1]);
}

#[test]
fn empty_sets_compose() {
    let e = RegionSetXtcs::empty();
    assert_eq!(e.count(), 0);
    let coords = RegionCoordSetXtcs::empty();
    assert!(coords.region_coords_nested().is_empty());
    let d = RegionSet::Xtcs(RegionSetXtcs::empty())
        .diff(RegionSet::Xtcs(RegionSetXtcs::empty()))
        .unwrap();
    assert!(d.is_empty());
}

#[test]
fn count_is_rows_times_columns() {
    let topo = Topology::unit_zero();
    let arq = Arq::new(0u32, 8, 4).to_bounds(&topo);
    let store = OpStore::new(topo);
    let coords = RegionCoordSetXtcs::new(TelescopingTimes::new(20), ArqBoundsSet::single(arq));
    let set = RegionSet::Xtcs(RegionSetXtcs::from_store(&store, coords));
    assert_eq!(set.count(), 24);
    assert_eq!(set.region_coords().len(), 24);
    assert_eq!(set.regions().len(), 24);
}

#[test]
fn into_region_set_fills_and_fails_fast() {
    let arqs = ArqBoundsSet::single(ArqBounds::new(0, 8, 2));
    let coords = RegionCoordSetXtcs::new(TelescopingTimes::new(4), arqs);
    let set = coords
        .into_region_set(|((ix, it), _)| -> Result<_, String> {
            Ok(kitsune_regions::region_data::RegionData { hash: 0, size: ix, count: it })
        })
        .unwrap();
    assert_eq!(set.data.len(), 2);
    assert_eq!(set.data[1][1].size, 1);
    assert_eq!(set.data[1][1].count, 1);

    let arqs = ArqBoundsSet::single(ArqBounds::new(0, 8, 2));
    let coords = RegionCoordSetXtcs::new(TelescopingTimes::new(4), arqs);
    let r = coords.into_region_set(|((ix, it), _)| {
        if ix == 1 && it == 0 {
            Err(format!("bad cell {} {}", ix, it))
        } else {
            Ok(kitsune_regions::region_data::RegionData { hash: 0, size: 0, count: 0 })
        }
    });
    assert_eq!(r.err(), Some("bad cell 1 0".to_string()));
}
