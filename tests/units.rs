use kitsune_regions::db::{databases_for, DbKind, DbName, EnvironmentKind};
use kitsune_regions::quantum::{RegionCoords, SpaceSegment, SpacetimeQuanta, TimeSegment, Topology};
use kitsune_regions::region_data::RegionData;
use kitsune_regions::telescoping::TelescopingTimes;

#[test]
fn telescoping_segments_of_twenty() {
    let segs = TelescopingTimes::new(20).segments();
    let got: Vec<(u8, u32)> = segs.iter().map(|s| (s.power, s.offset)).collect();
    assert_eq!(got, vec![(3, 0), (2, 2), (2, 3), (1, 8), (0, 18), (0, 19)]);
    let total: u64 = segs.iter().map(|s| s.num_quanta()).sum();
    assert_eq!(total, 20);
}

#[test]
fn telescoping_limits_and_empty() {
    assert!(TelescopingTimes::empty().segments().is_empty());
    assert_eq!(TelescopingTimes::new(1).segments().len(), 1);
    assert_eq!(TelescopingTimes::new(30).limit(3).segments().len(), 3);
    assert_eq!(TelescopingTimes::new(u32::MAX).segments().len(), 32);
    assert_eq!(TelescopingTimes::new(u32::MAX - 1).segments().len(), 62);
    assert!(TelescopingTimes::new(21).gt(&TelescopingTimes::new(20)));
    assert!(!TelescopingTimes::new(20).gt(&TelescopingTimes::new(20)));
    assert!(TelescopingTimes::new(20).limit(2).gt(&TelescopingTimes::new(20)));
}

#[test]
fn region_data_combines() {
    let a = RegionData { hash: 0b1100, size: u32::MAX, count: 2 };
    let b = RegionData { hash: 0b1010, size: 3, count: 5 };
    assert_eq!(a.combine(&b), RegionData { hash: 0b0110, size: 2, count: 7 });
    assert_eq!(a.combine(&b), b.combine(&a));
    assert_eq!(RegionData::zero().combine(&a), a);
}

#[test]
fn quantization() {
    let topo = Topology::standard_zero();
    assert_eq!(topo.space_quantum(4096 * 3 + 5), 3);
    assert_eq!(topo.time_quantum(300_000_000 * 7 + 1), 7);
    assert_eq!(topo.time_quantum(-5), 0);
    assert_eq!(topo.space_quantum_loc_bounds(3), (12288, 16383));
    assert_eq!(topo.time_quantum_timestamp_bounds(2), (600_000_000, 899_999_999));
}

#[test]
fn region_contains_wraps_around_ring() {
    let topo = Topology::unit_zero();
    let c = RegionCoords::new(SpaceSegment { power: 8, offset: 1 << 24 }, TimeSegment { power: 2, offset: 3 });
    assert!(c.contains(&topo, &SpacetimeQuanta { space: 12, time: 12 }));
    assert!(!c.contains(&topo, &SpacetimeQuanta { space: 256, time: 12 }));
    assert!(!c.contains(&topo, &SpacetimeQuanta { space: 12, time: 16 }));
}

#[test]
fn db_kinds_and_names() {
    assert_eq!(DbName::PrimaryMetadata.kind(), DbKind::Multi);
    assert_eq!(DbName::ChainSequence.kind(), DbKind::SingleInt);
    assert_eq!(DbName::Wasm.kind(), DbKind::Single);
    assert_eq!(DbName::ValidationReceipts.to_string(), "ValidationReceipts");
}

#[test]
fn databases_per_environment() {
    let cell = databases_for(EnvironmentKind::Cell);
    assert_eq!(cell.len(), 11);
    assert_eq!(cell[5], DbName::ChainSequence);
    assert_eq!(databases_for(EnvironmentKind::Conductor), vec![DbName::ConductorState]);
    assert_eq!(databases_for(EnvironmentKind::Wasm), vec![DbName::Wasm, DbName::DnaDef]);
    assert!(DbName::CacheMetadata.sorts_duplicates());
    assert!(!DbName::ChainSequence.sorts_duplicates());
}
