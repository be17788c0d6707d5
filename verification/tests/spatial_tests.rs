use ldn_demo::spatial::{Partition, SpatialIndex};
use ldn_demo::utils::Coordinates;

fn at(x: i64, y: i64, z: i64) -> Coordinates {
    Coordinates { x, y, z }
}

#[test]
fn radius_query_uses_strict_squared_distance() {
    let mut index = SpatialIndex::new();
    let center = at(0, 0, 0);
    // Exactly on the boundary: squared distance == radius^2, excluded.
    index.upsert(1, at(10_000, 0, 0), Partition::Active);
    // Just inside.
    index.upsert(2, at(9_999, 0, 0), Partition::Active);
    // Inside on a diagonal: 6000^2 + 8000^2 == 10000^2, excluded too.
    index.upsert(3, at(6_000, 8_000, 0), Partition::Active);
    // Far outside.
    index.upsert(4, at(10_001, 0, 0), Partition::Active);
    let found = index.query_within(Partition::Active, &center, 10_000);
    assert_eq!(found, vec![2]);
}

#[test]
fn upsert_moves_an_entity_between_partitions() {
    let mut index = SpatialIndex::new();
    index.upsert(1, at(5, 5, 5), Partition::Active);
    assert!(index.contains(Partition::Active, 1));
    assert!(!index.contains(Partition::Inactive, 1));
    index.upsert(1, at(5, 5, 5), Partition::Inactive);
    assert!(!index.contains(Partition::Active, 1));
    assert!(index.contains(Partition::Inactive, 1));
    assert_eq!(index.position_in(Partition::Inactive, 1), Some(at(5, 5, 5)));
}

#[test]
fn remove_purges_from_all_partitions() {
    let mut index = SpatialIndex::new();
    index.upsert(1, at(1, 0, 0), Partition::Active);
    index.upsert(2, at(2, 0, 0), Partition::Inactive);
    index.remove(1);
    index.remove(2);
    assert!(!index.contains(Partition::Active, 1));
    assert!(!index.contains(Partition::Inactive, 2));
    let found = index.query_within(Partition::Active, &at(0, 0, 0), 1_000);
    assert!(found.is_empty());
}

#[test]
fn identical_membership_gives_identical_query_results() {
    let mut a = SpatialIndex::new();
    let mut b = SpatialIndex::new();
    // Build the same membership along different update paths.
    a.upsert(1, at(100, 0, 0), Partition::Active);
    a.upsert(2, at(200, 0, 0), Partition::Active);
    b.upsert(2, at(200, 0, 0), Partition::Inactive);
    b.upsert(1, at(100, 0, 0), Partition::Active);
    b.upsert(2, at(200, 0, 0), Partition::Active);
    let mut fa = a.query_within(Partition::Active, &at(0, 0, 0), 1_000);
    let mut fb = b.query_within(Partition::Active, &at(0, 0, 0), 1_000);
    fa.sort();
    fb.sort();
    assert_eq!(fa, fb);
}
