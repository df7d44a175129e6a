use rpsrtsrs::common::{Scalar, Vec2};
use rpsrtsrs::state::UnitId;
use rpsrtsrs::targets::TargetMap;

fn at(x: f64, y: f64) -> Vec2 {
    Vec2::new(Scalar::from_bits(x.to_bits()), Scalar::from_bits(y.to_bits()))
}

#[test]
fn new_map_is_empty() {
    let map = TargetMap::new();
    assert_eq!(map.len(), 0);
    assert_eq!(map.get(UnitId(0)), None);
    assert!(!map.contains(UnitId(0)));
}

#[test]
fn insert_then_get() {
    let mut map = TargetMap::new();
    map.insert(UnitId(2), at(10.0, 20.0));
    assert_eq!(map.get(UnitId(2)), Some(at(10.0, 20.0)));
    assert!(map.contains(UnitId(2)));
    assert_eq!(map.get(UnitId(3)), None);
    assert_eq!(map.len(), 1);
}

#[test]
fn same_insert_twice_is_one_entry() {
    let mut map = TargetMap::new();
    map.insert(UnitId(2), at(10.0, 20.0));
    map.insert(UnitId(2), at(10.0, 20.0));
    assert_eq!(map.len(), 1);
    assert_eq!(map.get(UnitId(2)), Some(at(10.0, 20.0)));
}

#[test]
fn last_write_wins() {
    let mut map = TargetMap::new();
    map.insert(UnitId(2), at(10.0, 20.0));
    map.insert(UnitId(5), at(1.0, 1.0));
    map.insert(UnitId(2), at(30.0, 40.0));
    assert_eq!(map.len(), 2);
    assert_eq!(map.get(UnitId(2)), Some(at(30.0, 40.0)));
    assert_eq!(map.get(UnitId(5)), Some(at(1.0, 1.0)));
}
