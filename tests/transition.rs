use std::collections::BTreeMap;
use voxel_motion::chunk::Chunk;
use voxel_motion::transition::{is_between, TransitionHandler, VoxelObjects};

fn three_buckets() -> TransitionHandler<VoxelObjects> {
    let mut map = BTreeMap::new();
    map.insert(10, VoxelObjects::Home);
    map.insert(20, VoxelObjects::Rust);
    map.insert(30, VoxelObjects::Castle);
    TransitionHandler::new(map)
}

#[test]
fn new_transition_handler_starts_blank() {
    let handler = three_buckets();
    assert_eq!(handler.transition_map.len(), 3);
    assert_eq!(handler.last_transition, None);
    assert_eq!(handler.last_position, 0);
}

#[test]
fn transition_once_reports_each_bucket_once() {
    let mut handler = three_buckets();
    assert_eq!(handler.get_transition_once(5), Some(VoxelObjects::Home));
    assert_eq!(handler.get_transition_once(7), None);
    assert_eq!(handler.get_transition_once(10), Some(VoxelObjects::Rust));
    assert_eq!(handler.get_transition_once(29), Some(VoxelObjects::Castle));
    assert_eq!(handler.get_transition_once(30), None);
    assert_eq!(handler.last_transition, None);
    assert_eq!(handler.get_transition_once(-1), None);
    assert_eq!(handler.get_transition_once(0), Some(VoxelObjects::Home));
}

#[test]
fn transition_per_movement_reports_offsets() {
    let mut handler = three_buckets();
    assert_eq!(handler.get_transition_per_movement(15), (10, 5, Some(VoxelObjects::Rust)));
    assert_eq!(handler.get_transition_per_movement(15), (10, 5, None));
    assert_eq!(handler.get_transition_per_movement(3), (10, 3, Some(VoxelObjects::Home)));
    assert_eq!(handler.get_transition_per_movement(20), (10, 0, None));
    assert_eq!(handler.last_position, 0);
    assert_eq!(handler.get_transition_per_movement(45), (0, 0, None));
}

#[test]
fn buckets_below_zero_need_a_key_below_the_position() {
    let mut map = BTreeMap::new();
    map.insert(-5, 1u8);
    map.insert(10, 2u8);
    let mut handler = TransitionHandler::new(map);
    assert_eq!(handler.get_transition_once(-3), Some(2));
    assert_eq!(handler.get_transition_once(-7), None);
    assert_eq!(handler.get_transition_per_movement(-3), (15, 2, Some(2)));
    assert_eq!(handler.get_transition_per_movement(i64::MAX), (0, 0, None));
}

#[test]
fn per_movement_saturates_long_buckets() {
    let mut map = BTreeMap::new();
    map.insert(i64::MIN + 1, 1u8);
    map.insert(i64::MAX, 2u8);
    let mut handler = TransitionHandler::new(map);
    assert_eq!(handler.get_transition_per_movement(0), (i64::MAX, i64::MAX, Some(2)));
}

#[test]
fn is_between_is_half_open() {
    assert!(is_between(0, 10, 0));
    assert!(is_between(0, 10, 9));
    assert!(!is_between(0, 10, 10));
    assert!(!is_between(0, 10, -1));
}

#[test]
fn chunk_coordinates_compare_by_value() {
    assert_eq!(Chunk { x: 1, y: -2 }, Chunk { x: 1, y: -2 });
    assert_ne!(Chunk { x: 1, y: -2 }, Chunk { x: -2, y: 1 });
}
