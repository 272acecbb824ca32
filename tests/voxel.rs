use voxel_motion::animation::{AnimationHandler, AnimationStep};
use voxel_motion::easing::{AnimationTransition, EaseInEaseOut};
use voxel_motion::transition::VoxelObjects;
use voxel_motion::vector::{Vec3, ONE};
use voxel_motion::voxel::{place_shape, VoxelHandler, CUBE_SPEED, RELEASE_SPEED};

fn chunk(id: &[u8; 4], content: &[u8], children: &[u8]) -> Vec<u8> {
    let mut out = id.to_vec();
    out.extend_from_slice(&(content.len() as u32).to_le_bytes());
    out.extend_from_slice(&(children.len() as u32).to_le_bytes());
    out.extend_from_slice(content);
    out.extend_from_slice(children);
    out
}

/// A `.vox` file with one model of two voxels and a palette of three colors.
fn vox_bytes() -> Vec<u8> {
    let mut size = Vec::new();
    for d in [4u32, 4, 4] {
        size.extend_from_slice(&d.to_le_bytes());
    }
    let mut xyzi = 2u32.to_le_bytes().to_vec();
    xyzi.extend_from_slice(&[1, 2, 3, 2, 0, 0, 0, 1]);
    let rgba = [10u8, 20, 30, 255, 40, 50, 60, 255, 70, 80, 90, 255];
    let mut children = chunk(b"SIZE", &size, &[]);
    children.extend(chunk(b"XYZI", &xyzi, &[]));
    children.extend(chunk(b"RGBA", &rgba, &[]));
    let mut out = b"VOX ".to_vec();
    out.extend_from_slice(&150u32.to_le_bytes());
    out.extend(chunk(b"MAIN", &[], &children));
    out
}

fn line_of(n: i64) -> Vec<Vec3> {
    (0..n).map(|i| Vec3::new(i * ONE, 0, 0)).collect()
}

fn handler_with_shape(shape: VoxelObjects, cubes: &[(u8, u8, u8)]) -> VoxelHandler {
    let mut voxels = VoxelHandler::new();
    let model: Vec<(u8, u8, u8, u8)> = cubes.iter().map(|&(x, y, z)| (x, y, z, 0)).collect();
    voxels.add_voxel_models(&vec![model], &vec![(1, 2, 3, 255)], shape);
    voxels
}

fn distinct(v: &[usize]) -> bool {
    v.iter().enumerate().all(|(i, a)| v[i + 1..].iter().all(|b| a != b))
}

#[test]
fn add_voxel_reads_a_vox_file() {
    let mut voxels = VoxelHandler::new();
    voxels.add_voxel(&vox_bytes(), VoxelObjects::Castle);
    let object = voxels.get_object(VoxelObjects::Castle).unwrap();
    // the file's z axis points up
    assert_eq!(
        object.cubes,
        vec![Vec3::new(ONE, 3 * ONE, 2 * ONE), Vec3::new(0, 0, 0)]
    );
    // file indices count from one
    assert_eq!(object.color, vec![(40, 50, 60), (10, 20, 30)]);
    assert!(voxels.get_object(VoxelObjects::Rust).is_none());
}

#[test]
fn add_voxel_skips_bytes_that_are_no_vox_file() {
    let mut voxels = VoxelHandler::new();
    voxels.add_voxel(b"not a voxel file", VoxelObjects::Viking);
    assert!(voxels.get_object(VoxelObjects::Viking).is_none());
}

#[test]
fn add_voxel_models_keeps_the_last_model_that_fits() {
    let mut voxels = VoxelHandler::new();
    let palette = vec![(1, 2, 3, 4), (5, 6, 7, 8)];
    let good = vec![(0, 1, 2, 1)];
    let other = vec![(3, 3, 3, 0), (4, 4, 4, 1)];
    let bad = vec![(9, 9, 9, 2)];
    voxels.add_voxel_models(&vec![good, other, bad.clone()], &palette, VoxelObjects::Home);
    let object = voxels.get_object(VoxelObjects::Home).unwrap();
    assert_eq!(object.cubes, vec![Vec3::new(3 * ONE, 3 * ONE, 3 * ONE), Vec3::new(4 * ONE, 4 * ONE, 4 * ONE)]);
    assert_eq!(object.color, vec![(1, 2, 3), (5, 6, 7)]);
    voxels.add_voxel_models(&vec![bad], &palette, VoxelObjects::Rust);
    assert!(voxels.get_object(VoxelObjects::Rust).is_none());
}

#[test]
fn place_shape_assigns_cubes_and_releases_the_rest() {
    let mut handler = AnimationHandler::new(&line_of(4), vec![]);
    let cubes = vec![Vec3::new(0, 5 * ONE, 0), Vec3::new(0, 0, 7 * ONE)];
    let dispersal = vec![Vec3::new(100 * ONE, 0, 0), Vec3::new(0, 100 * ONE, 0)];
    place_shape(&mut handler, &cubes, &vec![3, 1], &dispersal, ONE, true);
    let step = |i: usize| handler.movement_list[i].animations[0];
    for i in 0..4 {
        assert_eq!(handler.movement_list[i].animations.len(), 1);
        assert!(step(i).activated && step(i).animating && step(i).one_time_animation);
        assert_eq!(step(i).animation_transition, AnimationTransition::EaseInEaseOut(EaseInEaseOut));
    }
    assert_eq!(step(3).movement_vector, Vec3::new(-3 * ONE, 5 * ONE, 0));
    assert_eq!(step(3).speed, CUBE_SPEED);
    assert_eq!(step(1).movement_vector, Vec3::new(-ONE, 0, 7 * ONE));
    // released instances take the points from the back
    assert_eq!(step(0).movement_vector, Vec3::new(0, 100 * ONE, 0));
    assert_eq!(step(0).speed, RELEASE_SPEED);
    assert_eq!(step(2).movement_vector, Vec3::new(98 * ONE, 0, 0));
}

#[test]
fn place_shape_leaves_far_instances_in_place_and_scales_by_amplify() {
    let positions = vec![Vec3::new(600 * ONE, 0, 0), Vec3::new(ONE, 0, 0)];
    let mut handler = AnimationHandler::new(&positions, vec![]);
    let cubes = vec![Vec3::new(2 * ONE, 0, 0)];
    place_shape(&mut handler, &cubes, &vec![1], &vec![Vec3::new(750 * ONE, 0, 0)], 25 * ONE, false);
    assert_eq!(handler.movement_list[0].animations[0].movement_vector, Vec3::zero());
    assert_eq!(handler.movement_list[1].animations[0].movement_vector, Vec3::new(25 * ONE, 0, 0));
    assert!(!handler.movement_list[1].animations[0].one_time_animation);
}

#[test]
fn transition_to_a_shape_too_large_changes_nothing() {
    let mut voxels = handler_with_shape(VoxelObjects::Castle, &[(0, 0, 0), (1, 0, 0), (2, 0, 0)]);
    let mut handler = AnimationHandler::new(&line_of(2), vec![]);
    voxels.transition_to_object(VoxelObjects::Castle, &mut handler, &vec![]);
    assert!(voxels.current_cubes.is_empty());
    assert!(voxels.current_voxel.is_none());
    assert!(handler.movement_list.iter().all(|r| r.animations.is_empty()));
}

#[test]
fn transition_to_a_missing_shape_changes_nothing() {
    let mut voxels = handler_with_shape(VoxelObjects::Castle, &[(0, 0, 0)]);
    let mut handler = AnimationHandler::new(&line_of(3), vec![]);
    voxels.transition_to_object(VoxelObjects::Viking, &mut handler, &vec![]);
    assert!(voxels.current_cubes.is_empty());
    assert!(voxels.current_voxel.is_none());
    assert!(handler.movement_list.iter().all(|r| r.animations.is_empty()));
}

#[test]
fn transition_moves_instances_onto_the_cubes() {
    let mut voxels = handler_with_shape(VoxelObjects::Castle, &[(0, 0, 9), (0, 9, 0)]);
    let mut handler = AnimationHandler::new(&line_of(5), vec![]);
    let dispersal = vec![Vec3::new(750 * ONE, 0, 0); 3];
    voxels.transition_to_object(VoxelObjects::Castle, &mut handler, &dispersal);
    assert_eq!(voxels.current_voxel, Some(VoxelObjects::Castle));
    let chosen = voxels.current_cubes.clone();
    assert_eq!(chosen.len(), 2);
    assert!(distinct(&chosen) && chosen.iter().all(|&i| i < 5));
    let cubes = voxels.get_object(VoxelObjects::Castle).unwrap().cubes.clone();
    for (k, &i) in chosen.iter().enumerate() {
        let step: AnimationStep = handler.movement_list[i].animations[0];
        assert_eq!(step.movement_vector, cubes[k].sub(Vec3::new(i as i64 * ONE, 0, 0)));
        assert_eq!(step.speed, CUBE_SPEED);
    }
    for i in (0..5).filter(|i| !chosen.contains(i)) {
        let step = handler.movement_list[i].animations[0];
        assert_eq!(step.speed, RELEASE_SPEED);
        assert_eq!(step.movement_vector, Vec3::new((750 - i as i64) * ONE, 0, 0));
    }
    // run the transition to its end: every instance sits on its target
    for _ in 0..16 {
        handler.animate(ONE / 4);
    }
    assert!(!handler.is_locked());
    for (k, &i) in chosen.iter().enumerate() {
        assert_eq!(handler.movement_list[i].start, cubes[k]);
    }
}

#[test]
fn repeated_transitions_recycle_the_pool() {
    let mut voxels = handler_with_shape(VoxelObjects::Castle, &[(0, 0, 1), (0, 0, 2), (0, 0, 3)]);
    let small: Vec<Vec<(u8, u8, u8, u8)>> = vec![vec![(5, 0, 0, 0), (6, 0, 0, 0)]];
    voxels.add_voxel_models(&small, &vec![(0, 0, 0, 0)], VoxelObjects::Rust);
    let mut handler = AnimationHandler::new(&line_of(8), vec![]);
    let none: Vec<Vec3> = vec![];
    voxels.transition_to_object(VoxelObjects::Castle, &mut handler, &none);
    let a1 = voxels.current_cubes.clone();
    voxels.transition_to_object(VoxelObjects::Rust, &mut handler, &none);
    let b = voxels.current_cubes.clone();
    voxels.transition_to_object(VoxelObjects::Castle, &mut handler, &none);
    let a2 = voxels.current_cubes.clone();
    assert_eq!((a1.len(), b.len(), a2.len()), (3, 2, 3));
    assert!(b.iter().all(|i| a1.contains(i)));
    assert!(b.iter().all(|i| a2.contains(i)));
    assert!(distinct(&a2));
}

#[test]
fn explosion_leaves_every_anchor_in_place() {
    let mut voxels = handler_with_shape(VoxelObjects::Castle, &[(1, 1, 1), (2, 2, 2)]);
    let mut handler = AnimationHandler::new(&line_of(4), vec![]);
    let none: Vec<Vec3> = vec![];
    voxels.transition_to_object(VoxelObjects::Castle, &mut handler, &none);
    for _ in 0..16 {
        handler.animate(ONE / 4);
    }
    let anchors: Vec<Vec3> = handler.movement_list.iter().map(|r| r.start).collect();
    voxels.explode_object(&mut handler, 25 * ONE, &none);
    assert!(handler
        .movement_list
        .iter()
        .all(|r| r.animations.iter().all(|s| !s.one_time_animation)));
    for _ in 0..20 {
        handler.animate(ONE / 4);
        for (record, anchor) in handler.movement_list.iter().zip(anchors.iter()) {
            assert_eq!(record.start, *anchor);
            assert_eq!(record.grid_pos, *anchor);
        }
    }
}

#[test]
fn explosion_without_a_current_shape_does_nothing() {
    let mut voxels = VoxelHandler::new();
    let mut handler = AnimationHandler::new(&line_of(2), vec![]);
    voxels.explode_object(&mut handler, 25 * ONE, &vec![]);
    assert!(voxels.current_cubes.is_empty());
    assert!(handler.movement_list.iter().all(|r| r.animations.is_empty()));
}

#[test]
fn transition_draws_instances_at_random() {
    let mut saw_other_order = false;
    for _ in 0..20 {
        let mut voxels = handler_with_shape(VoxelObjects::Castle, &[(0, 0, 0), (1, 0, 0), (2, 0, 0)]);
        let mut handler = AnimationHandler::new(&line_of(30), vec![]);
        voxels.transition_to_object(VoxelObjects::Castle, &mut handler, &vec![]);
        if voxels.current_cubes != vec![29, 28, 27] {
            saw_other_order = true;
        }
    }
    assert!(saw_other_order);
}

#[test]
fn shape_as_large_as_the_pool_takes_every_instance() {
    let mut voxels = handler_with_shape(VoxelObjects::Home, &[(0, 0, 0), (1, 0, 0), (2, 0, 0)]);
    let mut handler = AnimationHandler::new(&line_of(3), vec![]);
    voxels.transition_to_object(VoxelObjects::Home, &mut handler, &vec![]);
    let mut chosen = voxels.current_cubes.clone();
    chosen.sort();
    assert_eq!(chosen, vec![0, 1, 2]);
    assert!(handler.movement_list.iter().all(|r| r.animations[0].speed == CUBE_SPEED));
}
