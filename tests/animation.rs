use voxel_motion::animation::{
    AnimationHandler, AnimationPersistent, AnimationStep, AnimationType, Instance,
};
use voxel_motion::easing::{
    ease_in_ease_out_loop, AnimationTransition, EaseInEaseOut, EaseInEaseOutLoop, EaseOut,
};
use voxel_motion::vector::{Vec3, ONE};

fn origin_handler() -> AnimationHandler {
    AnimationHandler::new(&vec![Vec3::zero()], vec![])
}

fn one_shot(movement: Vec3, speed: i64) -> AnimationStep {
    AnimationStep::new(
        movement,
        speed,
        false,
        false,
        true,
        AnimationTransition::EaseInEaseOut(EaseInEaseOut),
    )
}

fn instance_at(position: Vec3) -> Instance {
    Instance {
        position,
        should_render: true,
        scale: ONE,
        color: Vec3::zero(),
        size: Vec3::new(ONE, ONE, ONE),
        bounding: Vec3::zero(),
    }
}

#[test]
fn new_anchors_every_record_at_its_instance() {
    let positions = vec![Vec3::new(ONE, 2, 3), Vec3::new(-ONE, 0, 7)];
    let bob = AnimationPersistent::new(
        Vec3::new(0, ONE, 0),
        AnimationTransition::EaseInEaseOutLoop(EaseInEaseOutLoop),
    );
    let step = one_shot(Vec3::new(ONE, 0, 0), ONE);
    let handler = AnimationHandler::new(
        &positions,
        vec![AnimationType::Persistent(bob), AnimationType::Step(step)],
    );
    assert!(!handler.disabled);
    assert_eq!(handler.movement_list.len(), 2);
    for (record, position) in handler.movement_list.iter().zip(positions.iter()) {
        assert!(record.activated);
        assert_eq!(record.time, 0);
        assert_eq!(record.start, *position);
        assert_eq!(record.current_pos, *position);
        assert_eq!(record.grid_pos, *position);
        assert_eq!(record.persistent_animation, vec![bob]);
        assert_eq!(record.animations, vec![step]);
        assert_eq!(record.color, Vec3::zero());
    }
}

#[test]
fn step_new_starts_at_time_zero() {
    let step = one_shot(Vec3::new(1, 2, 3), 400_000);
    assert_eq!(step.time, 0);
    assert!(!step.animating);
    assert!(!step.activated);
    assert!(step.one_time_animation);
    assert_eq!(step.speed, 400_000);
    let bob = AnimationPersistent::new(Vec3::new(0, 5, 0), AnimationTransition::EaseOut(EaseOut));
    assert_eq!(bob.time, 0);
    assert_eq!(bob.movement_vector, Vec3::new(0, 5, 0));
}

#[test]
fn set_animation_ignores_bad_index_and_disabled_registry() {
    let mut handler = origin_handler();
    let step = one_shot(Vec3::new(ONE, 0, 0), ONE);
    handler.set_animation(3, AnimationType::Step(step));
    assert!(handler.movement_list[0].animations.is_empty());
    handler.disable();
    handler.set_animation(0, AnimationType::Step(step));
    assert!(handler.movement_list[0].animations.is_empty());
    handler.enable();
    handler.set_animation(0, AnimationType::Step(step));
    assert_eq!(handler.movement_list[0].animations, vec![step]);
}

#[test]
fn set_animation_state_switches_every_step() {
    let mut handler = origin_handler();
    let step = one_shot(Vec3::new(ONE, 0, 0), ONE);
    handler.set_animation(0, AnimationType::Step(step));
    handler.set_animation(0, AnimationType::Step(step));
    handler.set_animation_state(0, true);
    assert!(handler.movement_list[0].animations.iter().all(|s| s.activated && s.animating));
    handler.set_animation_state(0, false);
    assert!(handler.movement_list[0].animations.iter().all(|s| !s.activated && !s.animating));
}

#[test]
fn one_shot_step_folds_into_the_anchor_once() {
    let mut handler = origin_handler();
    let movement = Vec3::new(10 * ONE, 0, -2 * ONE);
    handler.set_animation(0, AnimationType::Step(one_shot(movement, ONE)));
    handler.set_animation_state(0, true);
    assert!(handler.is_locked());
    for _ in 0..3 {
        handler.animate(ONE / 4);
        assert_eq!(handler.movement_list[0].start, Vec3::zero());
        assert_eq!(handler.movement_list[0].animations.len(), 1);
    }
    handler.animate(0);
    handler.animate(ONE / 4);
    let record = &handler.movement_list[0];
    assert_eq!(record.start, movement);
    assert_eq!(record.grid_pos, movement);
    assert_eq!(record.current_pos, movement);
    assert!(record.animations.is_empty());
    assert!(!handler.is_locked());
    handler.animate(ONE / 4);
    assert_eq!(handler.movement_list[0].start, movement);
    assert_eq!(handler.movement_list[0].current_pos, movement);
}

#[test]
fn step_moves_along_its_curve() {
    let mut handler = origin_handler();
    handler.set_animation(0, AnimationType::Step(one_shot(Vec3::new(8 * ONE, 0, 0), ONE)));
    handler.set_animation_state(0, true);
    handler.animate(ONE / 2);
    let record = &handler.movement_list[0];
    assert_eq!(record.animations[0].time, ONE / 2);
    assert_eq!(record.current_pos, Vec3::new(4 * ONE, 0, 0));
    assert_eq!(record.start, Vec3::zero());
    assert_eq!(record.time, ONE / 2);
}

#[test]
fn reversed_step_vanishes_without_moving_the_anchor() {
    let mut handler = origin_handler();
    let step = AnimationStep::new(
        Vec3::new(0, 6 * ONE, 0),
        ONE,
        false,
        false,
        false,
        AnimationTransition::EaseOut(EaseOut),
    );
    handler.set_animation(0, AnimationType::Step(step));
    handler.set_animation_state(0, true);
    handler.animate(ONE / 2);
    assert_eq!(handler.movement_list[0].current_pos, Vec3::new(0, 5_250_000, 0));
    handler.reverse();
    assert!(handler.movement_list[0].animations[0].reversed);
    handler.animate(ONE / 4);
    assert_eq!(handler.movement_list[0].animations.len(), 1);
    handler.animate(ONE / 4);
    let record = &handler.movement_list[0];
    assert!(record.animations.is_empty());
    assert_eq!(record.start, Vec3::zero());
    assert_eq!(record.current_pos, Vec3::zero());
}

#[test]
fn finished_plain_step_stays_until_reversed() {
    let mut handler = origin_handler();
    let step = AnimationStep::new(
        Vec3::new(ONE, 0, 0),
        ONE,
        false,
        false,
        false,
        AnimationTransition::EaseOut(EaseOut),
    );
    handler.set_animation(0, AnimationType::Step(step));
    handler.set_animation_state(0, true);
    handler.animate(2 * ONE);
    assert_eq!(handler.movement_list[0].animations.len(), 1);
    assert_eq!(handler.movement_list[0].current_pos, Vec3::new(ONE, 0, 0));
    assert_eq!(handler.movement_list[0].start, Vec3::zero());
}

#[test]
fn inactive_steps_do_not_move() {
    let mut handler = origin_handler();
    handler.set_animation(0, AnimationType::Step(one_shot(Vec3::new(ONE, 0, 0), ONE)));
    handler.animate(ONE / 2);
    let record = &handler.movement_list[0];
    assert_eq!(record.animations[0].time, 0);
    assert_eq!(record.current_pos, Vec3::zero());
    assert!(handler.is_locked());
}

#[test]
fn disabled_registry_freezes_but_still_updates_instances() {
    let mut handler = origin_handler();
    handler.set_animation(0, AnimationType::Step(one_shot(Vec3::new(4 * ONE, 0, 0), ONE)));
    handler.set_animation_state(0, true);
    handler.animate(ONE / 2);
    let frozen = handler.movement_list[0].current_pos;
    handler.disable();
    handler.animate(ONE / 2);
    handler.reverse();
    handler.set_animation_state(0, false);
    assert_eq!(handler.movement_list[0].current_pos, frozen);
    assert!(!handler.movement_list[0].animations[0].reversed);
    assert!(handler.movement_list[0].animations[0].activated);
    let mut instance = instance_at(Vec3::zero());
    handler.update_instance(0, &mut instance);
    assert_eq!(instance.position, frozen);
    assert_eq!(instance.bounding, Vec3::new(ONE, ONE, ONE).add(frozen));
}

#[test]
fn update_instance_copies_position_and_color() {
    let mut handler = AnimationHandler::new(&vec![Vec3::new(ONE, 0, 0)], vec![]);
    handler.animate(0);
    let mut instance = instance_at(Vec3::zero());
    handler.update_instance(0, &mut instance);
    assert_eq!(instance.position, Vec3::new(ONE, 0, 0));
    assert_eq!(instance.bounding, Vec3::new(2 * ONE, ONE, ONE));
    assert_eq!(instance.color, handler.movement_list[0].color);
    let before = instance;
    handler.update_instance(5, &mut instance);
    assert_eq!(instance, before);
    handler.movement_list[0].activated = false;
    handler.movement_list[0].current_pos = Vec3::new(9, 9, 9);
    handler.update_instance(0, &mut instance);
    assert_eq!(instance, before);
}

#[test]
fn color_follows_the_loop_curve() {
    let mut handler = origin_handler();
    handler.animate(ONE);
    // at the peak of the loop the ramp gives the high color
    assert_eq!(handler.movement_list[0].color, Vec3::new(900_000, 400_000, 702_000));
    handler.animate(ONE);
    assert_eq!(handler.movement_list[0].color, Vec3::new(800_000, 0, 600_000));
}

#[test]
fn neighbours_bob_out_of_step() {
    let positions: Vec<Vec3> = (0..4).map(|i| Vec3::new(i * ONE, 0, 0)).collect();
    let bob = AnimationPersistent::new(
        Vec3::new(0, ONE, 0),
        AnimationTransition::EaseInEaseOutLoop(EaseInEaseOutLoop),
    );
    let mut handler = AnimationHandler::new(&positions, vec![AnimationType::Persistent(bob)]);
    handler.animate(ONE / 2);
    handler.animate(ONE / 2);
    let ys: Vec<i64> = handler.movement_list.iter().map(|r| r.current_pos.y).collect();
    // the first instance has no delay and sits at the top of its loop
    assert_eq!(ys[0], ONE / 2);
    for (i, y) in ys.iter().enumerate() {
        let delay = i as i64 * ONE / 20;
        assert_eq!(*y, ease_in_ease_out_loop(ONE, delay, ONE) - ONE / 2);
        assert_eq!(handler.movement_list[i].current_pos.x, i as i64 * ONE);
    }
    for i in 1..4 {
        assert_ne!(ys[i], ys[i - 1]);
    }
}

#[test]
fn reset_moves_the_anchor_to_the_settled_position() {
    let positions = vec![Vec3::zero(), Vec3::new(ONE, 0, 0)];
    let mut handler = AnimationHandler::new(&positions, vec![]);
    let step = AnimationStep::new(
        Vec3::new(0, 0, 4 * ONE),
        ONE,
        false,
        false,
        false,
        AnimationTransition::EaseInEaseOut(EaseInEaseOut),
    );
    handler.set_animation(0, AnimationType::Step(step));
    handler.set_animation_state(0, true);
    handler.animate(ONE / 2);
    let mut instances = vec![instance_at(Vec3::zero()), instance_at(Vec3::new(ONE, 0, 0))];
    handler.reset_instance_position_to_current_position(&mut instances);
    let settled = Vec3::new(0, 0, 2 * ONE);
    assert_eq!(instances[0].position, settled);
    assert_eq!(instances[0].bounding, Vec3::new(ONE, ONE, 3 * ONE));
    assert_eq!(handler.movement_list[0].start, settled);
    // the locked-in anchor moves only when a one-shot step completes
    assert_eq!(handler.movement_list[0].grid_pos, Vec3::zero());
    assert!(handler.movement_list[0].animations.is_empty());
    // a record without steps and its instance stay as they are
    assert_eq!(instances[1], instance_at(Vec3::new(ONE, 0, 0)));
    assert_eq!(handler.movement_list[1].start, Vec3::new(ONE, 0, 0));
}

#[test]
fn grid_pos_moves_only_on_a_fold() {
    let mut handler = origin_handler();
    handler.movement_list[0].grid_pos = Vec3::new(5, 5, 5);
    let plain = AnimationStep::new(
        Vec3::new(ONE, 0, 0),
        ONE,
        false,
        false,
        false,
        AnimationTransition::EaseOut(EaseOut),
    );
    handler.set_animation(0, AnimationType::Step(plain));
    handler.set_animation_state(0, true);
    handler.animate(ONE / 2);
    assert_eq!(handler.movement_list[0].grid_pos, Vec3::new(5, 5, 5));
    let movement = Vec3::new(0, 3 * ONE, 0);
    handler.set_animation(0, AnimationType::Step(one_shot(movement, ONE)));
    handler.set_animation_state(0, true);
    handler.animate(ONE / 2);
    assert_eq!(handler.movement_list[0].grid_pos, Vec3::new(5, 5, 5));
    handler.animate(ONE / 2);
    assert_eq!(handler.movement_list[0].start, movement);
    assert_eq!(handler.movement_list[0].grid_pos, movement);
}
