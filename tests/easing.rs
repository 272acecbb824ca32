use voxel_motion::easing::{
    ease_in_ease_out_loop, get_height_color, AnimationTransition, EaseInEaseOut,
    EaseInEaseOutLoop, EaseOut,
};
use voxel_motion::vector::{Vec3, COORD_LIMIT, ONE};

#[test]
fn ease_out_cubic_endpoints_and_midpoint() {
    assert_eq!(EaseOut::ease_out_cubic(0), 0);
    assert_eq!(EaseOut::ease_out_cubic(ONE), ONE);
    // 1 - (1 - 0.5)^3 = 0.875
    assert_eq!(EaseOut::ease_out_cubic(ONE / 2), 875_000);
}

#[test]
fn ease_out_cubic_clamps_its_input() {
    assert_eq!(EaseOut::ease_out_cubic(-5 * ONE), 0);
    assert_eq!(EaseOut::ease_out_cubic(3 * ONE), ONE);
    assert_eq!(EaseOut::ease_out_cubic(i64::MIN), 0);
    assert_eq!(EaseOut::ease_out_cubic(i64::MAX), ONE);
}

#[test]
fn ease_out_cubic_stays_in_range_and_never_decreases() {
    let mut previous = EaseOut::ease_out_cubic(0);
    let mut t = 0;
    while t <= ONE {
        let v = EaseOut::ease_out_cubic(t);
        assert!(v >= 0 && v <= ONE);
        assert!(v >= previous);
        previous = v;
        t += 12_345;
    }
}

#[test]
fn ease_in_ease_out_halves_meet_at_one_half() {
    assert_eq!(EaseInEaseOut::ease_in_ease_out_cubic(ONE / 2), ONE / 2);
    // 4 * 0.25^3 = 0.0625
    assert_eq!(EaseInEaseOut::ease_in_ease_out_cubic(ONE / 4), 62_500);
    // 1 - (2 - 1.5)^3 / 2 = 0.9375
    assert_eq!(EaseInEaseOut::ease_in_ease_out_cubic(3 * ONE / 4), 937_500);
    assert_eq!(EaseInEaseOut::ease_in_ease_out_cubic(-ONE), 0);
    assert_eq!(EaseInEaseOut::ease_in_ease_out_cubic(2 * ONE), ONE);
}

#[test]
fn ease_loop_landmarks() {
    let delay = 300_000;
    let period = 2 * ONE;
    assert_eq!(ease_in_ease_out_loop(delay, delay, period), 0);
    assert_eq!(ease_in_ease_out_loop(delay + period, delay, period), ONE);
    assert_eq!(ease_in_ease_out_loop(delay + 2 * period, delay, period), 0);
    assert_eq!(ease_in_ease_out_loop(delay - 1, delay, period), 0);
    // t = 0.5: 0.25 / (2 (0.25 - 0.5) + 1) = 0.5
    assert_eq!(ease_in_ease_out_loop(ONE / 2, 0, ONE), ONE / 2);
}

#[test]
fn ease_loop_repeats_and_mirrors() {
    let (delay, period) = (100_000, ONE);
    for e in [delay, delay + 123_456, delay + 777_777, delay + 5 * ONE + 1] {
        assert_eq!(
            ease_in_ease_out_loop(e + 2 * period, delay, period),
            ease_in_ease_out_loop(e, delay, period)
        );
        assert_eq!(
            ease_in_ease_out_loop(e + 20 * period, delay, period),
            ease_in_ease_out_loop(e, delay, period)
        );
    }
    for x in [0, 1, 250_000, 999_999, ONE] {
        assert_eq!(
            ease_in_ease_out_loop(delay + period + x, delay, period),
            ease_in_ease_out_loop(delay + period - x, delay, period)
        );
    }
    assert_eq!(
        EaseInEaseOutLoop::ease_in_ease_out_loop(1_234_567, 10, ONE),
        ease_in_ease_out_loop(1_234_567, 10, ONE)
    );
}

#[test]
fn ease_loop_folds_large_elapsed_times() {
    let v = ease_in_ease_out_loop(i64::MAX, i64::MIN, ONE);
    assert!(v >= 0 && v <= ONE);
}

#[test]
fn lerp_follows_each_curve() {
    let start = Vec3::new(ONE, 0, 0);
    let end = Vec3::new(11 * ONE, -4 * ONE, 0);
    let out = AnimationTransition::EaseOut(EaseOut).lerp(start, end, ONE / 2, 0);
    assert_eq!(out, Vec3::new(ONE + 8_750_000, -3_500_000, 0));
    let in_out = AnimationTransition::EaseInEaseOut(EaseInEaseOut).lerp(start, end, ONE / 4, 0);
    assert_eq!(in_out, Vec3::new(ONE + 625_000, -250_000, 0));
    // the loop curve is recentred: at its peak the blend is one half
    let looped =
        AnimationTransition::EaseInEaseOutLoop(EaseInEaseOutLoop).lerp(start, end, ONE, 0);
    assert_eq!(looped, Vec3::new(6 * ONE, -2 * ONE, 0));
    let low = AnimationTransition::EaseInEaseOutLoop(EaseInEaseOutLoop).lerp(start, end, 0, 0);
    assert_eq!(low, Vec3::new(ONE - 5 * ONE, 2 * ONE, 0));
}

#[test]
fn height_color_ramp() {
    assert_eq!(get_height_color(0), Vec3::new(800_000, 0, 600_000));
    assert_eq!(get_height_color(ONE), Vec3::new(900_000, 400_000, 702_000));
    assert_eq!(get_height_color(ONE / 2), Vec3::new(850_000, 200_000, 651_000));
}

#[test]
fn vector_sums_saturate_and_products_round_toward_zero() {
    let big = Vec3::new(COORD_LIMIT, -COORD_LIMIT, 5);
    assert_eq!(big.add(big), Vec3::new(COORD_LIMIT, -COORD_LIMIT, 10));
    assert_eq!(Vec3::new(i64::MIN, 0, 0).sub(Vec3::new(i64::MAX, 0, 0)).x, -COORD_LIMIT);
    assert_eq!(Vec3::new(-3, 3, 0).scale(ONE / 2), Vec3::new(-1, 1, 0));
    assert_eq!(Vec3::new(7 * ONE, 0, -ONE).scale(2 * ONE), Vec3::new(14 * ONE, 0, -2 * ONE));
    assert_eq!(Vec3::zero(), Vec3::new(0, 0, 0));
}

#[test]
fn ease_loop_without_a_positive_period_is_zero() {
    assert_eq!(ease_in_ease_out_loop(5 * ONE, 0, 0), 0);
    assert_eq!(ease_in_ease_out_loop(5 * ONE, 0, -ONE), 0);
    assert_eq!(EaseInEaseOutLoop::ease_in_ease_out_loop(ONE, 0, i64::MIN), 0);
}
