use frameplay::animation::TimelineError;
use frameplay::color::Color;
use frameplay::interpolated::{Interpolatable, InterpolatedAnimation};

#[test]
fn blend_fraction_inside_the_window() {
    // One frame pair, duration 10, interpolation duration 4: at elapsed 7
    // the blend window [6, 10) is a quarter covered, so the shown value is
    // the blend of the two authored values at fraction 1/4.
    let x = Color::new_rgb(0, 0, 0);
    let y = Color::new_rgb(200, 100, 40);
    let mut anim = InterpolatedAnimation::new_single_duration(vec![x, y], 10, 4).unwrap();
    anim.update(7);
    assert_eq!(anim.current_index(), 0);
    assert_eq!(anim.get_frame(), Color::new_rgb(50, 25, 10));
    assert_eq!(anim.get_frame(), x.lerp(&y, 1, 4));
}

#[test]
fn no_blend_before_the_window() {
    let x = Color::new_rgb(0, 0, 0);
    let y = Color::new_rgb(200, 100, 40);
    let mut anim = InterpolatedAnimation::new_single_duration(vec![x, y], 10, 4).unwrap();
    anim.update(6);
    assert_eq!(anim.get_frame(), x, "the window starts after 6 of 10 units");
}

#[test]
fn crossing_the_frame_boundary_shows_the_next_value() {
    let x = Color::new_rgb(0, 0, 0);
    let y = Color::new_rgb(200, 100, 40);
    let mut anim = InterpolatedAnimation::new_single_duration(vec![x, y], 10, 4).unwrap();
    anim.update(12);
    assert_eq!(anim.current_index(), 1);
    assert_eq!(anim.get_frame(), y);
}

#[test]
fn reset_restores_the_authored_value() {
    let x = Color::new_rgb(10, 10, 10);
    let y = Color::new_rgb(210, 110, 50);
    let mut anim = InterpolatedAnimation::new_single_duration(vec![x, y], 10, 10).unwrap();
    anim.update(5);
    assert_ne!(anim.get_frame(), x, "mid-window the shown value is blended");
    anim.reset();
    assert_eq!(anim.current_index(), 0);
    assert!(!anim.is_finished());
    assert_eq!(anim.get_frame(), x, "the authored value is back after reset");
}

#[test]
fn repeated_reset_and_replay_blend_identically() {
    let x = Color::new_rgb(0, 0, 0);
    let y = Color::new_rgb(100, 200, 60);
    let mut anim = InterpolatedAnimation::new_single_duration(vec![x, y], 10, 4).unwrap();
    anim.update(8);
    let first = anim.get_frame();
    anim.reset();
    anim.update(8);
    assert_eq!(anim.get_frame(), first, "blending never corrupts the authored frames");
}

#[test]
fn interpolation_longer_than_duration_is_rejected() {
    let x = Color::new_rgb(0, 0, 0);
    assert_eq!(
        InterpolatedAnimation::new_single_duration(vec![x, x], 10, 11).unwrap_err(),
        TimelineError::InterpolationTooLong
    );
    assert_eq!(
        InterpolatedAnimation::new_multiple_durations(
            vec![x, x],
            vec![10, 10],
            vec![4, 11],
        )
        .unwrap_err(),
        TimelineError::InterpolationTooLong
    );
}

#[test]
fn empty_interpolated_timeline_is_rejected() {
    let none: Vec<Color> = Vec::new();
    assert_eq!(
        InterpolatedAnimation::new_single_duration(none, 10, 4).unwrap_err(),
        TimelineError::EmptyTimeline
    );
}

#[test]
fn interpolated_pairing_stops_at_the_shortest_list() {
    let a = Color::new_rgb(1, 1, 1);
    let b = Color::new_rgb(2, 2, 2);
    let c = Color::new_rgb(3, 3, 3);
    // Three values, three durations, two interpolation durations: two frames.
    let mut anim = InterpolatedAnimation::new_multiple_durations(
        vec![a, b, c],
        vec![5, 5, 5],
        vec![0, 0],
    )
    .unwrap();
    anim.update(10);
    assert_eq!(anim.current_index(), 1);
    assert!(anim.is_finished());
}

#[test]
fn interpolated_cursor_matches_the_plain_player() {
    // The cursor policy is the very same carry-over state machine.
    let a = Color::new_rgb(0, 0, 0);
    let mut anim =
        InterpolatedAnimation::new_multiple_durations(vec![a, a, a], vec![2, 3, 4], vec![0, 0, 0])
            .unwrap();
    anim.set_auto_reset(true);
    anim.update(9);
    assert!(anim.is_finished());
    assert_eq!(anim.current_index(), 0);
    anim.update(4);
    assert_eq!(anim.current_index(), 1);
}

#[test]
fn color_lerp_endpoints_and_midpoint() {
    let a = Color::new_rgb(10, 20, 30);
    let b = Color::new_rgb(20, 10, 30);
    assert_eq!(a.lerp(&b, 0, 7), a);
    assert_eq!(a.lerp(&b, 7, 7), b);
    assert_eq!(a.lerp(&b, 1, 2), Color::new_rgb(15, 15, 30));
}

#[test]
fn color_lerp_rounds_toward_the_start() {
    let a = Color::new_rgb(0, 10, 255);
    let b = Color::new_rgb(1, 0, 0);
    // One third of the way: each channel moves by a third of its distance,
    // with the fractional part dropped.
    assert_eq!(a.lerp(&b, 1, 3), Color::new_rgb(0, 7, 170));
}
