use frameplay::animation::Animation;
use frameplay::color::Color;
use frameplay::interpolated::InterpolatedAnimation;
use frameplay::manager::{AnimationManager, InterpolatedAnimationManager};

fn two_track_manager() -> AnimationManager<u32> {
    let mut manager = AnimationManager::new();
    manager.add_animation(
        "idle",
        Animation::new_single_duration(vec![1, 2], 10).unwrap(),
    );
    manager.add_animation(
        "walk",
        Animation::new_single_duration(vec![5, 6], 10).unwrap(),
    );
    manager
}

#[test]
fn update_only_touches_the_selected_track() {
    let mut manager = two_track_manager();
    manager.play("walk");
    manager.update(10);
    assert_eq!(*manager.get_frame(), 6, "walk advanced to its second frame");
    // The added-but-unselected track never moved.
    manager.play("idle");
    assert_eq!(*manager.get_frame(), 1, "idle is still on its first frame");
    assert!(!manager.finished());
}

#[test]
fn selecting_does_not_reset_the_track() {
    let mut manager = two_track_manager();
    manager.play("walk");
    manager.update(10);
    manager.play("idle");
    manager.play("walk");
    assert_eq!(*manager.get_frame(), 6, "re-selecting keeps the cursor in place");
    manager.reset();
    assert_eq!(*manager.get_frame(), 5, "an explicit reset rewinds it");
}

#[test]
fn forwarded_finished_pulse() {
    let mut manager = two_track_manager();
    manager.play("idle");
    manager.update(20);
    assert!(manager.finished());
    manager.update(5);
    assert!(!manager.finished());
}

#[test]
fn adding_under_an_existing_name_replaces_the_track() {
    let mut manager = two_track_manager();
    manager.play("idle");
    manager.update(10);
    assert_eq!(*manager.get_frame(), 2);
    manager.add_animation(
        "idle",
        Animation::new_single_duration(vec![7, 8], 10).unwrap(),
    );
    assert_eq!(*manager.get_frame(), 7, "the fresh track starts at its first frame");
    manager.play("walk");
    assert_eq!(*manager.get_frame(), 5, "the other track is untouched");
}

#[test]
fn interpolated_manager_forwards_to_the_selected_track() {
    let x = Color::new_rgb(0, 0, 0);
    let y = Color::new_rgb(200, 100, 40);
    let mut manager = InterpolatedAnimationManager::new();
    manager.add_animation(
        "fade",
        InterpolatedAnimation::new_single_duration(vec![x, y], 10, 4).unwrap(),
    );
    manager.add_animation(
        "still",
        InterpolatedAnimation::new_single_duration(vec![x, y], 10, 0).unwrap(),
    );
    manager.play("fade");
    manager.update(7);
    assert_eq!(manager.get_frame(), Color::new_rgb(50, 25, 10));
    manager.play("still");
    assert_eq!(manager.get_frame(), x, "the unselected track never moved");
    manager.play("fade");
    manager.reset();
    assert_eq!(manager.get_frame(), x, "reset restores the authored value");
}

#[test]
fn color_construction() {
    let c = Color::new_rgb(12, 34, 56);
    assert_eq!(c, Color::RGB { r: 12, g: 34, b: 56 });
}
