use frameplay::animation::{Animation, TimelineError};

#[test]
fn single_duration_starts_at_first_frame() {
    let anim = Animation::new_single_duration(vec!['a', 'b', 'c'], 10).unwrap();
    assert_eq!(*anim.get_frame(), 'a');
    assert_eq!(anim.current_index(), 0);
    assert!(!anim.is_finished());
    assert!(!anim.auto_reset());
}

#[test]
fn empty_timeline_is_rejected() {
    let empty: Vec<char> = Vec::new();
    assert_eq!(
        Animation::new_single_duration(empty, 10).unwrap_err(),
        TimelineError::EmptyTimeline
    );
    let no_durations: Vec<u64> = Vec::new();
    assert_eq!(
        Animation::new_multiple_durations(vec![1, 2, 3], no_durations).unwrap_err(),
        TimelineError::EmptyTimeline
    );
}

#[test]
fn multiple_durations_truncates_to_shorter_list() {
    // Three values but only two durations: the timeline holds two frames.
    let mut anim = Animation::new_multiple_durations(vec![1, 2, 3], vec![5, 5]).unwrap();
    anim.update(10);
    assert_eq!(anim.current_index(), 1);
    assert!(anim.is_finished());
}

#[test]
fn seven_half_ticks_scenario() {
    // Timeline [a:10, b:10, c:10], no auto-reset; seven ticks of 5 units.
    // Sampling the frame at the start of each tick reads 0,0,1,1,2,2,2, and
    // the finished pulse fires exactly on the sixth tick (t = 30).
    let mut anim = Animation::new_single_duration(vec!['a', 'b', 'c'], 10).unwrap();
    let expected_index = [0, 0, 1, 1, 2, 2, 2];
    let expected_finished = [false, false, false, false, false, true, false];
    for tick in 0..7 {
        assert_eq!(anim.current_index(), expected_index[tick], "index before tick {}", tick + 1);
        anim.update(5);
        assert_eq!(
            anim.is_finished(),
            expected_finished[tick],
            "finished after tick {}",
            tick + 1
        );
    }
    assert_eq!(anim.current_index(), 2);
}

#[test]
fn split_ticks_reach_the_same_frame() {
    // The same total time, split differently, lands on the same frame.
    let mut one = Animation::new_multiple_durations(vec!['a', 'b', 'c'], vec![4, 6, 3]).unwrap();
    let mut many = Animation::new_multiple_durations(vec!['a', 'b', 'c'], vec![4, 6, 3]).unwrap();
    one.update(12);
    for dt in [5, 5, 2] {
        many.update(dt);
    }
    assert_eq!(one.current_index(), many.current_index());
    assert_eq!(*one.get_frame(), *many.get_frame());
}

#[test]
fn split_ticks_with_auto_reset_reach_the_same_frame() {
    let mut one = Animation::new_multiple_durations(vec!['a', 'b'], vec![3, 2]).unwrap();
    let mut many = Animation::new_multiple_durations(vec!['a', 'b'], vec![3, 2]).unwrap();
    one.set_auto_reset(true);
    many.set_auto_reset(true);
    one.update(17);
    for dt in [4, 4, 4, 4, 1] {
        many.update(dt);
    }
    assert_eq!(one.current_index(), many.current_index());
    assert_eq!(*one.get_frame(), *many.get_frame());
}

#[test]
fn reset_returns_to_the_start() {
    let mut anim = Animation::new_single_duration(vec![10, 20, 30], 4).unwrap();
    anim.update(9);
    assert_eq!(anim.current_index(), 2);
    anim.reset();
    assert_eq!(anim.current_index(), 0);
    assert!(!anim.is_finished());
    assert_eq!(*anim.get_frame(), 10);
}

#[test]
fn terminal_frame_holds_without_auto_reset() {
    let mut anim = Animation::new_multiple_durations(vec!['a', 'b'], vec![2, 3]).unwrap();
    anim.update(5);
    assert_eq!(anim.current_index(), 1);
    assert!(anim.is_finished());
    for _ in 0..4 {
        anim.update(100);
        assert_eq!(anim.current_index(), 1, "holds at the terminal frame");
        assert!(!anim.is_finished(), "the pulse never fires again");
    }
}

#[test]
fn auto_reset_wraps_on_the_finishing_tick() {
    let mut anim = Animation::new_multiple_durations(vec!['a', 'b'], vec![2, 3]).unwrap();
    anim.set_auto_reset(true);
    anim.update(5);
    assert!(anim.is_finished());
    assert_eq!(anim.current_index(), 0, "wraps to the start on the same tick");
    // Playback resumes normally afterward.
    anim.update(1);
    assert_eq!(anim.current_index(), 0);
    assert!(!anim.is_finished());
    anim.update(1);
    assert_eq!(anim.current_index(), 1);
}

#[test]
fn auto_reset_carries_leftover_time_into_the_new_cycle() {
    let mut anim = Animation::new_multiple_durations(vec!['a', 'b'], vec![2, 3]).unwrap();
    anim.set_auto_reset(true);
    // 5 units finish one cycle; 2 more land inside frame 1 of the next.
    anim.update(7);
    assert!(anim.is_finished());
    assert_eq!(anim.current_index(), 1);
    assert_eq!(*anim.get_frame(), 'b');
}

#[test]
fn one_tick_of_the_total_duration_finishes() {
    let mut anim =
        Animation::new_multiple_durations(vec![1, 2, 3, 4], vec![1, 2, 3, 4]).unwrap();
    anim.update(10);
    assert_eq!(anim.current_index(), 3);
    assert!(anim.is_finished());
}

#[test]
fn zero_duration_frames_advance_immediately() {
    let mut anim = Animation::new_multiple_durations(vec!['a', 'b', 'c'], vec![0, 5, 0]).unwrap();
    anim.update(0);
    assert_eq!(anim.current_index(), 1, "a zero-duration frame is skipped at once");
    anim.update(5);
    assert_eq!(anim.current_index(), 2);
    assert!(anim.is_finished());
}

#[test]
fn set_auto_reset_leaves_the_cursor_alone() {
    let mut anim = Animation::new_single_duration(vec![1, 2], 5).unwrap();
    anim.update(6);
    let index = anim.current_index();
    anim.set_auto_reset(true);
    assert!(anim.auto_reset());
    assert_eq!(anim.current_index(), index);
    anim.set_auto_reset(false);
    assert!(!anim.auto_reset());
}
