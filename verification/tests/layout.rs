use taskband::layout::{bar_target, compute_x, obstacle_lefts, place_modules};
use taskband::taskbar::Rect;

#[test]
fn parks_at_far_right_when_no_obstacles() {
    // boundary = 0 + 1920; x = 1920 - 8 - 260
    assert_eq!(compute_x(0, 1920, &[], 260, 8, 0), 1652);
}

#[test]
fn sits_left_of_single_obstacle() {
    // boundary = 1336; x = 1336 - 8 - 260
    assert_eq!(compute_x(0, 1920, &[1336], 260, 8, 0), 1068);
}

#[test]
fn uses_leftmost_of_multiple_obstacles() {
    // min(1602, 1336) = 1336
    assert_eq!(compute_x(0, 1920, &[1602, 1336], 260, 8, 0), 1068);
}

#[test]
fn clamps_to_zero_when_obstacle_too_far_left() {
    // 100 - 8 - 260 = -168 -> 0
    assert_eq!(compute_x(0, 1920, &[100], 260, 8, 0), 0);
}

#[test]
fn handles_nonzero_taskbar_left() {
    // secondary monitor: taskbar_left = 1920, obstacle at 3256
    // boundary_client = 3256 - 1920 = 1336 -> 1068
    assert_eq!(compute_x(1920, 1920, &[3256], 260, 8, 0), 1068);
}

#[test]
fn reserves_space_for_secondary_clock_when_no_obstacles() {
    // cap = 5360 - 100 = 5260; client = 5260 - 1920 = 3340; x = 3340 - 8 - 185
    assert_eq!(compute_x(1920, 3440, &[], 185, 8, 100), 3147);
}

#[test]
fn obstacle_left_of_reserve_still_wins() {
    // min(5000, 5260) = 5000; client = 5000 - 1920 = 3080; x = 3080 - 8 - 185
    assert_eq!(compute_x(1920, 3440, &[5000], 185, 8, 100), 2887);
}

#[test]
fn places_modules_left_to_right() {
    let (offsets, total) = place_modules(&[100, 60, 80]);
    assert_eq!(offsets, vec![0, 100, 160]);
    assert_eq!(total, 240);
}

#[test]
fn empty_bar_is_zero_width() {
    let (offsets, total) = place_modules(&[]);
    assert!(offsets.is_empty());
    assert_eq!(total, 0);
}

#[test]
fn obstacle_right_of_the_reserve_is_ignored() {
    // cap = 1920 - 100 = 1820 lies left of the obstacle at 1900
    assert_eq!(compute_x(0, 1920, &[1900], 200, 10, 100), 1610);
}

#[test]
fn bar_ends_gap_pixels_before_the_nearest_obstacle() {
    let x = compute_x(100, 1000, &[900, 700], 150, 8, 0);
    assert_eq!(100 + x + 150 + 8, 700);
}

#[test]
fn consecutive_modules_abut() {
    let widths = [30, 0, 45, 12];
    let (offsets, total) = place_modules(&widths);
    for k in 0..widths.len() - 1 {
        assert_eq!(offsets[k] + widths[k], offsets[k + 1]);
    }
    assert_eq!(offsets[3] + widths[3], total);
}

#[test]
fn obstacles_are_narrow_windows_in_the_right_half() {
    let r = |left: i32, right: i32| Rect { left, top: 0, right, bottom: 48 };
    let siblings = [
        r(0, 1920),    // full-width content host
        r(100, 300),   // left half
        r(1602, 1700), // tray
        r(960, 1000),  // exactly at the middle: not right of it
        r(1336, 1500), // an embedded app
    ];
    assert_eq!(obstacle_lefts(0, 1920, &siblings), vec![1602, 1336]);
    // A secondary taskbar starting at 1920 measures its half from there.
    assert_eq!(obstacle_lefts(1920, 1920, &[r(2000, 2100), r(3256, 3400)]), vec![3256]);
    assert!(obstacle_lefts(0, 1920, &[]).is_empty());
}

#[test]
fn the_bar_moves_only_when_its_place_or_height_changed() {
    let r = |left: i32, right: i32| Rect { left, top: 0, right, bottom: 48 };
    let siblings = [r(0, 1920), r(1336, 1500)];
    // x = 1336 - 8 - 260 = 1068
    assert_eq!(bar_target(0, 1920, 48, &siblings, 260, 8, 0, 1068, 48), None);
    assert_eq!(bar_target(0, 1920, 48, &siblings, 260, 8, 0, 1000, 48), Some(1068));
    assert_eq!(bar_target(0, 1920, 48, &siblings, 260, 8, 0, 1068, 40), Some(1068));
}
