use swarm_native::arena::TripleBufferState;
use swarm_native::detector::{calculate_motion_bbox, MotionROI};

fn frame(width: usize, height: usize, f: impl Fn(usize, usize) -> u8) -> Vec<u8> {
    let mut b = vec![0u8; width * height * 3];
    for y in 0..height {
        for x in 0..width {
            let v = f(x, y);
            for ch in 0..3 {
                b[(y * width + x) * 3 + ch] = v;
            }
        }
    }
    b
}

fn rect(x0: usize, x1: usize, y0: usize, y1: usize, inside: u8, outside: u8) -> impl Fn(usize, usize) -> u8 {
    move |x, y| if x >= x0 && x < x1 && y >= y0 && y < y1 { inside } else { outside }
}

#[test]
fn identical_buffers_report_no_motion() {
    let f = frame(640, 480, |x, y| ((x * 7 + y * 13) % 256) as u8);
    assert_eq!(calculate_motion_bbox(&f, &f, 640, 480, 10), None);
}

#[test]
fn length_mismatch_reports_no_motion() {
    let a = vec![0u8; 300];
    let b = vec![255u8; 303];
    assert_eq!(calculate_motion_bbox(&a, &b, 10, 10, 1), None);
}

#[test]
fn changed_rectangle_gives_tight_box() {
    let reference = frame(640, 480, |_, _| 10);
    let current = frame(640, 480, rect(100, 200, 50, 90, 200, 10));
    let r = calculate_motion_bbox(&current, &reference, 640, 480, 10);
    assert_eq!(r, Some(MotionROI { x: 100, y: 50, w: 90, h: 39 }));
}

#[test]
fn difference_of_exactly_threshold_is_ignored() {
    let reference = frame(640, 480, |_, _| 10);
    let current = frame(640, 480, rect(100, 200, 50, 90, 40, 10));
    assert_eq!(calculate_motion_bbox(&current, &reference, 640, 480, 10), None);
}

#[test]
fn difference_just_above_threshold_counts() {
    let reference = frame(640, 480, |_, _| 10);
    let current = frame(640, 480, rect(100, 200, 50, 90, 41, 10));
    let r = calculate_motion_bbox(&current, &reference, 640, 480, 10);
    assert_eq!(r, Some(MotionROI { x: 100, y: 50, w: 90, h: 39 }));
}

#[test]
fn fifty_changed_samples_are_not_enough() {
    let reference = vec![0u8; 20 * 20 * 3];
    let mut current = reference.clone();
    for k in 0..50 {
        current[k * 3] = 100;
    }
    assert_eq!(calculate_motion_bbox(&current, &reference, 20, 20, 1), None);
}

#[test]
fn fifty_one_changed_samples_trigger() {
    let reference = vec![0u8; 20 * 20 * 3];
    let mut current = reference.clone();
    for k in 0..51 {
        current[k * 3] = 100;
    }
    let r = calculate_motion_bbox(&current, &reference, 20, 20, 1);
    assert_eq!(r, Some(MotionROI { x: 0, y: 0, w: 19, h: 2 }));
}

#[test]
fn box_contains_every_changed_sample() {
    let width = 64;
    let height = 48;
    let reference = frame(width, height, |_, _| 0);
    let current = frame(width, height, |x, y| if (x * 3 + y * 5) % 7 == 0 { 90 } else { 0 });
    let step = 2;
    let roi = calculate_motion_bbox(&current, &reference, width, height, step).unwrap();
    let mut i = 0;
    while i < current.len() {
        if (current[i] as i32 - reference[i] as i32).abs() > 30 {
            let x = (i / 3 % width) as u32;
            let y = (i / 3 / width) as u32;
            assert!(roi.x <= x && x <= roi.x + roi.w);
            assert!(roi.y <= y && y <= roi.y + roi.h);
        }
        i += step * 3;
    }
}

#[test]
fn motion_changes_on_a_single_row_give_zero_height() {
    let reference = vec![0u8; 200 * 2 * 3];
    let mut current = reference.clone();
    for k in 0..60 {
        current[(k + 10) * 3] = 255;
    }
    let r = calculate_motion_bbox(&current, &reference, 200, 2, 1);
    assert_eq!(r, Some(MotionROI { x: 10, y: 0, w: 59, h: 0 }));
}

#[test]
fn arena_watchdog_compares_ready_with_cold_slot() {
    let width = 640;
    let height = 480;
    let mut arena = TripleBufferState::new(width * height * 3);
    let moved = frame(width, height, rect(100, 200, 50, 90, 200, 0));
    // Slot 1 becomes ready; slot 0 is cold and still zeroed.
    arena.publish_frame(&moved);
    assert_eq!(arena.cold_index(), 0);
    let r = arena.detect_motion(width, height, 10);
    assert_eq!(r, Some(MotionROI { x: 100, y: 50, w: 90, h: 39 }));
}

#[test]
fn arena_watchdog_without_change_reports_nothing() {
    let arena = TripleBufferState::new(640 * 480 * 3);
    assert_eq!(arena.detect_motion(640, 480, 10), None);
}
