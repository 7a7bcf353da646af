use swarm_native::flow::{calculate_optical_flow, find_best_block_match, FlowTotals, GRID_CELLS, SEARCH_RANGE};

fn frame(width: usize, height: usize, f: impl Fn(i64, i64) -> u8) -> Vec<u8> {
    let mut b = vec![0u8; width * height * 3];
    for y in 0..height {
        for x in 0..width {
            let v = f(x as i64, y as i64);
            for ch in 0..3 {
                b[(y * width + x) * 3 + ch] = v;
            }
        }
    }
    b
}

fn texture(x: i64, y: i64) -> u8 {
    (x * x * 7 + y * y * 13 + x * y * 5 + x * 3 + y * 11).rem_euclid(251) as u8
}

fn estimate(current: &[u8], prev: &[u8], width: usize, height: usize) -> (Vec<i32>, FlowTotals) {
    let mut grid = vec![7i32; 2 * GRID_CELLS];
    let totals = calculate_optical_flow(current, prev, width, height, &mut grid);
    (grid, totals)
}

fn aggregate(t: &FlowTotals) -> (f32, f32) {
    if t.points > 0 {
        (t.sum_dx as f32 / t.points as f32, t.sum_dy as f32 / t.points as f32)
    } else {
        (0.0, 0.0)
    }
}

#[test]
fn identical_textured_frames_give_zero_flow() {
    let f = frame(64, 64, texture);
    let (grid, totals) = estimate(&f, &f, 64, 64);
    assert!(grid.iter().all(|&v| v == 0));
    assert_eq!(totals, FlowTotals { sum_dx: 0, sum_dy: 0, points: 100 });
    assert_eq!(aggregate(&totals), (0.0, 0.0));
}

#[test]
fn identical_flat_frames_resolve_ties_to_first_candidate() {
    let f = frame(64, 64, |_, _| 0);
    let (grid, totals) = estimate(&f, &f, 64, 64);
    assert!(grid.iter().all(|&v| v == -4));
    assert_eq!(totals, FlowTotals { sum_dx: -400, sum_dy: -400, points: 100 });
}

#[test]
fn shifted_texture_recovers_displacement() {
    let prev = frame(64, 64, texture);
    let current = frame(64, 64, |x, y| texture(x - 4, y));
    let (grid, totals) = estimate(&current, &prev, 64, 64);
    for c in 0..GRID_CELLS {
        assert_eq!((grid[2 * c], grid[2 * c + 1]), (4, 0));
    }
    assert_eq!(totals, FlowTotals { sum_dx: 400, sum_dy: 0, points: 100 });
    let (ax, ay) = aggregate(&totals);
    assert!((ax - 4.0).abs() <= 1.0 && ay.abs() <= 1.0);
}

#[test]
fn diagonal_shift_is_recovered_on_large_frame() {
    let prev = frame(160, 120, texture);
    let current = frame(160, 120, |x, y| texture(x + 2, y - 3));
    let (grid, totals) = estimate(&current, &prev, 160, 120);
    for c in 0..GRID_CELLS {
        assert_eq!((grid[2 * c], grid[2 * c + 1]), (-2, 3));
    }
    assert_eq!(totals, FlowTotals { sum_dx: -200, sum_dy: 300, points: 100 });
}

#[test]
fn bright_block_moving_on_flat_background() {
    // An 8x8 bright block moves from (20,20) to (24,20) on a black 64x64
    // frame. The cell centred on the block's old corner follows it; every
    // cell away from the block sees a flat patch, where all candidates tie
    // and the first, (-4,-4), is taken.
    let block = |ox: i64, oy: i64| move |x: i64, y: i64| if x >= ox && x < ox + 8 && y >= oy && y < oy + 8 { 255 } else { 0 };
    let prev = frame(64, 64, block(20, 20));
    let current = frame(64, 64, block(24, 20));
    let (grid, totals) = estimate(&current, &prev, 64, 64);
    assert_eq!(totals, FlowTotals { sum_dx: 28, sum_dy: -238, points: 100 });
    assert_eq!((grid[0], grid[1]), (4, 0));
    assert_eq!((grid[198], grid[199]), (-4, -4));
}

#[test]
fn block_match_finds_exact_shift() {
    let prev = frame(40, 40, texture);
    let current = frame(40, 40, |x, y| texture(x - 1, y + 2));
    let (dx, dy, sad) = find_best_block_match(&current, &prev, 20, 20, 40, SEARCH_RANGE);
    assert_eq!((dx, dy, sad), (1, -2, 0));
}

#[test]
fn block_match_with_zero_range_scores_the_center() {
    let prev = frame(16, 16, |_, _| 10);
    let current = frame(16, 16, |_, _| 13);
    let (dx, dy, sad) = find_best_block_match(&current, &prev, 8, 8, 16, 0);
    assert_eq!((dx, dy, sad), (0, 0, 64 * 3));
}

#[test]
fn poor_matches_are_left_out_of_the_aggregate() {
    let prev = frame(64, 64, |_, _| 0);
    let current = frame(64, 64, |_, _| 200);
    let (grid, totals) = estimate(&current, &prev, 64, 64);
    assert!(grid.iter().all(|&v| v == -4));
    assert_eq!(totals, FlowTotals { sum_dx: 0, sum_dy: 0, points: 0 });
    assert_eq!(aggregate(&totals), (0.0, 0.0));
}
