use flood_paint::{Color, Constraints, Coordinate, Engine, Score};
use flood_paint::render::{render_mask, render_rgb};
use flood_paint::score::evaluate_position;
use flood_paint::seeds::{clamp_seed, get_initial_locations};

fn color(r: u8, g: u8, b: u8) -> Color {
    Color { r, g, b }
}

fn coord(x: u32, y: u32) -> Coordinate {
    Coordinate { x, y }
}

/// A candidate with exactly two colored neighbors, (0,0,0) and (10,0,0),
/// scored for target (5,0,0): the exact mean is (25 + 25) / 2 = 25.
#[test]
fn scenario_two_neighbor_score() {
    let mut engine = Engine::new(3, 3);
    engine.place_seed(coord(0, 1), color(0, 0, 0)).unwrap();
    engine.place_seed(coord(2, 1), color(10, 0, 0)).unwrap();

    let s = evaluate_position(&engine.canvas, coord(1, 1), color(5, 0, 0));
    assert_eq!(s.count, 2);
    assert_eq!(s.sum, 50);
    assert_eq!(s.sum / s.count, 25);
}

/// Color distance is the exact sum of squared per-channel differences.
#[test]
fn color_distance_is_exact() {
    assert_eq!(color(5, 0, 0).distance2(&color(0, 0, 0)), 25);
    assert_eq!(color(255, 0, 0).distance2(&color(0, 255, 0)), 2 * 255 * 255);
    assert_eq!(color(255, 255, 255).distance2(&color(0, 0, 0)), 3 * 255 * 255);
    assert_eq!(color(7, 7, 7).distance2(&color(7, 7, 7)), 0);
}

/// Scores compare as exact rationals: 50/2 = 25 is smaller than 26/1 and
/// equal to 25/1.
#[test]
fn score_comparison_is_exact() {
    let half = Score { sum: 50, count: 2 };
    let over = Score { sum: 26, count: 1 };
    let same = Score { sum: 25, count: 1 };
    assert!(half.less_than(&over));
    assert!(!over.less_than(&half));
    assert!(half.equal_to(&same));
    assert!(!half.equal_to(&over));
}

/// An unscoreable candidate (no colored neighbor) reports a zero count, not
/// a zero score by omission.
#[test]
fn zero_neighbor_candidate_reports_zero_count() {
    let engine = Engine::new(3, 3);
    let s = evaluate_position(&engine.canvas, coord(1, 1), color(5, 0, 0));
    assert_eq!(s.count, 0);
    assert_eq!(s.sum, 0);
}

/// The built-in seed pattern: one seed at x = 256 on every 64th row.
#[test]
fn initial_locations_follow_the_pattern() {
    let a = get_initial_locations(&Constraints { x_size: 2048, y_size: 129 });
    assert_eq!(a, vec![coord(256, 63), coord(256, 127)]);

    let b = get_initial_locations(&Constraints { x_size: 512, y_size: 65 });
    assert_eq!(b, vec![coord(256, 63)]);

    let c = get_initial_locations(&Constraints { x_size: 512, y_size: 64 });
    assert!(c.is_empty());

    let d = get_initial_locations(&Constraints { x_size: 512, y_size: 513 });
    assert_eq!(d.len(), 8);
    assert_eq!(d[7], coord(256, 511));
}

/// 1-indexed seed positions shift and clamp onto the canvas.
#[test]
fn seed_positions_clamp_to_canvas() {
    assert_eq!(clamp_seed((0, 0), 4, 4), coord(0, 0));
    assert_eq!(clamp_seed((1, 1), 4, 4), coord(0, 0));
    assert_eq!(clamp_seed((5, 3), 4, 4), coord(3, 2));
    assert_eq!(clamp_seed((100, 100), 4, 4), coord(3, 3));
    assert_eq!(clamp_seed((2, 4), 4, 4), coord(1, 3));
}

/// The RGB render writes each colored cell at full precision and uncolored
/// cells as the all-zero sentinel.
#[test]
fn rgb_render_is_exact() {
    let mut engine = Engine::new(2, 2);
    engine.place_seed(coord(1, 0), color(10, 20, 30)).unwrap();
    engine.place_seed(coord(0, 1), color(40, 50, 60)).unwrap();
    let buf = render_rgb(&engine.canvas);
    assert_eq!(
        buf,
        vec![0, 0, 0, 10, 20, 30, 40, 50, 60, 0, 0, 0]
    );
}

/// The boundary mask marks exactly the boundary region members.
#[test]
fn boundary_mask_is_exact() {
    let mut engine = Engine::new(3, 3);
    engine.place_seed(coord(1, 1), color(5, 5, 5)).unwrap();
    let mask = render_mask(&engine.boundary);
    assert_eq!(mask, vec![255, 255, 255, 255, 0, 255, 255, 255, 255]);

    let empty = Engine::new(2, 3);
    assert_eq!(render_mask(&empty.boundary), vec![0; 6]);
}
