use flood_paint::{Color, ColorQueue, Coordinate, Engine, PaintError, TieBreaker};
use flood_paint::score::evaluate_position;

fn color(r: u8, g: u8, b: u8) -> Color {
    Color { r, g, b }
}

fn coord(x: u32, y: u32) -> Coordinate {
    Coordinate { x, y }
}

/// Brute-force check of the boundary property: membership == uncolored with
/// at least one colored 8-neighbor.
fn check_boundary_exact(engine: &Engine) {
    let w = engine.width() as i64;
    let h = engine.height() as i64;
    for y in 0..h {
        for x in 0..w {
            let c = coord(x as u32, y as u32);
            let uncolored = matches!(engine.cell(c), Ok(None));
            let mut has_colored_neighbor = false;
            for dy in -1..=1i64 {
                for dx in -1..=1i64 {
                    if dx == 0 && dy == 0 {
                        continue;
                    }
                    let nx = x + dx;
                    let ny = y + dy;
                    if nx < 0 || ny < 0 || nx >= w || ny >= h {
                        continue;
                    }
                    if let Ok(Some(_)) = engine.cell(coord(nx as u32, ny as u32)) {
                        has_colored_neighbor = true;
                    }
                }
            }
            assert_eq!(
                engine.boundary_contains(c),
                uncolored && has_colored_neighbor,
                "boundary property broken at ({}, {})",
                x,
                y
            );
        }
    }
}

/// The boundary region always holds exactly the uncolored cells with a
/// colored neighbor, at every point between placements.
#[test]
fn boundary_region_stays_exact() {
    let mut engine = Engine::new(5, 4);
    check_boundary_exact(&engine);
    engine.place_seed(coord(1, 1), color(255, 0, 0)).unwrap();
    check_boundary_exact(&engine);
    engine.place_seed(coord(2, 1), color(0, 255, 0)).unwrap();
    check_boundary_exact(&engine);
    engine.place_seed(coord(4, 3), color(0, 0, 255)).unwrap();
    check_boundary_exact(&engine);

    let mut tb = TieBreaker::Seeded { state: 11 };
    for i in 0..10u32 {
        engine.place_next(color((i * 20) as u8, 128, (i * 9) as u8), &mut tb);
        check_boundary_exact(&engine);
    }
}

/// Cell state is monotonic: a colored cell never changes again.
#[test]
fn colored_cells_never_change() {
    let mut engine = Engine::new(4, 4);
    engine.place_seed(coord(0, 0), color(250, 1, 2)).unwrap();
    let mut tb = TieBreaker::Seeded { state: 3 };
    let mut snapshots: Vec<(Coordinate, Color)> = vec![(coord(0, 0), color(250, 1, 2))];
    for i in 0..15u32 {
        let placed = engine
            .place_next(color((i * 13) as u8, (i * 5) as u8, 200), &mut tb)
            .expect("boundary cannot empty before the canvas fills");
        for (c, expected) in &snapshots {
            assert_eq!(engine.cell(*c), Ok(Some(*expected)));
        }
        snapshots.push((placed, color((i * 13) as u8, (i * 5) as u8, 200)));
    }
}

/// Re-seeding a colored cell is refused; the canvas never recolors.
#[test]
fn reseeding_colored_cell_is_refused() {
    let mut engine = Engine::new(3, 3);
    assert_eq!(engine.place_seed(coord(1, 1), color(9, 9, 9)), Ok(()));
    assert_eq!(
        engine.place_seed(coord(1, 1), color(7, 7, 7)),
        Err(PaintError::AlreadyColored)
    );
    assert_eq!(engine.cell(coord(1, 1)), Ok(Some(color(9, 9, 9))));
}

/// A seed outside the canvas is refused with the out-of-bounds error.
#[test]
fn out_of_bounds_seed_is_refused() {
    let mut engine = Engine::new(3, 3);
    assert_eq!(
        engine.place_seed(coord(3, 0), color(1, 1, 1)),
        Err(PaintError::OutOfBounds)
    );
    assert_eq!(
        engine.place_seed(coord(0, 17), color(1, 1, 1)),
        Err(PaintError::OutOfBounds)
    );
    assert_eq!(engine.pixels_placed(), 0);
}

/// Reading outside the canvas is refused with the out-of-bounds error.
#[test]
fn out_of_bounds_read_is_refused() {
    let engine = Engine::new(2, 2);
    assert_eq!(engine.cell(coord(2, 0)), Err(PaintError::OutOfBounds));
    assert_eq!(engine.cell(coord(1, 1)), Ok(None));
}

/// Every boundary candidate is scored over at least one colored neighbor.
#[test]
fn every_candidate_has_a_scored_neighbor() {
    let mut engine = Engine::new(4, 4);
    engine.place_seed(coord(2, 2), color(40, 40, 40)).unwrap();
    let mut tb = TieBreaker::Seeded { state: 8 };
    engine.place_next(color(50, 50, 50), &mut tb);
    for i in 0..engine.boundary_len() {
        let c = engine.boundary.member_at(i);
        let s = evaluate_position(&engine.canvas, c, color(1, 2, 3));
        assert!(s.count >= 1);
    }
}

/// Seeding adjacent to an earlier seed removes the newly colored cell from
/// the boundary region it had entered.
#[test]
fn adjacent_seed_leaves_boundary() {
    let mut engine = Engine::new(3, 3);
    engine.place_seed(coord(0, 0), color(1, 1, 1)).unwrap();
    assert!(engine.boundary_contains(coord(1, 0)));
    engine.place_seed(coord(1, 0), color(2, 2, 2)).unwrap();
    assert!(!engine.boundary_contains(coord(1, 0)));
    check_boundary_exact(&engine);
}

/// The queue is consumed strictly front to back; exhaustion is terminal.
#[test]
fn queue_consumes_front_to_back() {
    let mut queue = ColorQueue::new(vec![color(1, 0, 0), color(2, 0, 0), color(3, 0, 0)]);
    assert_eq!(queue.remaining_len(), 3);
    assert_eq!(queue.pop_front(), Some(color(1, 0, 0)));
    assert_eq!(queue.pop_front(), Some(color(2, 0, 0)));
    assert_eq!(queue.remaining_len(), 1);
    assert!(!queue.is_exhausted());
    assert_eq!(queue.pop_front(), Some(color(3, 0, 0)));
    assert!(queue.is_exhausted());
    assert_eq!(queue.pop_front(), None);
    assert_eq!(queue.pop_front(), None);
}
