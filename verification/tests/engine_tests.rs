use flood_paint::{Color, ColorQueue, Coordinate, Engine, TieBreaker};

fn color(r: u8, g: u8, b: u8) -> Color {
    Color { r, g, b }
}

fn coord(x: u32, y: u32) -> Coordinate {
    Coordinate { x, y }
}

fn colored_count(engine: &Engine) -> usize {
    let mut n = 0;
    for y in 0..engine.height() {
        for x in 0..engine.width() {
            if let Ok(Some(_)) = engine.cell(coord(x, y)) {
                n += 1;
            }
        }
    }
    n
}

/// 3x3 canvas, one seed at the center, a queue of 8 colors, fixed tie-break
/// source: every cell ends colored and the boundary region ends empty.
#[test]
fn scenario_center_seed_fills_canvas() {
    let mut engine = Engine::new(3, 3);
    engine.place_seed(coord(1, 1), color(255, 0, 0)).unwrap();
    assert_eq!(engine.boundary_len(), 8);

    let queue_colors = vec![
        color(10, 0, 0),
        color(20, 10, 0),
        color(30, 20, 10),
        color(40, 30, 20),
        color(50, 40, 30),
        color(60, 50, 40),
        color(70, 60, 50),
        color(80, 70, 60),
    ];
    let mut queue = ColorQueue::new(queue_colors);
    let mut tb = TieBreaker::Seeded { state: 42 };
    let n = engine.run(&mut queue, &mut tb);

    assert_eq!(n, 8);
    assert_eq!(engine.pixels_placed(), 9);
    assert_eq!(colored_count(&engine), 9);
    assert_eq!(engine.boundary_len(), 0);
    assert!(queue.is_exhausted());
}

/// 4x4 canvas, one seed at the corner, a queue of only 3 colors: exactly 4
/// cells end colored and the boundary region is still populated.
#[test]
fn scenario_short_queue_leaves_frontier() {
    let mut engine = Engine::new(4, 4);
    engine.place_seed(coord(0, 0), color(200, 100, 50)).unwrap();

    let mut queue = ColorQueue::new(vec![
        color(190, 90, 40),
        color(180, 80, 30),
        color(170, 70, 20),
    ]);
    let mut tb = TieBreaker::Seeded { state: 7 };
    let n = engine.run(&mut queue, &mut tb);

    assert_eq!(n, 3);
    assert_eq!(engine.pixels_placed(), 4);
    assert_eq!(colored_count(&engine), 4);
    assert!(engine.boundary_len() > 0);
    assert!(queue.is_exhausted());
}

/// A queue at least as long as the remaining cells drives any seeded canvas
/// to full coverage with an empty boundary region.
#[test]
fn long_queue_reaches_full_coverage() {
    let mut engine = Engine::new(4, 4);
    engine.place_seed(coord(2, 1), color(5, 5, 5)).unwrap();

    let mut colors = Vec::new();
    for i in 0..15u32 {
        colors.push(color((i * 16) as u8, (255 - i * 10) as u8, (i * 3) as u8));
    }
    let mut queue = ColorQueue::new(colors);
    let mut tb = TieBreaker::Seeded { state: 99 };
    let n = engine.run(&mut queue, &mut tb);

    assert_eq!(n, 15);
    assert_eq!(colored_count(&engine), 16);
    assert_eq!(engine.boundary_len(), 0);
}

/// Identical queues, identical seeds, identical seeded tie-break sources:
/// two independent runs produce byte-identical canvases.
#[test]
fn deterministic_runs_are_byte_identical() {
    let run_once = || {
        let mut engine = Engine::new(5, 5);
        engine.place_seed(coord(2, 2), color(100, 100, 100)).unwrap();
        // duplicate colors force exact score ties, exercising the tie-break
        let mut colors = Vec::new();
        for _ in 0..12 {
            colors.push(color(100, 100, 100));
            colors.push(color(90, 110, 100));
        }
        let mut queue = ColorQueue::new(colors);
        let mut tb = TieBreaker::Seeded { state: 123456789 };
        engine.run(&mut queue, &mut tb);
        flood_paint::render::render_rgb(&engine.canvas)
    };
    let first = run_once();
    let second = run_once();
    assert_eq!(first, second);
}

/// The parallel scoring pass selects and commits exactly as the sequential
/// one: stepping two engines in lockstep with equal seeded tie-break sources
/// keeps their canvases identical.
#[test]
fn parallel_scoring_matches_sequential() {
    let mut sequential = Engine::new(5, 5);
    let mut parallel = Engine::new(5, 5);
    sequential.place_seed(coord(1, 3), color(10, 200, 30)).unwrap();
    parallel.place_seed(coord(1, 3), color(10, 200, 30)).unwrap();

    let mut tb_seq = TieBreaker::Seeded { state: 2024 };
    let mut tb_par = TieBreaker::Seeded { state: 2024 };
    for i in 0..24u32 {
        let c = color((i * 11) as u8, (i * 7) as u8, (200 - i * 4) as u8);
        let a = sequential.place_next(c, &mut tb_seq);
        let b = parallel.place_next_parallel(c, &mut tb_par);
        assert_eq!(a, b);
    }
    assert_eq!(
        flood_paint::render::render_rgb(&sequential.canvas),
        flood_paint::render::render_rgb(&parallel.canvas)
    );
    assert_eq!(sequential.boundary_len(), parallel.boundary_len());
}

/// The system tie-break source still runs to the same terminal condition;
/// only tie outcomes may differ between runs.
#[test]
fn system_tie_breaker_completes() {
    let mut engine = Engine::new(3, 3);
    engine.place_seed(coord(0, 2), color(1, 2, 3)).unwrap();
    let mut colors = Vec::new();
    for i in 0..8u32 {
        colors.push(color(i as u8, i as u8, i as u8));
    }
    let mut queue = ColorQueue::new(colors);
    let mut tb = TieBreaker::System;
    let n = engine.run(&mut queue, &mut tb);
    assert_eq!(n, 8);
    assert_eq!(colored_count(&engine), 9);
    assert_eq!(engine.boundary_len(), 0);
}

/// On an exact 8-way tie around a single center seed, `Fixed` tie-break
/// sources pin the choice: always keeping the current best selects the
/// first boundary entry; never keeping it selects the last.
#[test]
fn fixed_tie_break_pins_the_choice() {
    // all 8 candidates have exactly one colored neighbor (the center) with
    // the same color, so every score is an exact tie
    let mut keepy = Engine::new(3, 3);
    keepy.place_seed(coord(1, 1), color(50, 50, 50)).unwrap();
    let mut tb = TieBreaker::Fixed { keep_current: true };
    let first = keepy.place_next(color(60, 60, 60), &mut tb);
    // boundary entries were inserted in offset-table order, (0,0) first
    assert_eq!(first, Some(coord(0, 0)));

    let mut droppy = Engine::new(3, 3);
    droppy.place_seed(coord(1, 1), color(50, 50, 50)).unwrap();
    let mut tb = TieBreaker::Fixed { keep_current: false };
    let last = droppy.place_next(color(60, 60, 60), &mut tb);
    assert_eq!(last, Some(coord(2, 2)));
}

/// Two seeded sources with equal seeds draw equal choice sequences.
#[test]
fn seeded_tie_breaker_reproduces() {
    let mut a = TieBreaker::Seeded { state: 5 };
    let mut b = TieBreaker::Seeded { state: 5 };
    for _ in 0..64 {
        assert_eq!(a.flip(), b.flip());
    }
}
