use nbody_raster::{
    generate_3_body, AreaIntersectionRasterizer, Body, BoundaryWalk, CellSweep, FixedSizeCanvas,
    GrayscaleRgbScalar, HorizontalLineCanvas, HorizontalLineImage, IntegerRasterizer, PolarVector,
    WalkPhase,
};

const BLACK: [u8; 4] = [0, 0, 0, 255];
const WHITE: [u8; 4] = [255, 255, 255, 255];

fn canvas(w: u32, h: u32, paint: [u8; 4]) -> HorizontalLineImage<4> {
    HorizontalLineImage::<4>::new(w, h, paint).unwrap()
}

fn painted(img: &HorizontalLineImage<4>, paint: [u8; 4]) -> Vec<(u32, u32)> {
    let mut out = Vec::new();
    for y in 0..img.height() {
        for x in 0..img.width() {
            if img.get_pixel(x, y) == paint.to_vec() {
                out.push((x, y));
            }
        }
    }
    out
}

#[test]
fn new_fills_every_pixel() {
    let img = canvas(3, 2, [1, 2, 3, 4]);
    assert_eq!(img.width(), 3);
    assert_eq!(img.height(), 2);
    assert_eq!(img.into_raw(), [1u8, 2, 3, 4].repeat(6));
}

#[test]
fn new_refuses_an_overflowing_buffer() {
    assert!(HorizontalLineImage::<4>::new(u32::MAX, u32::MAX, BLACK).is_none());
    assert!(HorizontalLineImage::<4>::new(0, u32::MAX, BLACK).is_some());
}

#[test]
fn empty_canvas_has_no_bytes() {
    let img = canvas(0, 0, WHITE);
    assert!(img.into_raw().is_empty());
}

#[test]
fn raw_round_trip_keeps_every_byte() {
    let bytes: Vec<u8> = (0..24u8).collect();
    let img = HorizontalLineImage::<3>::from_raw(4, 2, bytes.clone()).unwrap();
    assert_eq!(img.get_pixel(1, 1), vec![15, 16, 17]);
    let back = img.into_raw();
    assert_eq!(back, bytes);
    let again = HorizontalLineImage::<3>::from_raw(4, 2, back).unwrap();
    assert_eq!((again.width(), again.height()), (4, 2));
    assert_eq!(again.into_raw(), bytes);
}

#[test]
fn from_raw_refuses_a_wrong_length() {
    assert!(HorizontalLineImage::<4>::from_raw(2, 2, vec![0; 15]).is_none());
    assert!(HorizontalLineImage::<4>::from_raw(2, 2, vec![0; 17]).is_none());
    assert!(HorizontalLineImage::<4>::from_raw(2, 2, vec![0; 16]).is_some());
}

#[test]
fn draw_pixel_writes_one_pixel() {
    let mut img = canvas(4, 3, BLACK);
    img.draw_pixel(2, 1, WHITE);
    assert_eq!(painted(&img, WHITE), vec![(2, 1)]);
}

#[test]
fn horizontal_line_is_half_open() {
    let mut img = canvas(6, 3, BLACK);
    img.draw_horizontal_line(1, 4, 2, WHITE);
    assert_eq!(painted(&img, WHITE), vec![(1, 2), (2, 2), (3, 2)]);
    img.draw_horizontal_line(6, 6, 0, [9, 9, 9, 9]);
    assert_eq!(painted(&img, BLACK).len(), 15);
}

#[test]
fn integer_radius_zero_sets_one_pixel() {
    let mut img = canvas(10, 10, BLACK);
    IntegerRasterizer::draw_filled_circle(&mut img, 4, 7, 0, WHITE);
    assert_eq!(painted(&img, WHITE), vec![(4, 7)]);
}

#[test]
fn integer_off_canvas_circle_changes_nothing() {
    let mut img = canvas(10, 10, BLACK);
    IntegerRasterizer::draw_filled_circle(&mut img, -1000, -1000, 5, WHITE);
    assert_eq!(painted(&img, BLACK).len(), 100);
    IntegerRasterizer::draw_filled_circle(&mut img, -10, 5, 3, WHITE);
    assert_eq!(painted(&img, BLACK).len(), 100);
}

#[test]
fn integer_negative_radius_draws_nothing() {
    let mut img = canvas(10, 10, BLACK);
    IntegerRasterizer::draw_filled_circle(&mut img, 5, 5, -2, WHITE);
    assert_eq!(painted(&img, BLACK).len(), 100);
}

#[test]
fn integer_radius_three_scenario() {
    let mut img = canvas(11, 11, BLACK);
    IntegerRasterizer::draw_filled_circle(&mut img, 5, 5, 3, WHITE);
    assert_eq!(img.get_pixel(5, 5), WHITE.to_vec());
    assert_eq!(img.get_pixel(0, 0), BLACK.to_vec());
    assert_eq!(img.get_pixel(10, 10), BLACK.to_vec());
    let rows: [(u32, u32, u32); 7] =
        [(2, 4, 6), (3, 3, 7), (4, 2, 8), (5, 2, 8), (6, 2, 8), (7, 3, 7), (8, 4, 6)];
    let mut expected = Vec::new();
    for y in 0..11u32 {
        for x in 0..11u32 {
            if rows.iter().any(|&(r, lo, hi)| r == y && lo <= x && x <= hi) {
                expected.push((x, y));
            }
        }
    }
    assert_eq!(painted(&img, WHITE), expected);
    for (x, y) in [(5, 5), (4, 5), (6, 5), (5, 4), (5, 6), (2, 5), (8, 5), (5, 2), (5, 8)] {
        assert_eq!(img.get_pixel(x, y), WHITE.to_vec());
    }
}

#[test]
fn integer_circle_is_clipped_at_the_edges() {
    let mut img = canvas(5, 5, BLACK);
    IntegerRasterizer::draw_filled_circle(&mut img, 0, 0, 2, WHITE);
    assert_eq!(
        painted(&img, WHITE),
        vec![(0, 0), (1, 0), (2, 0), (0, 1), (1, 1), (2, 1), (0, 2), (1, 2)]
    );
}

#[test]
fn walk_start_clips_and_refuses() {
    let w = AreaIntersectionRasterizer::start_row(10, 10, 3, 2, 20).unwrap();
    assert_eq!(w, BoundaryWalk { row: 3, left: 2, right: 9, phase: WalkPhase::FromLeft });
    assert!(AreaIntersectionRasterizer::start_row(10, 10, 10, 2, 5).is_none());
    assert!(AreaIntersectionRasterizer::start_row(10, 10, 3, 10, 12).is_none());
    assert!(AreaIntersectionRasterizer::start_row(10, 10, 3, 6, 5).is_none());
}

#[test]
fn walk_blends_ends_and_fills_interior() {
    let mut img = canvas(10, 3, BLACK);
    let grey = [100, 100, 100, 255];
    let mut walk = AreaIntersectionRasterizer::start_row(10, 3, 1, 2, 7).unwrap();
    // cells 2 and 7 are partly covered, 3 ..= 6 fully
    let full = |x: u32| (3..=6).contains(&x);
    let mut asked = Vec::new();
    while let Some(x) = AreaIntersectionRasterizer::next_column(&walk) {
        asked.push(x);
        AreaIntersectionRasterizer::record(&mut walk, &mut img, full(x), grey, WHITE);
    }
    assert_eq!(asked, vec![2, 3, 7, 6]);
    assert_eq!(walk.phase, WalkPhase::Finished);
    assert_eq!(painted(&img, grey), vec![(2, 1), (7, 1)]);
    assert_eq!(painted(&img, WHITE), vec![(3, 1), (4, 1), (5, 1), (6, 1)]);
}

#[test]
fn walk_without_full_cell_blends_through_right_end() {
    let mut img = canvas(10, 3, BLACK);
    let grey = [7, 7, 7, 255];
    let mut walk = AreaIntersectionRasterizer::start_row(10, 3, 0, 4, 6).unwrap();
    while let Some(_) = AreaIntersectionRasterizer::next_column(&walk) {
        AreaIntersectionRasterizer::record(&mut walk, &mut img, false, grey, WHITE);
    }
    assert_eq!(painted(&img, grey), vec![(4, 0), (5, 0), (6, 0)]);
    assert_eq!(painted(&img, WHITE), vec![]);
}

#[test]
fn walk_clipped_at_right_edge_blends_last_column() {
    let mut img = canvas(10, 10, BLACK);
    let grey = [50, 50, 50, 255];
    let mut walk = AreaIntersectionRasterizer::start_row(10, 10, 2, 6, 12).unwrap();
    let mut asked = Vec::new();
    while let Some(x) = AreaIntersectionRasterizer::next_column(&walk) {
        asked.push(x);
        AreaIntersectionRasterizer::record(&mut walk, &mut img, false, grey, WHITE);
    }
    assert_eq!(asked, vec![6, 7, 8, 9]);
    assert_eq!(painted(&img, grey), vec![(6, 2), (7, 2), (8, 2), (9, 2)]);
}

#[test]
fn walk_single_full_cell_fills_it() {
    let mut img = canvas(4, 1, BLACK);
    let mut walk = AreaIntersectionRasterizer::start_row(4, 1, 0, 3, 3).unwrap();
    let mut steps = 0;
    while let Some(_) = AreaIntersectionRasterizer::next_column(&walk) {
        AreaIntersectionRasterizer::record(&mut walk, &mut img, true, [1, 1, 1, 1], WHITE);
        steps += 1;
    }
    assert_eq!(steps, 2);
    assert_eq!(painted(&img, WHITE), vec![(3, 0)]);
}

#[test]
fn grayscale_spreads_level_and_keeps_alpha() {
    assert_eq!(GrayscaleRgbScalar::shade_rgb(42), [42, 42, 42]);
    assert_eq!(GrayscaleRgbScalar::shade_rgba(&[200, 10, 20, 77], 100), [100, 100, 100, 77]);
}

#[test]
fn three_body_system() {
    let bodies = generate_3_body();
    assert_eq!(bodies.len(), 3);
    assert_eq!(bodies[0].mass, 10000);
    assert_eq!(bodies[1].position, PolarVector { quarter_turns: 0, length_e4: 5000 });
    assert_eq!(bodies[1].velocity, PolarVector { quarter_turns: 1, length_e4: 10 });
    assert_eq!(
        bodies[2],
        Body {
            mass: 10,
            position: PolarVector { quarter_turns: 0, length_e4: 5500 },
            velocity: PolarVector { quarter_turns: 1, length_e4: 13 },
        }
    );
}

#[test]
fn sweep_visits_box_row_by_row_clipped() {
    let mut img = canvas(4, 3, BLACK);
    let mut sweep = AreaIntersectionRasterizer::start_box(4, 3, 2, 1, 9, 9).unwrap();
    assert_eq!(sweep, CellSweep { x: 2, y: 1, min_x: 2, max_x: 4, max_y: 3 });
    let mut visited = Vec::new();
    let mut level = 10u8;
    while let Some(cell) = AreaIntersectionRasterizer::next_cell(&sweep) {
        visited.push(cell);
        AreaIntersectionRasterizer::record_cell(&mut sweep, &mut img, [level, level, level, 255]);
        level += 10;
    }
    assert_eq!(visited, vec![(2, 1), (3, 1), (2, 2), (3, 2)]);
    assert_eq!(img.get_pixel(3, 1), vec![20, 20, 20, 255]);
    assert_eq!(img.get_pixel(2, 2), vec![30, 30, 30, 255]);
    assert_eq!(painted(&img, BLACK).len(), 8);
}

#[test]
fn sweep_refuses_boxes_off_canvas_or_empty() {
    assert!(AreaIntersectionRasterizer::start_box(4, 3, 4, 0, 6, 2).is_none());
    assert!(AreaIntersectionRasterizer::start_box(4, 3, 0, 3, 2, 5).is_none());
    assert!(AreaIntersectionRasterizer::start_box(4, 3, 2, 0, 2, 2).is_none());
    assert!(AreaIntersectionRasterizer::start_box(4, 3, 0, 2, 1, 1).is_none());
}

#[test]
fn integer_disc_lies_between_radius_bounds() {
    for r in 0..12i32 {
        let mut img = canvas(31, 31, BLACK);
        IntegerRasterizer::draw_filled_circle(&mut img, 15, 15, r, WHITE);
        for y in 0..31i32 {
            for x in 0..31i32 {
                let d = (x - 15) * (x - 15) + (y - 15) * (y - 15);
                let white = img.get_pixel(x as u32, y as u32) == WHITE.to_vec();
                if d <= r * r {
                    assert!(white, "r={r}: ({x},{y}) inside the circle is not drawn");
                }
                if d > r * r + r {
                    assert!(!white, "r={r}: ({x},{y}) beyond r*r + r is drawn");
                }
            }
        }
    }
}
