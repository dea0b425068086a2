use pixel_glitch::area_glitch::{
    direction_of, percent, pick_between, scale_draw, shuffle_area, shuffle_areas, shuffle_with,
    slide_area, slide_areas, slide_with, Area, AreaDraws, ShuffleDraws, SlideDraws,
    MAX_AREA_PERCENT, MIN_AREA_PERCENT,
};
use pixel_glitch::pixel::Pixel;
use pixel_glitch::raster::Raster;

const TOP: u32 = u32::MAX;
const HALF: u32 = 0x8000_0000;

fn tiles(width: u32, height: u32) -> Raster {
    let mut data = Vec::new();
    for i in 0..(width * height) {
        data.extend_from_slice(&[i as u8, (i >> 8) as u8, 7, 255]);
    }
    Raster::from_raw(width, height, data).unwrap()
}

fn ids(img: &Raster) -> Vec<Vec<u32>> {
    let mut rows = Vec::new();
    for y in 0..img.height() {
        let mut row = Vec::new();
        for x in 0..img.width() {
            let p = img.get_pixel(x, y);
            row.push(p.r as u32 + ((p.g as u32) << 8));
        }
        rows.push(row);
    }
    rows
}

fn step(seed: &mut u64) -> u32 {
    *seed = seed.wrapping_mul(6364136223846793005).wrapping_add(1442695040888963407);
    (*seed >> 32) as u32
}

fn area(x: u32, y: u32, w: u32, h: u32) -> Area {
    Area { x, y, w, h }
}

// The cut-out of a grid of ids, shrunk to the grid as a crop is.
fn cut(grid: &[Vec<u32>], width: u32, height: u32, a: Area) -> Vec<Vec<u32>> {
    let x = a.x.min(width);
    let y = a.y.min(height);
    let w = a.w.min(width - x);
    let h = a.h.min(height - y);
    let mut out = Vec::new();
    for j in 0..h {
        let mut row = Vec::new();
        for i in 0..w {
            row.push(grid[(y + j) as usize][(x + i) as usize]);
        }
        out.push(row);
    }
    out
}

fn lay(grid: &mut [Vec<u32>], width: u32, height: u32, src: &[Vec<u32>], x: u64, y: u64) {
    for (j, row) in src.iter().enumerate() {
        for (i, v) in row.iter().enumerate() {
            let to_x = x + i as u64;
            let to_y = y + j as u64;
            if to_x < width as u64 && to_y < height as u64 {
                grid[to_y as usize][to_x as usize] = *v;
            }
        }
    }
}

// Sliding written out on a grid of ids, step by step.
fn slide_by_hand(img: &Raster, a: Area, dir_x: i32, dir_y: i32, length: u32) -> Vec<Vec<u32>> {
    let (width, height) = img.dimensions();
    let mut grid = ids(img);
    let crop = cut(&grid, width, height, a);
    let ch = crop.len();
    let cw = if ch > 0 { crop[0].len() } else { 0 };
    let top: Vec<Vec<u32>> = if ch > 0 { vec![crop[0].clone()] } else { vec![] };
    let bottom: Vec<Vec<u32>> = if ch > 0 { vec![crop[ch - 1].clone()] } else { vec![] };
    let left: Vec<Vec<u32>> = if cw > 0 { crop.iter().map(|r| vec![r[0]]).collect() } else { vec![] };
    let right: Vec<Vec<u32>> = if cw > 0 { crop.iter().map(|r| vec![r[cw - 1]]).collect() } else { vec![] };
    let (mut x, mut y) = (a.x as i64, a.y as i64);
    for _ in 0..length {
        let (t, b, l, r) = (y, y + a.h as i64, x, x + a.w as i64);
        let (w, h) = (width as i64, height as i64);
        if t >= h || t == 0 || b >= h || b == 0 || l >= w || l == 0 || r >= w || r == 0 {
            break;
        }
        lay(&mut grid, width, height, &top, l as u64, t as u64);
        lay(&mut grid, width, height, &bottom, l as u64, b as u64);
        lay(&mut grid, width, height, &left, l as u64, t as u64);
        lay(&mut grid, width, height, &right, r as u64, t as u64);
        if x + dir_x as i64 >= 0 && x + (dir_x as i64) < w {
            x += dir_x as i64;
        }
        if y + dir_y as i64 >= 0 && y + (dir_y as i64) < h {
            y += dir_y as i64;
        }
    }
    grid
}

#[test]
fn scale_draw_spreads_a_draw_over_a_range() {
    assert_eq!(scale_draw(0, 100), 0);
    assert_eq!(scale_draw(HALF, 100), 50);
    assert_eq!(scale_draw(HALF - 1, 100), 49);
    assert_eq!(scale_draw(TOP, 100), 99);
    assert_eq!(scale_draw(TOP, 1), 0);
    assert_eq!(scale_draw(TOP, TOP), TOP - 1);
    assert_eq!(scale_draw(0x4000_0000, 10), 2);
}

#[test]
fn scale_draw_over_nothing_is_zero() {
    assert_eq!(scale_draw(0, 0), 0);
    assert_eq!(scale_draw(TOP, 0), 0);
}

#[test]
fn pick_between_reaches_both_ends() {
    assert_eq!(pick_between(0, 5, 70), 5);
    assert_eq!(pick_between(TOP, 5, 70), 70);
    assert_eq!(pick_between(HALF, 5, 70), 38);
    assert_eq!(pick_between(HALF, 9, 9), 9);
    assert_eq!(pick_between(TOP, 0, TOP), TOP);
    assert_eq!(pick_between(0, 0, TOP), 0);
}

#[test]
fn percent_rounds_down() {
    assert_eq!(percent(200, 5), 10);
    assert_eq!(percent(7, 50), 3);
    assert_eq!(percent(19, 5), 0);
    assert_eq!(percent(20, 5), 1);
    assert_eq!(percent(TOP, 100), TOP);
    assert_eq!(percent(0, 70), 0);
    assert_eq!(percent(10, 250), 25);
}

#[test]
fn direction_of_is_back_for_the_lower_half() {
    assert_eq!(direction_of(0), -1);
    assert_eq!(direction_of(HALF - 1), -1);
    assert_eq!(direction_of(HALF), 1);
    assert_eq!(direction_of(TOP), 1);
}

#[test]
fn area_bounds_are_five_and_seventy_percent() {
    assert_eq!(MIN_AREA_PERCENT, 5);
    assert_eq!(MAX_AREA_PERCENT, 70);
}

#[test]
fn from_draws_places_and_sizes_the_area() {
    let draws = AreaDraws { x: HALF, y: 0, w: 0, h: TOP };
    assert_eq!(Area::from_draws((100, 50), 5, 70, draws), area(50, 0, 5, 35));
    let mid = AreaDraws { x: 0x4000_0000, y: 0x4000_0000, w: HALF, h: HALF };
    assert_eq!(Area::from_draws((200, 100), 5, 70, mid), area(50, 25, 75, 38));
}

#[test]
fn from_draws_narrows_an_area_that_sticks_out_right() {
    let draws = AreaDraws { x: TOP, y: 0, w: TOP, h: 0 };
    assert_eq!(Area::from_draws((100, 50), 5, 70, draws), area(99, 0, 1, 2));
}

#[test]
fn from_draws_moves_up_an_area_that_sticks_out_below() {
    let draws = AreaDraws { x: 0, y: TOP, w: 0, h: TOP };
    assert_eq!(Area::from_draws((100, 50), 5, 70, draws), area(0, 15, 5, 35));
}

#[test]
fn from_draws_on_a_small_image_may_have_no_extent() {
    let draws = AreaDraws { x: TOP, y: TOP, w: 0, h: 0 };
    assert_eq!(Area::from_draws((10, 10), 5, 70, draws), area(9, 9, 0, 0));
}

#[test]
fn from_draws_on_an_empty_image_is_empty() {
    let draws = AreaDraws { x: TOP, y: HALF, w: TOP, h: HALF };
    assert_eq!(Area::from_draws((0, 0), 5, 70, draws), area(0, 0, 0, 0));
    assert_eq!(Area::from_draws((0, 10), 5, 70, draws), area(0, 5, 0, 4));
}

#[test]
fn from_draws_cannot_move_an_area_above_the_top() {
    let draws = AreaDraws { x: 0, y: HALF, w: 0, h: TOP };
    let a = Area::from_draws((10, 10), 0, 200, draws);
    assert_eq!(a, area(0, 0, 0, 20));
    assert!(a.y + a.h > 10);
}

#[test]
fn from_draws_lies_within_the_image() {
    let mut seed = 99u64;
    for round in 0..10_000u32 {
        let width = step(&mut seed) % (1 + round % 2000);
        let height = step(&mut seed) % (1 + round % 3000);
        let min = step(&mut seed) % 101;
        let max = min + step(&mut seed) % (101 - min);
        let draws =
            AreaDraws { x: step(&mut seed), y: step(&mut seed), w: step(&mut seed), h: step(&mut seed) };
        let a = Area::from_draws((width, height), min, max, draws);
        assert!(a.x as u64 + a.w as u64 <= width as u64);
        assert!(a.y as u64 + a.h as u64 <= height as u64);
        assert!(width == 0 || a.x < width);
        assert!(height == 0 || a.y < height);
        assert!(a.w as u64 <= width as u64 * max as u64 / 100);
        assert!(a.h as u64 >= height as u64 * min as u64 / 100);
        assert!(a.h as u64 <= height as u64 * max as u64 / 100);
    }
}

#[test]
fn new_random_lies_within_the_image() {
    let mut seed = 5u64;
    for round in 0..10_000u32 {
        let width = step(&mut seed) % (1 + round);
        let height = step(&mut seed) % (1 + 3 * round);
        let a = Area::new_random((width, height), MIN_AREA_PERCENT, MAX_AREA_PERCENT);
        assert!(a.x as u64 + a.w as u64 <= width as u64);
        assert!(a.y as u64 + a.h as u64 <= height as u64);
        assert!(width == 0 || a.x < width);
        assert!(height == 0 || a.y < height);
        assert!(a.w as u64 <= width as u64 * 70 / 100);
        assert!(a.h as u64 >= height as u64 * 5 / 100);
        assert!(a.h as u64 <= height as u64 * 70 / 100);
    }
}

#[test]
fn new_random_on_a_huge_image_lies_within_it() {
    for _ in 0..1000 {
        let a = Area::new_random((TOP, TOP), 0, 100);
        assert!(a.x as u64 + a.w as u64 <= TOP as u64);
        assert!(a.y as u64 + a.h as u64 <= TOP as u64);
    }
}

#[test]
fn shuffle_area_pastes_the_content_elsewhere() {
    //  0  1  2  3
    //  4  5  6  7
    //  8  9 10 11
    // 12 13 14 15
    let mut img = tiles(4, 4);
    shuffle_area(&mut img, area(0, 0, 2, 2), 2, 2);
    assert_eq!(img.dimensions(), (4, 4));
    assert_eq!(
        ids(&img),
        vec![vec![0, 1, 2, 3], vec![4, 5, 6, 7], vec![8, 9, 0, 1], vec![12, 13, 4, 5]]
    );
    assert_eq!(img.get_pixel(3, 3), Pixel { r: 5, g: 0, b: 7, a: 255 });
}

#[test]
fn shuffle_area_drops_what_lands_outside() {
    let mut img = tiles(4, 4);
    shuffle_area(&mut img, area(0, 0, 3, 3), 3, 2);
    assert_eq!(
        ids(&img),
        vec![vec![0, 1, 2, 3], vec![4, 5, 6, 7], vec![8, 9, 10, 0], vec![12, 13, 14, 4]]
    );
}

#[test]
fn shuffle_area_reads_the_content_before_it_writes() {
    let mut img = tiles(4, 4);
    shuffle_area(&mut img, area(0, 0, 3, 3), 1, 1);
    assert_eq!(
        ids(&img),
        vec![vec![0, 1, 2, 3], vec![4, 0, 1, 2], vec![8, 4, 5, 6], vec![12, 8, 9, 10]]
    );
}

#[test]
fn shuffle_area_without_extent_changes_nothing() {
    let mut img = tiles(4, 4);
    let before = img.to_vec();
    shuffle_area(&mut img, area(1, 1, 0, 3), 0, 0);
    shuffle_area(&mut img, area(1, 1, 3, 0), 0, 0);
    shuffle_area(&mut img, area(9, 9, 2, 2), 0, 0);
    assert_eq!(img.to_vec(), before);
}

#[test]
fn shuffle_area_onto_itself_changes_nothing() {
    let mut img = tiles(5, 4);
    let before = img.to_vec();
    shuffle_area(&mut img, area(1, 1, 3, 2), 1, 1);
    assert_eq!(img.to_vec(), before);
}

#[test]
fn shuffle_area_agrees_with_cut_and_lay() {
    let mut seed = 3u64;
    for _ in 0..300 {
        let width = 1 + step(&mut seed) % 12;
        let height = 1 + step(&mut seed) % 12;
        let a = area(
            step(&mut seed) % (width + 2),
            step(&mut seed) % (height + 2),
            step(&mut seed) % (width + 2),
            step(&mut seed) % (height + 2),
        );
        let (x, y) = (step(&mut seed) % (width + 2), step(&mut seed) % (height + 2));
        let mut img = tiles(width, height);
        let mut want = ids(&img);
        let content = cut(&want, width, height, a);
        lay(&mut want, width, height, &content, x as u64, y as u64);
        shuffle_area(&mut img, a, x, y);
        assert_eq!(ids(&img), want);
    }
}

#[test]
fn shuffle_areas_no_times_changes_nothing() {
    let mut img = tiles(16, 9);
    let before = img.to_vec();
    shuffle_areas(&mut img, 0);
    assert_eq!(img.dimensions(), (16, 9));
    assert_eq!(img.to_vec(), before);
}

#[test]
fn shuffle_areas_moves_pixels_and_makes_none() {
    let mut img = tiles(40, 30);
    let before = img.to_vec();
    shuffle_areas(&mut img, 25);
    assert_eq!(img.dimensions(), (40, 30));
    assert_eq!(img.to_vec().len(), before.len());
    for row in ids(&img) {
        for id in row {
            assert!(id < 40 * 30);
        }
    }
}

#[test]
fn shuffle_areas_on_an_empty_image_does_nothing() {
    let mut img = tiles(0, 0);
    shuffle_areas(&mut img, 10);
    assert_eq!(img.dimensions(), (0, 0));
    assert_eq!(img.to_vec(), Vec::<u8>::new());
}

#[test]
fn slide_area_paints_the_edges_one_step_on() {
    //  0  1  2  3  4  5
    //  6  7  8  9 10 11
    // 12 13 14 15 16 17
    // 18 19 20 21 22 23
    // 24 25 26 27 28 29
    // 30 31 32 33 34 35
    let mut img = tiles(6, 6);
    slide_area(&mut img, area(2, 2, 2, 2), 1, 1, 1);
    assert_eq!(
        ids(&img),
        vec![
            vec![0, 1, 2, 3, 4, 5],
            vec![6, 7, 8, 9, 10, 11],
            vec![12, 13, 14, 15, 15, 17],
            vec![18, 19, 20, 21, 21, 23],
            vec![24, 25, 20, 21, 28, 29],
            vec![30, 31, 32, 33, 34, 35],
        ]
    );
}

#[test]
fn slide_area_leaves_a_trail_and_stops_at_the_border() {
    let mut img = tiles(6, 6);
    slide_area(&mut img, area(2, 2, 2, 2), 1, 1, 2);
    let two = ids(&img);
    assert_eq!(
        two,
        vec![
            vec![0, 1, 2, 3, 4, 5],
            vec![6, 7, 8, 9, 10, 11],
            vec![12, 13, 14, 15, 15, 17],
            vec![18, 19, 20, 14, 15, 15],
            vec![24, 25, 20, 20, 28, 21],
            vec![30, 31, 32, 20, 21, 35],
        ]
    );
    let mut more = tiles(6, 6);
    slide_area(&mut more, area(2, 2, 2, 2), 1, 1, 50);
    assert_eq!(ids(&more), two);
}

#[test]
fn slide_area_backwards_stops_at_the_top_left() {
    let mut once = tiles(6, 6);
    slide_area(&mut once, area(1, 1, 2, 2), -1, -1, 1);
    let mut many = tiles(6, 6);
    slide_area(&mut many, area(1, 1, 2, 2), -1, -1, 9);
    assert_eq!(ids(&many), ids(&once));
    assert_eq!(
        ids(&once),
        vec![
            vec![0, 1, 2, 3, 4, 5],
            vec![6, 7, 8, 8, 10, 11],
            vec![12, 13, 14, 14, 16, 17],
            vec![18, 13, 14, 21, 22, 23],
            vec![24, 25, 26, 27, 28, 29],
            vec![30, 31, 32, 33, 34, 35],
        ]
    );
}

#[test]
fn slide_area_at_the_border_writes_nothing() {
    let before = tiles(8, 8).to_vec();
    let touching = [
        area(0, 2, 3, 3),
        area(2, 0, 3, 3),
        area(5, 2, 3, 3),
        area(2, 5, 3, 3),
        area(0, 0, 8, 8),
        area(4, 4, 4, 1),
        area(4, 4, 1, 4),
        area(9, 2, 1, 1),
        area(2, 9, 1, 1),
    ];
    for a in touching {
        for (dx, dy) in [(1, 1), (1, -1), (-1, 1), (-1, -1)] {
            let mut img = tiles(8, 8);
            slide_area(&mut img, a, dx, dy, 5);
            assert_eq!(img.to_vec(), before);
        }
    }
}

#[test]
fn slide_area_no_steps_writes_nothing() {
    let mut img = tiles(8, 8);
    let before = img.to_vec();
    slide_area(&mut img, area(2, 2, 3, 3), 1, -1, 0);
    assert_eq!(img.to_vec(), before);
}

#[test]
fn slide_area_without_extent_writes_nothing() {
    let before = tiles(8, 8).to_vec();
    for a in [area(3, 3, 0, 2), area(3, 3, 2, 0), area(3, 3, 0, 0)] {
        let mut img = tiles(8, 8);
        slide_area(&mut img, a, 1, 1, 3);
        assert_eq!(img.to_vec(), before);
    }
}

#[test]
fn slide_area_agrees_with_sliding_by_hand() {
    let mut seed = 11u64;
    for _ in 0..400 {
        let width = 1 + step(&mut seed) % 14;
        let height = 1 + step(&mut seed) % 14;
        let a = area(
            step(&mut seed) % (width + 1),
            step(&mut seed) % (height + 1),
            step(&mut seed) % (width + 1),
            step(&mut seed) % (height + 1),
        );
        let dir_x = direction_of(step(&mut seed));
        let dir_y = direction_of(step(&mut seed));
        let length = step(&mut seed) % 6;
        let mut img = tiles(width, height);
        let want = slide_by_hand(&img, a, dir_x, dir_y, length);
        slide_area(&mut img, a, dir_x, dir_y, length);
        assert_eq!(img.dimensions(), (width, height));
        assert_eq!(ids(&img), want);
    }
}

#[test]
fn slide_areas_no_times_changes_nothing() {
    let mut img = tiles(16, 9);
    let before = img.to_vec();
    slide_areas(&mut img, 0, 100);
    assert_eq!(img.dimensions(), (16, 9));
    assert_eq!(img.to_vec(), before);
}

#[test]
fn slide_areas_no_distance_changes_nothing() {
    let mut img = tiles(16, 9);
    let before = img.to_vec();
    slide_areas(&mut img, 20, 0);
    assert_eq!(img.to_vec(), before);
    slide_areas(&mut img, 20, 1);
    assert_eq!(img.to_vec(), before);
}

#[test]
fn slide_areas_moves_pixels_and_makes_none() {
    let mut img = tiles(40, 30);
    slide_areas(&mut img, 25, 12);
    assert_eq!(img.dimensions(), (40, 30));
    assert_eq!(img.to_vec().len(), 40 * 30 * 4);
    for row in ids(&img) {
        for id in row {
            assert!(id < 40 * 30);
        }
    }
}

#[test]
fn shuffle_with_no_draws_changes_nothing() {
    let mut img = tiles(16, 9);
    let before = img.to_vec();
    shuffle_with(&mut img, &vec![]);
    assert_eq!(img.to_vec(), before);
}

#[test]
fn shuffle_with_runs_the_rounds_in_order() {
    // On 20 by 20 pixels the smallest area is one pixel.
    let corner = AreaDraws { x: 0, y: 0, w: 0, h: 0 };
    let middle = AreaDraws { x: HALF, y: HALF, w: 0, h: 0 };
    let mut img = tiles(20, 20);
    let draws = vec![
        ShuffleDraws { area: corner, x: HALF, y: HALF },
        ShuffleDraws { area: middle, x: TOP, y: TOP },
    ];
    shuffle_with(&mut img, &draws);
    let mut want = ids(&tiles(20, 20));
    want[10][10] = 0;
    want[19][19] = 0;
    assert_eq!(ids(&img), want);

    let mut other = tiles(20, 20);
    shuffle_with(&mut other, &vec![draws[1], draws[0]]);
    let mut swapped = ids(&tiles(20, 20));
    swapped[19][19] = 210;
    swapped[10][10] = 0;
    assert_eq!(ids(&other), swapped);
}

#[test]
fn shuffle_with_is_one_round_after_another() {
    let mut seed = 21u64;
    for _ in 0..50 {
        let width = 1 + step(&mut seed) % 60;
        let height = 1 + step(&mut seed) % 60;
        let mut draws = Vec::new();
        for _ in 0..(step(&mut seed) % 6) {
            let area =
                AreaDraws { x: step(&mut seed), y: step(&mut seed), w: step(&mut seed), h: step(&mut seed) };
            draws.push(ShuffleDraws { area, x: step(&mut seed), y: step(&mut seed) });
        }
        let mut img = tiles(width, height);
        shuffle_with(&mut img, &draws);

        let mut want = ids(&tiles(width, height));
        for d in &draws {
            let a = Area::from_draws((width, height), 5, 70, d.area);
            let content = cut(&want, width, height, a);
            let x = d.x as u64 * width as u64 >> 32;
            let y = d.y as u64 * height as u64 >> 32;
            lay(&mut want, width, height, &content, x, y);
        }
        assert_eq!(ids(&img), want);
    }
}

#[test]
fn slide_with_no_draws_changes_nothing() {
    let mut img = tiles(16, 9);
    let before = img.to_vec();
    slide_with(&mut img, &vec![], 10);
    assert_eq!(img.to_vec(), before);
}

#[test]
fn slide_with_slides_the_drawn_area() {
    // On 20 by 20 pixels: a one-pixel area at (10, 10), sliding down and to
    // the right for two of at most four steps.
    let middle = AreaDraws { x: HALF, y: HALF, w: 0, h: 0 };
    let draws = vec![SlideDraws { dir_x: HALF, dir_y: TOP, length: HALF, area: middle }];
    let mut img = tiles(20, 20);
    slide_with(&mut img, &draws, 4);
    let mut want = ids(&tiles(20, 20));
    let id = want[10][10];
    for (x, y) in [(10, 11), (11, 10), (11, 11), (11, 12), (12, 11)] {
        want[y][x] = id;
    }
    assert_eq!(ids(&img), want);

    let mut by_hand = tiles(20, 20);
    slide_area(&mut by_hand, area(10, 10, 1, 1), 1, 1, 2);
    assert_eq!(ids(&by_hand), want);
}

#[test]
fn slide_with_is_one_round_after_another() {
    let mut seed = 23u64;
    for _ in 0..50 {
        let width = 1 + step(&mut seed) % 60;
        let height = 1 + step(&mut seed) % 60;
        let max_slide = step(&mut seed) % 9;
        let mut draws = Vec::new();
        for _ in 0..(step(&mut seed) % 6) {
            let area =
                AreaDraws { x: step(&mut seed), y: step(&mut seed), w: step(&mut seed), h: step(&mut seed) };
            draws.push(SlideDraws {
                dir_x: step(&mut seed),
                dir_y: step(&mut seed),
                length: step(&mut seed),
                area,
            });
        }
        let mut img = tiles(width, height);
        slide_with(&mut img, &draws, max_slide);

        let mut want = tiles(width, height);
        for d in &draws {
            let a = Area::from_draws((width, height), 5, 70, d.area);
            let dir_x = if d.dir_x >= HALF { 1 } else { -1 };
            let dir_y = if d.dir_y >= HALF { 1 } else { -1 };
            let length = (d.length as u64 * max_slide as u64 >> 32) as u32;
            let grid = slide_by_hand(&want, a, dir_x, dir_y, length);
            for (y, row) in grid.iter().enumerate() {
                for (x, id) in row.iter().enumerate() {
                    let p = Pixel { r: *id as u8, g: (*id >> 8) as u8, b: 7, a: 255 };
                    want.put_pixel(x as u32, y as u32, p);
                }
            }
        }
        assert_eq!(img.to_vec(), want.to_vec());
    }
}
