//! Area glitches: rectangles of random place and size are cut out of the
//! image and pasted elsewhere, or their edges are smeared along a diagonal.

use crate::grid::Grid;
use crate::pixel::Pixel;
use crate::raster::Raster;
use vstd::prelude::*;

verus! {

/// Smallest extent of a random area, in hundredths of the image's extent.
pub const MIN_AREA_PERCENT: u32 = 5;

/// Largest extent of a random area, in hundredths of the image's extent.
pub const MAX_AREA_PERCENT: u32 = 70;

/// Calls `rand::random::<u32>()`, which draws a value from the thread's
/// random number generator. Nothing is claimed of the value drawn.
#[verifier::external_body]
fn random_draw() -> (draw: u32) {
    rand::random::<u32>()
}

/// A draw read as the fraction `draw / 2^32` of `n`, rounded down.
pub open spec fn scaled(draw: u32, n: int) -> int {
    draw * n / 0x1_0000_0000
}

/// `pct` hundredths of `n`, rounded down.
pub open spec fn percent_of(n: int, pct: int) -> int {
    n * pct / 100
}

/// A draw spread over the whole numbers from `lo` to `hi`.
pub open spec fn between(draw: u32, lo: int, hi: int) -> int {
    lo + scaled(draw, hi - lo + 1)
}

/// Turns a draw into a coordinate below `n`, or 0 where `n` is 0.
pub fn scale_draw(draw: u32, n: u32) -> (out: u32)
    ensures
        out == scaled(draw, n as int),
        n > 0 ==> out < n,
        n == 0 ==> out == 0,
{
    proof {
        lemma_scaled_bounds(draw, n as int);
        assert(draw * n <= 0xFFFF_FFFF * 0xFFFF_FFFF) by (nonlinear_arith)
            requires
                0 <= draw <= 0xFFFF_FFFF,
                0 <= n <= 0xFFFF_FFFF,
        ;
    }
    (draw as u64 * n as u64 / 0x1_0000_0000u64) as u32
}

/// Turns a draw into a whole number from `lo` to `hi`.
pub fn pick_between(draw: u32, lo: u32, hi: u32) -> (out: u32)
    requires
        lo <= hi,
    ensures
        out == between(draw, lo as int, hi as int),
        lo <= out <= hi,
{
    let span: u64 = hi as u64 - lo as u64 + 1;
    proof {
        lemma_scaled_bounds(draw, span as int);
        assert(draw * span <= 0xFFFF_FFFF * 0x1_0000_0000) by (nonlinear_arith)
            requires
                0 <= draw <= 0xFFFF_FFFF,
                0 <= span <= 0x1_0000_0000,
        ;
    }
    let offset: u64 = draw as u64 * span / 0x1_0000_0000u64;
    (lo as u64 + offset) as u32
}

/// `pct` hundredths of `n`, rounded down.
pub fn percent(n: u32, pct: u32) -> (out: u32)
    requires
        percent_of(n as int, pct as int) <= u32::MAX,
    ensures
        out == percent_of(n as int, pct as int),
        pct <= 100 ==> out <= n,
{
    proof {
        lemma_percent_bounds(n as int, pct as int, pct as int);
        assert(n * pct <= 0xFFFF_FFFF * 0xFFFF_FFFF) by (nonlinear_arith)
            requires
                0 <= n <= 0xFFFF_FFFF,
                0 <= pct <= 0xFFFF_FFFF,
        ;
    }
    (n as u64 * pct as u64 / 100) as u32
}

/// A scaled draw is a whole number below `n`.
pub proof fn lemma_scaled_bounds(draw: u32, n: int)
    requires
        0 <= n,
    ensures
        0 <= scaled(draw, n),
        n > 0 ==> scaled(draw, n) < n,
        n == 0 ==> scaled(draw, n) == 0,
{
    assert(0 <= draw * n && (n > 0 ==> draw * n < 0x1_0000_0000 * n)) by (nonlinear_arith)
        requires
            0 <= n,
            0 <= draw < 0x1_0000_0000,
    ;
}

/// More hundredths of a whole number are not less, and up to a hundred of
/// them are at most that number.
pub proof fn lemma_percent_bounds(n: int, lo: int, hi: int)
    requires
        0 <= n,
        0 <= lo <= hi,
    ensures
        0 <= percent_of(n, lo) <= percent_of(n, hi),
        hi <= 100 ==> percent_of(n, hi) <= n,
{
    assert(0 <= n * lo <= n * hi && (hi <= 100 ==> n * hi <= n * 100)) by (nonlinear_arith)
        requires
            0 <= n,
            0 <= lo <= hi,
    ;
}

/// Rectangular area of an image.
#[derive(Debug, Clone, Copy, PartialEq, Eq, Structural)]
pub struct Area {
    pub x: u32,
    pub y: u32,
    pub w: u32,
    pub h: u32,
}

/// The four draws that place and size a random area.
#[derive(Debug, Clone, Copy, PartialEq, Eq, Structural)]
pub struct AreaDraws {
    pub x: u32,
    pub y: u32,
    pub w: u32,
    pub h: u32,
}

impl Area {
    /// The area that four draws give on an image of `width` by `height`
    /// pixels. Its corner is spread over the image, its extent over the range
    /// from `min_pct` to `max_pct` hundredths of the image's. An area that then
    /// sticks out to the right is made narrower by what sticks out; one that
    /// sticks out below is moved up by what sticks out, though not past the
    /// top of the image.
    pub open spec fn sampled(width: int, height: int, min_pct: int, max_pct: int, draws: AreaDraws) -> Area {
        let x = scaled(draws.x, width);
        let y = scaled(draws.y, height);
        let w = between(draws.w, percent_of(width, min_pct), percent_of(width, max_pct));
        let h = between(draws.h, percent_of(height, min_pct), percent_of(height, max_pct));
        Area {
            x: x as u32,
            y: (if y + h <= height {
                y
            } else if h <= height {
                height - h
            } else {
                0
            }) as u32,
            w: (if x + w <= width {
                w
            } else {
                width - x
            }) as u32,
            h: h as u32,
        }
    }

    /// Whether the area lies within an image of `width` by `height` pixels.
    pub open spec fn fits(self, width: int, height: int) -> bool {
        self.x + self.w <= width && self.y + self.h <= height
    }

    /// The area that four draws give on an image of the given dimensions.
    /// The area lies within the image unless it is higher than the image,
    /// which takes a `max_pct` above a hundred.
    pub fn from_draws(dims: (u32, u32), min_pct: u32, max_pct: u32, draws: AreaDraws) -> (area: Area)
        requires
            min_pct <= max_pct,
            percent_of(dims.0 as int, max_pct as int) <= u32::MAX,
            percent_of(dims.1 as int, max_pct as int) <= u32::MAX,
        ensures
            area == Area::sampled(dims.0 as int, dims.1 as int, min_pct as int, max_pct as int, draws),
            max_pct <= 100 ==> area.fits(dims.0 as int, dims.1 as int),
            area.x + area.w <= dims.0,
            area.h <= dims.1 ==> area.y + area.h <= dims.1,
            dims.0 > 0 ==> area.x < dims.0,
            dims.1 > 0 ==> area.y < dims.1,
            percent_of(dims.1 as int, min_pct as int) <= area.h <= percent_of(dims.1 as int, max_pct as int),
            area.w <= percent_of(dims.0 as int, max_pct as int),
    {
        proof {
            lemma_percent_bounds(dims.0 as int, min_pct as int, max_pct as int);
            lemma_percent_bounds(dims.1 as int, min_pct as int, max_pct as int);
        }
        let mut area = Area {
            x: scale_draw(draws.x, dims.0),
            y: scale_draw(draws.y, dims.1),
            w: pick_between(draws.w, percent(dims.0, min_pct), percent(dims.0, max_pct)),
            h: pick_between(draws.h, percent(dims.1, min_pct), percent(dims.1, max_pct)),
        };

        if area.x as u64 + area.w as u64 > dims.0 as u64 {
            area.w = dims.0 - area.x;
        }
        if area.y as u64 + area.h as u64 > dims.1 as u64 {
            area.y = if area.h <= dims.1 {
                dims.1 - area.h
            } else {
                0
            };
        }
        area
    }

    /// Creates a new random area within certain bounds.
    pub fn new_random(dims: (u32, u32), min_pct: u32, max_pct: u32) -> (area: Area)
        requires
            min_pct <= max_pct,
            percent_of(dims.0 as int, max_pct as int) <= u32::MAX,
            percent_of(dims.1 as int, max_pct as int) <= u32::MAX,
        ensures
            exists|draws: AreaDraws|
                area == #[trigger] Area::sampled(
                    dims.0 as int,
                    dims.1 as int,
                    min_pct as int,
                    max_pct as int,
                    draws,
                ),
            max_pct <= 100 ==> area.fits(dims.0 as int, dims.1 as int),
            area.x + area.w <= dims.0,
            area.h <= dims.1 ==> area.y + area.h <= dims.1,
    {
        let draws = AreaDraws { x: random_draw(), y: random_draw(), w: random_draw(), h: random_draw() };
        Area::from_draws(dims, min_pct, max_pct, draws)
    }
}

/// The grid with the content of `area` cut out and pasted with its top-left
/// corner at `(x, y)`.
pub open spec fn moved(g: Grid<Pixel>, area: Area, x: int, y: int) -> Grid<Pixel> {
    g.paste(g.crop(area.x as int, area.y as int, area.w as int, area.h as int), x, y)
}

/// The six draws of one round of shuffling: those of the area, and those of
/// the place it is pasted at.
#[derive(Debug, Clone, Copy, PartialEq, Eq, Structural)]
pub struct ShuffleDraws {
    pub area: AreaDraws,
    pub x: u32,
    pub y: u32,
}

/// What one round of shuffling makes of a grid, given its draws.
pub open spec fn shuffled(g: Grid<Pixel>, draws: ShuffleDraws) -> Grid<Pixel> {
    moved(
        g,
        Area::sampled(
            g.width as int,
            g.height as int,
            MIN_AREA_PERCENT as int,
            MAX_AREA_PERCENT as int,
            draws.area,
        ),
        scaled(draws.x, g.width as int),
        scaled(draws.y, g.height as int),
    )
}

/// What rounds of shuffling, one after the other, make of a grid.
pub open spec fn shuffled_all(g: Grid<Pixel>, draws: Seq<ShuffleDraws>) -> Grid<Pixel>
    decreases draws.len(),
{
    if draws.len() == 0 {
        g
    } else {
        shuffled(shuffled_all(g, draws.drop_last()), draws.last())
    }
}

/// Cuts the content of `area` out of the image and pastes it with its top-left
/// corner at `(x, y)`. The content is copied out before anything is written;
/// what would land outside the image is dropped.
pub fn shuffle_area(img: &mut Raster, area: Area, x: u32, y: u32)
    requires
        old(img).wf(),
    ensures
        final(img).wf(),
        final(img).width() == old(img).width(),
        final(img).height() == old(img).height(),
        final(img)@ == moved(old(img)@, area, x as int, y as int),
{
    let crop = img.crop_imm(area.x, area.y, area.w, area.h);
    img.paste(&crop, x, y);
}

/// Shuffles the image with the given draws in place of random ones: one round
/// for each set of draws, in their order, each round working on what the round
/// before it left.
pub fn shuffle_with(img: &mut Raster, draws: &Vec<ShuffleDraws>)
    requires
        old(img).wf(),
    ensures
        final(img).wf(),
        final(img).width() == old(img).width(),
        final(img).height() == old(img).height(),
        final(img)@ == shuffled_all(old(img)@, draws@),
{
    let dims = img.dimensions();
    let ghost before = img@;

    let mut i: usize = 0;
    while i < draws.len()
        invariant
            img.wf(),
            dims == (img.width(), img.height()),
            img.width() == before.width,
            img.height() == before.height,
            i <= draws@.len(),
            img@ == shuffled_all(before, draws@.take(i as int)),
        decreases draws@.len() - i,
    {
        let round = draws[i];
        proof {
            lemma_percent_bounds(dims.0 as int, MIN_AREA_PERCENT as int, MAX_AREA_PERCENT as int);
            lemma_percent_bounds(dims.1 as int, MIN_AREA_PERCENT as int, MAX_AREA_PERCENT as int);
            assert(draws@.take(i + 1).drop_last() =~= draws@.take(i as int));
        }
        let area = Area::from_draws(dims, MIN_AREA_PERCENT, MAX_AREA_PERCENT, round.area);
        shuffle_area(img, area, scale_draw(round.x, dims.0), scale_draw(round.y, dims.1));
        i += 1;
    }
    proof {
        assert(draws@.take(draws@.len() as int) =~= draws@);
    }
}

/// This function cuts out and rearranges various rectangles of pixels (of
/// different sizes) within the image.
pub fn shuffle_areas(img: &mut Raster, num_times: u32)
    requires
        old(img).wf(),
    ensures
        final(img).wf(),
        final(img).width() == old(img).width(),
        final(img).height() == old(img).height(),
        exists|draws: Seq<ShuffleDraws>|
            draws.len() == num_times && final(img)@ == #[trigger] shuffled_all(old(img)@, draws),
        num_times == 0 ==> final(img)@ == old(img)@ && final(img).bytes() == old(img).bytes(),
{
    let dims = img.dimensions();
    let ghost before = img@;
    let ghost before_bytes = img.bytes();
    let ghost mut draws: Seq<ShuffleDraws> = Seq::empty();

    let mut i: u32 = 0;
    while i < num_times
        invariant
            img.wf(),
            dims == (img.width(), img.height()),
            img.width() == before.width,
            img.height() == before.height,
            i <= num_times,
            draws.len() == i,
            img@ == shuffled_all(before, draws),
            i == 0 ==> img.bytes() == before_bytes,
        decreases num_times - i,
    {
        proof {
            lemma_percent_bounds(dims.0 as int, MIN_AREA_PERCENT as int, MAX_AREA_PERCENT as int);
            lemma_percent_bounds(dims.1 as int, MIN_AREA_PERCENT as int, MAX_AREA_PERCENT as int);
        }
        let area = Area::new_random(dims, MIN_AREA_PERCENT, MAX_AREA_PERCENT);
        let draw_x = random_draw();
        let draw_y = random_draw();
        proof {
            let from = choose|d: AreaDraws|
                area == #[trigger] Area::sampled(
                    dims.0 as int,
                    dims.1 as int,
                    MIN_AREA_PERCENT as int,
                    MAX_AREA_PERCENT as int,
                    d,
                );
            let round = ShuffleDraws { area: from, x: draw_x, y: draw_y };
            assert(draws.push(round).drop_last() =~= draws);
            draws = draws.push(round);
        }
        shuffle_area(img, area, scale_draw(draw_x, dims.0), scale_draw(draw_y, dims.1));
        i += 1;
    }
}

/// The four edges of a cut-out, each one pixel thick: its first and last row,
/// and its first and last column.
pub struct Edges {
    pub top: Grid<Pixel>,
    pub bottom: Grid<Pixel>,
    pub left: Grid<Pixel>,
    pub right: Grid<Pixel>,
}

/// The position of the last row or column of an extent, or 0 where there is
/// none.
pub open spec fn last_of(extent: int) -> int {
    if extent > 0 {
        extent - 1
    } else {
        0
    }
}

/// The four edges of a cut-out.
pub open spec fn edges_of(cut: Grid<Pixel>) -> Edges {
    Edges {
        top: cut.crop(0, 0, cut.width as int, 1),
        bottom: cut.crop(0, last_of(cut.height as int), cut.width as int, 1),
        left: cut.crop(0, 0, 1, cut.height as int),
        right: cut.crop(last_of(cut.width as int), 0, 1, cut.height as int),
    }
}

/// Whether a rectangle of `w` by `h` with its corner at `(x, y)` has one of
/// its sides on or beyond the border of an image of `width` by `height`.
pub open spec fn at_border(width: int, height: int, x: int, y: int, w: int, h: int) -> bool {
    ||| y >= height
    ||| y == 0
    ||| y + h >= height
    ||| y + h == 0
    ||| x >= width
    ||| x == 0
    ||| x + w >= width
    ||| x + w == 0
}

/// Whether the area has one of its sides on or beyond the border of an image
/// of `width` by `height` pixels.
pub open spec fn touches_border(area: Area, width: int, height: int) -> bool {
    at_border(width, height, area.x as int, area.y as int, area.w as int, area.h as int)
}

/// The grid with the four edges painted where the rectangle of `w` by `h` with
/// its corner at `(x, y)` has its sides: the top and left edge on the
/// rectangle's first row and column, the bottom and right edge on the row and
/// column just past it.
pub open spec fn painted(g: Grid<Pixel>, edges: Edges, x: int, y: int, w: int, h: int) -> Grid<Pixel> {
    g.paste(edges.top, x, y).paste(edges.bottom, x, y + h).paste(edges.left, x, y).paste(
        edges.right,
        x + w,
        y,
    )
}

/// A coordinate moved one step in a direction, unless that would take it off
/// the image.
pub open spec fn advanced(at: int, dir: int, extent: int) -> int {
    if 0 <= at + dir < extent {
        at + dir
    } else {
        at
    }
}

/// What up to `steps` steps of sliding make of a grid. A step paints the
/// edges at the rectangle's place and then moves the rectangle; sliding ends
/// before the step at which the rectangle is found at the border.
pub open spec fn slid(
    g: Grid<Pixel>,
    edges: Edges,
    x: int,
    y: int,
    w: int,
    h: int,
    dir_x: int,
    dir_y: int,
    steps: nat,
) -> Grid<Pixel>
    decreases steps,
{
    if steps == 0 || at_border(g.width as int, g.height as int, x, y, w, h) {
        g
    } else {
        slid(
            painted(g, edges, x, y, w, h),
            edges,
            advanced(x, dir_x, g.width as int),
            advanced(y, dir_y, g.height as int),
            w,
            h,
            dir_x,
            dir_y,
            (steps - 1) as nat,
        )
    }
}

/// What sliding `area` along `(dir_x, dir_y)` for up to `steps` steps makes of
/// a grid: the edges are those of the area's content before the first step.
pub open spec fn slid_area(g: Grid<Pixel>, area: Area, dir_x: int, dir_y: int, steps: nat) -> Grid<Pixel> {
    slid(
        g,
        edges_of(g.crop(area.x as int, area.y as int, area.w as int, area.h as int)),
        area.x as int,
        area.y as int,
        area.w as int,
        area.h as int,
        dir_x,
        dir_y,
        steps,
    )
}

/// Slides `area` along the diagonal `(dir_x, dir_y)` for up to `slide_length`
/// steps. The four edges of the area are copied out first. At each step they
/// are painted where the area's sides now are, and the area moves on by one
/// pixel along each axis on which it stays on the image. Sliding ends as soon
/// as a side of the area is found on or beyond the border of the image; only
/// the edges are ever written.
pub fn slide_area(img: &mut Raster, area: Area, dir_x: i32, dir_y: i32, slide_length: u32)
    requires
        old(img).wf(),
    ensures
        final(img).wf(),
        final(img).width() == old(img).width(),
        final(img).height() == old(img).height(),
        final(img)@ == slid_area(old(img)@, area, dir_x as int, dir_y as int, slide_length as nat),
        touches_border(area, old(img).width() as int, old(img).height() as int) ==> final(img)@ == old(
            img,
        )@ && final(img).bytes() == old(img).bytes(),
{
    let dims = img.dimensions();
    let ghost before = img@;
    let ghost before_bytes = img.bytes();
    let crop = img.crop_imm(area.x, area.y, area.w, area.h);

    let bottom_row: u32 = if crop.height() > 0 { crop.height() - 1 } else { 0 };
    let right_col: u32 = if crop.width() > 0 { crop.width() - 1 } else { 0 };
    let t_crop = crop.crop_imm(0, 0, crop.width(), 1);
    let b_crop = crop.crop_imm(0, bottom_row, crop.width(), 1);
    let l_crop = crop.crop_imm(0, 0, 1, crop.height());
    let r_crop = crop.crop_imm(right_col, 0, 1, crop.height());
    let ghost edges = edges_of(crop@);
    let ghost goal = slid_area(before, area, dir_x as int, dir_y as int, slide_length as nat);

    let mut x: u32 = area.x;
    let mut y: u32 = area.y;
    let mut s: u32 = 0;
    // copy the top, bottom and side pixels to the new start pos
    while s < slide_length
        invariant
            img.wf(),
            t_crop.wf(),
            b_crop.wf(),
            l_crop.wf(),
            r_crop.wf(),
            dims == (img.width(), img.height()),
            img.width() == before.width,
            img.height() == before.height,
            edges == (Edges { top: t_crop@, bottom: b_crop@, left: l_crop@, right: r_crop@ }),
            s <= slide_length,
            slid(
                img@,
                edges,
                x as int,
                y as int,
                area.w as int,
                area.h as int,
                dir_x as int,
                dir_y as int,
                (slide_length - s) as nat,
            ) == goal,
            s == 0 ==> img.bytes() == before_bytes && x == area.x && y == area.y,
            s > 0 ==> !touches_border(area, before.width as int, before.height as int),
        ensures
            img@ == goal,
            touches_border(area, before.width as int, before.height as int) ==> img.bytes() == before_bytes,
        decreases slide_length - s,
    {
        let top: u64 = y as u64;
        let bottom: u64 = y as u64 + area.h as u64;
        let left: u64 = x as u64;
        let right: u64 = x as u64 + area.w as u64;

        if top >= dims.1 as u64 || top == 0 || bottom >= dims.1 as u64 || bottom == 0 || left
            >= dims.0 as u64 || left == 0 || right >= dims.0 as u64 || right == 0 {
            break ;
        }
        img.paste(&t_crop, x, y);
        img.paste(&b_crop, x, bottom as u32);
        img.paste(&l_crop, x, y);
        img.paste(&r_crop, right as u32, y);

        // shift the rectangle
        let new_x: i64 = x as i64 + dir_x as i64;
        if new_x >= 0 && new_x < dims.0 as i64 {
            x = new_x as u32;
        }
        let new_y: i64 = y as i64 + dir_y as i64;
        if new_y >= 0 && new_y < dims.1 as i64 {
            y = new_y as u32;
        }
        s += 1;
    }
}

/// An area that starts at the border is not slid at all.
pub proof fn lemma_slide_halts_at_border(g: Grid<Pixel>, area: Area, dir_x: int, dir_y: int, steps: nat)
    requires
        touches_border(area, g.width as int, g.height as int),
    ensures
        slid_area(g, area, dir_x, dir_y, steps) == g,
{
}

/// The seven draws of one round of sliding: those of the direction along each
/// axis, that of the number of steps, and those of the area.
#[derive(Debug, Clone, Copy, PartialEq, Eq, Structural)]
pub struct SlideDraws {
    pub dir_x: u32,
    pub dir_y: u32,
    pub length: u32,
    pub area: AreaDraws,
}

/// The direction that a draw gives: forwards for the upper half of the draws,
/// backwards for the lower half.
pub open spec fn direction(draw: u32) -> int {
    if draw >= 0x8000_0000 {
        1
    } else {
        -1
    }
}

/// The direction that a draw gives, `1` or `-1`.
pub fn direction_of(draw: u32) -> (dir: i32)
    ensures
        dir == direction(draw),
{
    if draw >= 0x8000_0000 {
        1
    } else {
        -1
    }
}

/// What one round of sliding makes of a grid, given its draws: the number of
/// steps is the draw spread over the whole numbers below `max_slide`.
pub open spec fn slid_round(g: Grid<Pixel>, draws: SlideDraws, max_slide: u32) -> Grid<Pixel> {
    slid_area(
        g,
        Area::sampled(
            g.width as int,
            g.height as int,
            MIN_AREA_PERCENT as int,
            MAX_AREA_PERCENT as int,
            draws.area,
        ),
        direction(draws.dir_x),
        direction(draws.dir_y),
        scaled(draws.length, max_slide as int) as nat,
    )
}

/// What rounds of sliding, one after the other, make of a grid.
pub open spec fn slid_all(g: Grid<Pixel>, draws: Seq<SlideDraws>, max_slide: u32) -> Grid<Pixel>
    decreases draws.len(),
{
    if draws.len() == 0 {
        g
    } else {
        slid_round(slid_all(g, draws.drop_last(), max_slide), draws.last(), max_slide)
    }
}

/// Slides areas of the image with the given draws in place of random ones:
/// one round for each set of draws, in their order, each round working on what
/// the round before it left.
pub fn slide_with(img: &mut Raster, draws: &Vec<SlideDraws>, max_slide: u32)
    requires
        old(img).wf(),
    ensures
        final(img).wf(),
        final(img).width() == old(img).width(),
        final(img).height() == old(img).height(),
        final(img)@ == slid_all(old(img)@, draws@, max_slide),
{
    let dims = img.dimensions();
    let ghost before = img@;

    let mut i: usize = 0;
    while i < draws.len()
        invariant
            img.wf(),
            dims == (img.width(), img.height()),
            img.width() == before.width,
            img.height() == before.height,
            i <= draws@.len(),
            img@ == slid_all(before, draws@.take(i as int), max_slide),
        decreases draws@.len() - i,
    {
        let round = draws[i];
        proof {
            lemma_percent_bounds(dims.0 as int, MIN_AREA_PERCENT as int, MAX_AREA_PERCENT as int);
            lemma_percent_bounds(dims.1 as int, MIN_AREA_PERCENT as int, MAX_AREA_PERCENT as int);
            assert(draws@.take(i + 1).drop_last() =~= draws@.take(i as int));
        }
        let dir_x = direction_of(round.dir_x);
        let dir_y = direction_of(round.dir_y);
        let slide_length = scale_draw(round.length, max_slide);
        let area = Area::from_draws(dims, MIN_AREA_PERCENT, MAX_AREA_PERCENT, round.area);
        slide_area(img, area, dir_x, dir_y, slide_length);
        i += 1;
    }
    proof {
        assert(draws@.take(draws@.len() as int) =~= draws@);
    }
}

/// This function slides rectangles of pixels diagonally in a direction.
pub fn slide_areas(img: &mut Raster, num_times: u32, max_slide: u32)
    requires
        old(img).wf(),
    ensures
        final(img).wf(),
        final(img).width() == old(img).width(),
        final(img).height() == old(img).height(),
        exists|draws: Seq<SlideDraws>|
            draws.len() == num_times && final(img)@ == #[trigger] slid_all(old(img)@, draws, max_slide),
        num_times == 0 ==> final(img)@ == old(img)@ && final(img).bytes() == old(img).bytes(),
{
    let dims = img.dimensions();
    let ghost before = img@;
    let ghost before_bytes = img.bytes();
    let ghost mut draws: Seq<SlideDraws> = Seq::empty();

    let mut i: u32 = 0;
    while i < num_times
        invariant
            img.wf(),
            dims == (img.width(), img.height()),
            img.width() == before.width,
            img.height() == before.height,
            i <= num_times,
            draws.len() == i,
            img@ == slid_all(before, draws, max_slide),
            i == 0 ==> img.bytes() == before_bytes,
        decreases num_times - i,
    {
        let draw_dir_x = random_draw();
        let draw_dir_y = random_draw();
        let draw_length = random_draw();
        let dir_x = direction_of(draw_dir_x);
        let dir_y = direction_of(draw_dir_y);
        let slide_length = scale_draw(draw_length, max_slide);

        proof {
            lemma_percent_bounds(dims.0 as int, MIN_AREA_PERCENT as int, MAX_AREA_PERCENT as int);
            lemma_percent_bounds(dims.1 as int, MIN_AREA_PERCENT as int, MAX_AREA_PERCENT as int);
        }
        let area = Area::new_random(dims, MIN_AREA_PERCENT, MAX_AREA_PERCENT);
        proof {
            let from = choose|d: AreaDraws|
                area == #[trigger] Area::sampled(
                    dims.0 as int,
                    dims.1 as int,
                    MIN_AREA_PERCENT as int,
                    MAX_AREA_PERCENT as int,
                    d,
                );
            let round = SlideDraws { dir_x: draw_dir_x, dir_y: draw_dir_y, length: draw_length, area: from };
            assert(draws.push(round).drop_last() =~= draws);
            draws = draws.push(round);
        }
        slide_area(img, area, dir_x, dir_y, slide_length);
        i += 1;
    }
}

} // verus!
