//! Pixel sorting: the stretches of dark pixels in each row are found by a
//! threshold on brightness, and the pixels of each stretch are put in order of
//! falling brightness.

use crate::grid::{lemma_grid_equal, lemma_rotate270_then_90, Grid};
use crate::pixel::{luma, Pixel};
use crate::raster::{luma_grid, LumaRaster, Raster};
use vstd::prelude::*;

verus! {

/// Horizontal strip of pixels in an image to be sorted: the columns `start` to
/// `end`, both included, of one row.
#[derive(Debug, Clone, Copy, PartialEq, Eq, Structural)]
pub struct PixelSortRange {
    pub row: u32,
    pub start: u32,
    pub end: u32,
}

/// Whether the columns `start..=end` of a row of brightness values are a
/// stretch of values at or below the threshold that cannot be extended to
/// either side.
pub open spec fn is_dark_span(row: Seq<u8>, thresh: u8, start: int, end: int) -> bool {
    &&& 0 <= start <= end < row.len()
    &&& forall|k: int| start <= k <= end ==> #[trigger] row[k] <= thresh
    &&& (start == 0 || row[start - 1] > thresh)
    &&& (end == row.len() - 1 || row[end + 1] > thresh)
}

/// Whether `r` is a strip to sort: a dark stretch of its row that spans more
/// than three pixels.
pub open spec fn is_sort_range(grey: Grid<u8>, thresh: u8, r: PixelSortRange) -> bool {
    &&& r.row < grey.height
    &&& is_dark_span(grey.rows[r.row as int], thresh, r.start as int, r.end as int)
    &&& r.end - r.start > 2
}

/// Whether strip `a` comes before strip `b`: in a row above, or in the same
/// row and wholly to the left.
pub open spec fn range_before(a: PixelSortRange, b: PixelSortRange) -> bool {
    a.row < b.row || (a.row == b.row && a.end < b.start)
}

/// Whether `ranges` lists the strips to sort: each of them once, and nothing
/// else, rows from top to bottom and strips from left to right within a row.
pub open spec fn is_range_list(grey: Grid<u8>, thresh: u8, ranges: Seq<PixelSortRange>) -> bool {
    &&& forall|i: int| 0 <= i < ranges.len() ==> is_sort_range(grey, thresh, #[trigger] ranges[i])
    &&& forall|i: int, j: int|
        0 <= i < j < ranges.len() ==> range_before(#[trigger] ranges[i], #[trigger] ranges[j])
    &&& forall|r: PixelSortRange| #[trigger] is_sort_range(grey, thresh, r) ==> ranges.contains(r)
}

/// Whether every value of row `y` is at or below the threshold.
pub open spec fn row_dark(grey: Grid<u8>, thresh: u8, y: int) -> bool {
    forall|x: int| 0 <= x < grey.width ==> #[trigger] grey.at(x, y) <= thresh
}

/// Whether every value of row `y` is above the threshold.
pub open spec fn row_bright(grey: Grid<u8>, thresh: u8, y: int) -> bool {
    forall|x: int| 0 <= x < grey.width ==> #[trigger] grey.at(x, y) > thresh
}

/// Whether every value of the grid is at or below the threshold.
pub open spec fn all_dark(grey: Grid<u8>, thresh: u8) -> bool {
    forall|x: int, y: int| grey.inside(x, y) ==> #[trigger] grey.at(x, y) <= thresh
}

/// Whether every value of the grid is above the threshold.
pub open spec fn all_bright(grey: Grid<u8>, thresh: u8) -> bool {
    forall|x: int, y: int| grey.inside(x, y) ==> #[trigger] grey.at(x, y) > thresh
}

/// Whether `r` is listed, and is the only strip of its row that is.
pub open spec fn is_only_range_of_row(ranges: Seq<PixelSortRange>, r: PixelSortRange) -> bool {
    exists|i: int|
        0 <= i < ranges.len() && #[trigger] ranges[i] == r && forall|j: int|
            0 <= j < ranges.len() && (#[trigger] ranges[j]).row == r.row ==> j == i
}

/// The strip that is the whole of row `y`.
pub open spec fn whole_row(width: u32, y: int) -> PixelSortRange {
    PixelSortRange { row: y as u32, start: 0, end: (width - 1) as u32 }
}

/// One strip for each row, from its first column to its last.
pub open spec fn whole_rows(width: u32, height: u32) -> Seq<PixelSortRange> {
    Seq::new(height as nat, |y: int| whole_row(width, y))
}

/// Generate a vec of pixel strips to sort based on a greyscale threshold.
///
/// Each row is scanned from left to right. A strip opens at a pixel at or
/// below the threshold whose left neighbour is above it or missing, and closes
/// at the last such pixel before one above the threshold or the end of the
/// row. Strips of three pixels or fewer are left out.
pub fn get_pixel_sort_ranges(grey_img: &LumaRaster, thresh: u8) -> (ranges: Vec<PixelSortRange>)
    requires
        grey_img.wf(),
    ensures
        is_range_list(grey_img@, thresh, ranges@),
        forall|i: int|
            0 <= i < ranges@.len() ==> (#[trigger] ranges@[i]).row < grey_img.height() && ranges@[i].start
                <= ranges@[i].end < grey_img.width() && ranges@[i].end - ranges@[i].start > 2,
        forall|y: int|
            0 <= y < grey_img.height() && grey_img.width() > 3 && #[trigger] row_dark(grey_img@, thresh, y)
                ==> is_only_range_of_row(ranges@, whole_row(grey_img.width(), y)),
        forall|y: int, i: int|
            0 <= i < ranges@.len() && #[trigger] row_bright(grey_img@, thresh, y) ==> (
            #[trigger] ranges@[i]).row != y,
        all_dark(grey_img@, thresh) && grey_img.width() > 3 ==> ranges@ == whole_rows(
            grey_img.width(),
            grey_img.height(),
        ),
        all_bright(grey_img@, thresh) ==> ranges@.len() == 0,
{
    let mut pixel_ranges: Vec<PixelSortRange> = Vec::new();
    let (w, h) = grey_img.dimensions();
    let ghost grey = grey_img@;

    let mut y: u32 = 0;
    while y < h
        invariant
            grey_img.wf(),
            grey == grey_img@,
            w == grey_img.width(),
            h == grey_img.height(),
            y <= h,
            forall|i: int|
                0 <= i < pixel_ranges@.len() ==> is_sort_range(grey, thresh, #[trigger] pixel_ranges@[i])
                    && pixel_ranges@[i].row < y,
            forall|i: int, j: int|
                0 <= i < j < pixel_ranges@.len() ==> range_before(
                    #[trigger] pixel_ranges@[i],
                    #[trigger] pixel_ranges@[j],
                ),
            forall|r: PixelSortRange|
                #[trigger] is_sort_range(grey, thresh, r) && r.row < y ==> pixel_ranges@.contains(r),
        decreases h - y,
    {
        let ghost row = grey.rows[y as int];
        let mut open: bool = false;
        let mut start: u32 = 0;
        let mut x: u32 = 0;
        while x < w
            invariant
                grey_img.wf(),
                grey == grey_img@,
                row == grey.rows[y as int],
                row.len() == w,
                w == grey_img.width(),
                h == grey_img.height(),
                y < h,
                x <= w,
                open ==> start < x && x < w,
                open ==> is_open_span(row, thresh, start as int, x as int),
                !open ==> x == 0 || x == w || row[x - 1] > thresh,
                forall|i: int|
                    0 <= i < pixel_ranges@.len() ==> is_sort_range(
                        grey,
                        thresh,
                        #[trigger] pixel_ranges@[i],
                    ) && (pixel_ranges@[i].row < y || (pixel_ranges@[i].row == y && pixel_ranges@[i].end
                        < scanned(open, start, x))),
                forall|i: int, j: int|
                    0 <= i < j < pixel_ranges@.len() ==> range_before(
                        #[trigger] pixel_ranges@[i],
                        #[trigger] pixel_ranges@[j],
                    ),
                forall|r: PixelSortRange|
                    #[trigger] is_sort_range(grey, thresh, r) && (r.row < y || (r.row == y && r.end
                        < scanned(open, start, x))) ==> pixel_ranges@.contains(r),
            decreases w - x,
        {
            let dark = grey_img.get_pixel(x, y) <= thresh;
            let ghost before = pixel_ranges@;

            // find start of a dark strip
            if dark && !open {
                start = x;
                open = true;
            }
            // find end of a dark strip (or end of row)
            if open && (!dark || x == w - 1) {
                let end: u32 = if dark {
                    x
                } else {
                    x - 1
                };
                let found = PixelSortRange { row: y, start, end };
                proof {
                    lemma_closed_span(row, thresh, start as int, end as int, x as int);
                }
                if end - start > 2 {
                    pixel_ranges.push(found);
                    proof {
                        assert(pixel_ranges@[before.len() as int] == found);
                        assert forall|r: PixelSortRange| before.contains(r) implies pixel_ranges@.contains(
                            r,
                        ) by {
                            let i = choose|i: int| 0 <= i < before.len() && before[i] == r;
                            assert(pixel_ranges@[i] == r);
                        }
                    }
                }
                open = false;
                proof {
                    assert forall|r: PixelSortRange|
                        #[trigger] is_sort_range(grey, thresh, r) && r.row == y && r.end < x
                            + 1 implies pixel_ranges@.contains(r) by {
                        if r.end >= start {
                            lemma_span_unique(row, thresh, start as int, end as int, r.start as int, r.end as int);
                        }
                    }
                }
            }
            x += 1;
        }
        y += 1;
    }

    proof {
        lemma_ranges_within(grey, thresh, pixel_ranges@);
        assert forall|y: int|
            0 <= y < h && w > 3 && #[trigger] row_dark(grey, thresh, y) implies is_only_range_of_row(
            pixel_ranges@,
            whole_row(w, y),
        ) by {
            lemma_dark_row_one_range(grey, thresh, pixel_ranges@, y);
        }
        assert forall|y: int, i: int|
            0 <= i < pixel_ranges@.len() && #[trigger] row_bright(grey, thresh, y) implies (
        #[trigger] pixel_ranges@[i]).row != y by {
            lemma_bright_row_no_range(grey, thresh, pixel_ranges@, y);
        }
        if all_bright(grey, thresh) {
            lemma_all_bright_no_ranges(grey, thresh, pixel_ranges@);
        }
        if all_dark(grey, thresh) && w > 3 {
            lemma_all_dark_whole_rows(grey, thresh, pixel_ranges@);
        }
    }
    pixel_ranges
}

/// The column up to which the strips of the row being scanned are settled: the
/// start of the strip that is open, or else the next column to read.
spec fn scanned(open: bool, start: u32, x: u32) -> int {
    if open {
        start as int
    } else {
        x as int
    }
}

/// Whether the columns `start..x` are dark and cannot be extended to the left.
spec fn is_open_span(row: Seq<u8>, thresh: u8, start: int, x: int) -> bool {
    &&& 0 <= start < x <= row.len()
    &&& forall|k: int| start <= k < x ==> #[trigger] row[k] <= thresh
    &&& (start == 0 || row[start - 1] > thresh)
}

/// An open stretch that meets a bright pixel or the end of the row is a dark
/// span.
proof fn lemma_closed_span(row: Seq<u8>, thresh: u8, start: int, end: int, x: int)
    requires
        0 <= x < row.len(),
        is_open_span(row, thresh, start, end + 1),
        end == x && x == row.len() - 1 || end == x - 1 && row[x] > thresh,
    ensures
        is_dark_span(row, thresh, start, end),
{
}

/// Two dark spans of a row that share a column are the same span.
pub proof fn lemma_span_unique(row: Seq<u8>, thresh: u8, s1: int, e1: int, s2: int, e2: int)
    requires
        is_dark_span(row, thresh, s1, e1),
        is_dark_span(row, thresh, s2, e2),
        s1 <= e2,
        s2 <= e1,
    ensures
        s1 == s2,
        e1 == e2,
{
    if s1 < s2 {
        assert(row[s2 - 1] <= thresh);
    }
    if s2 < s1 {
        assert(row[s1 - 1] <= thresh);
    }
    if e1 < e2 {
        assert(row[e1 + 1] <= thresh);
    }
    if e2 < e1 {
        assert(row[e2 + 1] <= thresh);
    }
}

/// Every listed strip lies within its row, its start not after its end, and
/// spans more than three pixels: no shorter strip is ever listed.
pub proof fn lemma_ranges_within(grey: Grid<u8>, thresh: u8, ranges: Seq<PixelSortRange>)
    requires
        grey.wf(),
        is_range_list(grey, thresh, ranges),
    ensures
        forall|i: int|
            0 <= i < ranges.len() ==> (#[trigger] ranges[i]).row < grey.height && ranges[i].start
                <= ranges[i].end < grey.width && ranges[i].end - ranges[i].start > 2,
{
    assert forall|i: int| 0 <= i < ranges.len() implies (#[trigger] ranges[i]).row < grey.height
        && ranges[i].start <= ranges[i].end < grey.width && ranges[i].end - ranges[i].start > 2 by {
        assert(is_sort_range(grey, thresh, ranges[i]));
    }
}

/// A row whose every value is at or below the threshold, and that is more
/// than three pixels wide, has exactly one strip to sort: the whole row.
pub proof fn lemma_dark_row_one_range(grey: Grid<u8>, thresh: u8, ranges: Seq<PixelSortRange>, y: int)
    requires
        grey.wf(),
        3 < grey.width <= u32::MAX,
        0 <= y < grey.height <= u32::MAX,
        row_dark(grey, thresh, y),
        is_range_list(grey, thresh, ranges),
    ensures
        is_only_range_of_row(ranges, whole_row(grey.width as u32, y)),
{
    let whole = whole_row(grey.width as u32, y);
    assert forall|k: int| 0 <= k < grey.width implies #[trigger] grey.rows[y][k] <= thresh by {
        assert(grey.at(k, y) <= thresh);
    }
    assert(is_sort_range(grey, thresh, whole));
    let i = choose|i: int| 0 <= i < ranges.len() && ranges[i] == whole;
    assert forall|j: int| 0 <= j < ranges.len() && (#[trigger] ranges[j]).row == y implies j == i by {
        assert(is_sort_range(grey, thresh, ranges[j]));
        lemma_span_unique(grey.rows[y], thresh, 0, grey.width - 1, ranges[j].start as int, ranges[j].end as int);
        if j < i {
            assert(range_before(ranges[j], ranges[i]));
        }
        if i < j {
            assert(range_before(ranges[i], ranges[j]));
        }
    }
}

/// A row whose every value is above the threshold has no strip to sort.
pub proof fn lemma_bright_row_no_range(grey: Grid<u8>, thresh: u8, ranges: Seq<PixelSortRange>, y: int)
    requires
        grey.wf(),
        row_bright(grey, thresh, y),
        is_range_list(grey, thresh, ranges),
    ensures
        forall|i: int| 0 <= i < ranges.len() ==> (#[trigger] ranges[i]).row != y,
{
    assert forall|i: int| 0 <= i < ranges.len() implies (#[trigger] ranges[i]).row != y by {
        let r = ranges[i];
        assert(is_sort_range(grey, thresh, r));
        if r.row == y {
            assert(grey.at(r.start as int, y) > thresh);
        }
    }
}

/// Where every value is above the threshold there is no strip to sort.
pub proof fn lemma_all_bright_no_ranges(grey: Grid<u8>, thresh: u8, ranges: Seq<PixelSortRange>)
    requires
        grey.wf(),
        all_bright(grey, thresh),
        is_range_list(grey, thresh, ranges),
    ensures
        ranges.len() == 0,
{
    if ranges.len() > 0 {
        let r = ranges[0];
        assert(is_sort_range(grey, thresh, r));
        assert(grey.at(r.start as int, r.row as int) > thresh);
    }
}

/// Where every value is at or below the threshold and the rows are more than
/// three pixels wide, the strips to sort are the whole rows, one for each row
/// from top to bottom.
pub proof fn lemma_all_dark_whole_rows(grey: Grid<u8>, thresh: u8, ranges: Seq<PixelSortRange>)
    requires
        grey.wf(),
        3 < grey.width <= u32::MAX,
        grey.height <= u32::MAX,
        all_dark(grey, thresh),
        is_range_list(grey, thresh, ranges),
    ensures
        ranges == whole_rows(grey.width as u32, grey.height as u32),
{
    let width = grey.width as u32;
    let height = grey.height as u32;
    let rows = whole_rows(width, height);
    assert forall|i: int| 0 <= i < ranges.len() implies (#[trigger] ranges[i]).start == 0 && ranges[i].end
        == width - 1 by {
        let r = ranges[i];
        if r.start > 0 {
            assert(grey.at(r.start - 1, r.row as int) <= thresh);
        }
        if r.end < width - 1 {
            assert(grey.at(r.end + 1, r.row as int) <= thresh);
        }
    }
    assert forall|a: int, b: int| 0 <= a < b < ranges.len() implies (#[trigger] ranges[a]).row < (
    #[trigger] ranges[b]).row by {
        assert(range_before(ranges[a], ranges[b]));
    }
    assert forall|v: int| 0 <= v < height implies ranges.contains(#[trigger] whole_row(width, v)) by {
        let r = whole_row(width, v);
        assert forall|k: int| 0 <= k <= r.end implies #[trigger] grey.rows[v][k] <= thresh by {
            assert(grey.at(k, v) <= thresh);
        }
        assert(is_sort_range(grey, thresh, r));
    }
    if height > 0 {
        lemma_rows_are_positions(ranges, width, height - 1);
        lemma_rows_rise(ranges, ranges.len() - 1);
        assert(is_sort_range(grey, thresh, ranges[ranges.len() - 1]));
    } else if ranges.len() > 0 {
        assert(is_sort_range(grey, thresh, ranges[0]));
    }
    assert(ranges =~= rows);
}

/// In a list of whole rows that come strictly one below the other, the row of
/// the strip at position `i` is at least `i`.
proof fn lemma_rows_rise(ranges: Seq<PixelSortRange>, i: int)
    requires
        0 <= i < ranges.len(),
        forall|a: int, b: int| 0 <= a < b < ranges.len() ==> (#[trigger] ranges[a]).row < (#[trigger] ranges[b]).row,
    ensures
        ranges[i].row >= i,
    decreases i,
{
    if i > 0 {
        lemma_rows_rise(ranges, i - 1);
        assert(ranges[i - 1].row < ranges[i].row);
    }
}

/// Where a list of strictly rising rows holds every row up to `y`, the strip
/// at each position up to `y` is the strip of that row.
proof fn lemma_rows_are_positions(ranges: Seq<PixelSortRange>, width: u32, y: int)
    requires
        0 <= y <= u32::MAX,
        forall|a: int, b: int| 0 <= a < b < ranges.len() ==> (#[trigger] ranges[a]).row < (#[trigger] ranges[b]).row,
        forall|v: int| 0 <= v <= y ==> ranges.contains(#[trigger] whole_row(width, v)),
    ensures
        y < ranges.len(),
        forall|v: int| 0 <= v <= y ==> #[trigger] ranges[v] == whole_row(width, v),
    decreases y,
{
    if y > 0 {
        lemma_rows_are_positions(ranges, width, y - 1);
    }
    let k = choose|k: int| 0 <= k < ranges.len() && ranges[k] == whole_row(width, y);
    lemma_rows_rise(ranges, k);
    assert(k == y) by {
        if k < y {
            assert(ranges[k] == whole_row(width, k));
        }
    }
}

/// The order of strips by row, then start, then end.
spec fn range_le(a: PixelSortRange, b: PixelSortRange) -> bool {
    a.row < b.row || (a.row == b.row && (a.start < b.start || (a.start == b.start && a.end <= b.end)))
}

/// The list of strips is settled by the image and the threshold: there is
/// only one.
pub proof fn lemma_range_list_unique(
    grey: Grid<u8>,
    thresh: u8,
    first: Seq<PixelSortRange>,
    second: Seq<PixelSortRange>,
)
    requires
        is_range_list(grey, thresh, first),
        is_range_list(grey, thresh, second),
    ensures
        first == second,
{
    broadcast use vstd::seq_lib::group_to_multiset_ensures;

    let leq = |a: PixelSortRange, b: PixelSortRange| range_le(a, b);
    lemma_range_list_rises(grey, thresh, first);
    lemma_range_list_rises(grey, thresh, second);
    first.lemma_multiset_has_no_duplicates();
    second.lemma_multiset_has_no_duplicates();
    assert forall|r: PixelSortRange| first.to_multiset().count(r) == second.to_multiset().count(r) by {
        if first.contains(r) {
            let i = choose|i: int| 0 <= i < first.len() && first[i] == r;
            assert(is_sort_range(grey, thresh, first[i]));
        }
        if second.contains(r) {
            let i = choose|i: int| 0 <= i < second.len() && second[i] == r;
            assert(is_sort_range(grey, thresh, second[i]));
        }
    }
    assert(first.to_multiset() =~= second.to_multiset());
    vstd::seq_lib::lemma_sorted_unique(first, second, leq);
}

/// A list of strips rises in the order of strips and names no strip twice.
proof fn lemma_range_list_rises(grey: Grid<u8>, thresh: u8, ranges: Seq<PixelSortRange>)
    requires
        is_range_list(grey, thresh, ranges),
    ensures
        vstd::relations::sorted_by(ranges, |a: PixelSortRange, b: PixelSortRange| range_le(a, b)),
        ranges.no_duplicates(),
{
    assert forall|i: int, j: int| 0 <= i < j < ranges.len() implies range_le(ranges[i], ranges[j])
        && ranges[i] != ranges[j] by {
        assert(range_before(ranges[i], ranges[j]));
        assert(is_sort_range(grey, thresh, ranges[i]));
        assert(is_sort_range(grey, thresh, ranges[j]));
    }
}

/// Whether `order` lists the positions of `src` by falling brightness, and
/// positions of equal brightness from left to right.
pub open spec fn is_luma_order(src: Seq<Pixel>, order: Seq<int>) -> bool {
    &&& order.len() == src.len()
    &&& forall|i: int| 0 <= i < order.len() ==> 0 <= #[trigger] order[i] < src.len()
    &&& forall|i: int, j: int|
        0 <= i < j < order.len() ==> luma(src[#[trigger] order[i]]) > luma(src[#[trigger] order[j]]) || (
        luma(src[order[i]]) == luma(src[order[j]]) && order[i] < order[j])
}

/// Whether `out` holds the pixels of `src` picked in the given order.
pub open spec fn is_picked(src: Seq<Pixel>, order: Seq<int>, out: Seq<Pixel>) -> bool {
    &&& out.len() == order.len()
    &&& forall|i: int| 0 <= i < out.len() ==> #[trigger] out[i] == src[order[i]]
}

/// Whether `out` is `src` sorted by falling brightness, pixels of equal
/// brightness keeping the order they had.
pub open spec fn is_sorted_from(src: Seq<Pixel>, out: Seq<Pixel>) -> bool {
    exists|order: Seq<int>| #[trigger] is_luma_order(src, order) && is_picked(src, order, out)
}

/// Whether brightness never rises from left to right.
pub open spec fn is_luma_falling(s: Seq<Pixel>) -> bool {
    forall|i: int, j: int| 0 <= i <= j < s.len() ==> luma(#[trigger] s[i]) >= luma(#[trigger] s[j])
}

/// The pixels of a strip, from left to right.
pub open spec fn strip(g: Grid<Pixel>, r: PixelSortRange) -> Seq<Pixel> {
    g.rows[r.row as int].subrange(r.start as int, r.end + 1)
}

/// Whether the cell `(x, y)` lies on the strip.
pub open spec fn covers(r: PixelSortRange, x: int, y: int) -> bool {
    y == r.row && r.start <= x <= r.end
}

/// Whether `after` is `before` with the pixels of the strip `r` sorted and
/// all other pixels as they were.
pub open spec fn is_run_sorted(before: Grid<Pixel>, after: Grid<Pixel>, r: PixelSortRange) -> bool {
    &&& after.wf()
    &&& after.width == before.width
    &&& after.height == before.height
    &&& is_sorted_from(strip(before, r), strip(after, r))
    &&& forall|x: int, y: int|
        before.inside(x, y) && !covers(r, x, y) ==> after.at(x, y) == before.at(x, y)
}

/// Sorts the pixels of one strip of a row by falling brightness. The pixels
/// are first copied out, then ordered, then written back over the same strip;
/// pixels of equal brightness keep their order.
pub fn sort_run(img: &mut Raster, run: PixelSortRange)
    requires
        old(img).wf(),
        run.row < old(img).height(),
        run.start <= run.end < old(img).width(),
    ensures
        final(img).wf(),
        final(img).width() == old(img).width(),
        final(img).height() == old(img).height(),
        is_run_sorted(old(img)@, final(img)@, run),
        is_luma_falling(strip(final(img)@, run)),
{
    let y: u32 = run.row;
    let n: u32 = run.end - run.start + 1;
    let ghost before = img@;
    let mut sorted_pixels: Vec<Pixel> = Vec::new();
    let mut keys: Vec<(u8, u32)> = Vec::new();

    // Copy pixels into sort range
    let mut i: u32 = 0;
    while i < n
        invariant
            img.wf(),
            img@ == before,
            y == run.row,
            y < img.height(),
            run.start <= run.end < img.width(),
            n == run.end - run.start + 1,
            i <= n,
            sorted_pixels@.len() == i,
            keys@.len() == i,
            forall|k: int| 0 <= k < i ==> #[trigger] sorted_pixels@[k] == before.at(run.start + k, y as int),
            forall|k: int| 0 <= k < i ==> #[trigger] keys@[k] == sort_key(sorted_pixels@[k], k),
        decreases n - i,
    {
        let pixel = img.get_pixel(run.start + i, y);
        let l: u8 = pixel.luma();
        sorted_pixels.push(pixel);
        keys.push((255 - l, i));
        i += 1;
    }

    // sort pixels
    let ghost unsorted = keys@;
    sort_keys(&mut keys);
    let ghost order = Seq::new(keys@.len(), |k: int| keys@[k].1 as int);
    let ghost src = sorted_pixels@;
    proof {
        lemma_sorted_keys_order(src, unsorted, keys@);
        assert(src =~= strip(before, run));
    }

    // reinsert sorted pixels
    let mut i: u32 = 0;
    while i < n
        invariant
            img.wf(),
            img.width() == before.width,
            img.height() == before.height,
            before.wf(),
            y == run.row,
            y < img.height(),
            run.start <= run.end < img.width(),
            n == run.end - run.start + 1,
            i <= n,
            src == sorted_pixels@,
            src.len() == n,
            keys@.len() == n,
            order == Seq::new(keys@.len(), |k: int| keys@[k].1 as int),
            is_luma_order(src, order),
            forall|x: int, yy: int|
                before.inside(x, yy) ==> #[trigger] img@.at(x, yy) == if yy == y && run.start <= x
                    < run.start + i {
                    src[order[x - run.start]]
                } else {
                    before.at(x, yy)
                },
        decreases n - i,
    {
        let ghost prev = img@;
        assert(0 <= order[i as int] < src.len());
        let from: u32 = keys[i as usize].1;
        let pixel = sorted_pixels[from as usize];
        img.put_pixel(run.start + i, y, pixel);
        proof {
            let now = img@;
            assert forall|x: int, yy: int| before.inside(x, yy) implies #[trigger] now.at(x, yy) == if yy
                == y && run.start <= x < run.start + i + 1 {
                src[order[x - run.start]]
            } else {
                before.at(x, yy)
            } by {
                if yy == y && x == run.start + i {
                    assert(now.at(x, yy) == pixel);
                } else {
                    assert(now.at(x, yy) == prev.at(x, yy));
                }
            }
        }
        i += 1;
    }
    proof {
        let after = img@;
        let out = strip(after, run);
        assert(is_picked(src, order, out)) by {
            assert forall|k: int| 0 <= k < out.len() implies #[trigger] out[k] == src[order[k]] by {
                assert(out[k] == after.at(run.start + k, y as int));
            }
        }
        lemma_sorted_is_falling(strip(before, run), out);
    }
}

/// The sort key of the pixel at position `at` of a strip: brighter pixels get
/// smaller keys, and among pixels of one brightness the earlier one does.
spec fn sort_key(p: Pixel, at: int) -> (u8, u32) {
    ((255 - luma(p)) as u8, at as u32)
}

/// The order of sort keys: by the first part, and by the second where the
/// first parts agree.
spec fn key_le(a: (u8, u32), b: (u8, u32)) -> bool {
    a.0 < b.0 || (a.0 == b.0 && a.1 <= b.1)
}

/// Calls `sort` of the standard library's slices on a vector of pairs of
/// integers. The contract claims that the vector afterwards holds the same
/// pairs, each as often as before, in rising order, pairs being compared by
/// their first part and then by their second.
#[verifier::external_body]
fn sort_keys(keys: &mut Vec<(u8, u32)>)
    ensures
        final(keys)@.to_multiset() == old(keys)@.to_multiset(),
        forall|i: int, j: int|
            0 <= i <= j < final(keys)@.len() ==> key_le(#[trigger] final(keys)@[i], #[trigger] final(keys)@[j]),
{
    keys.sort();
}

/// The keys of a strip, sorted, give the order in which its pixels are to be
/// written back.
proof fn lemma_sorted_keys_order(pixels: Seq<Pixel>, keys: Seq<(u8, u32)>, sorted: Seq<(u8, u32)>)
    requires
        pixels.len() <= u32::MAX,
        keys.len() == pixels.len(),
        forall|i: int| 0 <= i < keys.len() ==> #[trigger] keys[i] == sort_key(pixels[i], i),
        sorted.to_multiset() == keys.to_multiset(),
        forall|i: int, j: int|
            0 <= i <= j < sorted.len() ==> key_le(#[trigger] sorted[i], #[trigger] sorted[j]),
    ensures
        sorted.len() == keys.len(),
        is_luma_order(pixels, Seq::new(sorted.len(), |i: int| sorted[i].1 as int)),
{
    broadcast use vstd::seq_lib::group_to_multiset_ensures;

    let order = Seq::new(sorted.len(), |i: int| sorted[i].1 as int);
    assert(sorted.len() == keys.len()) by {
        vstd::seq_lib::to_multiset_len(sorted);
        vstd::seq_lib::to_multiset_len(keys);
    }
    assert forall|i: int| 0 <= i < sorted.len() implies 0 <= sorted[i].1 < pixels.len() && sorted[i]
        == sort_key(pixels[sorted[i].1 as int], sorted[i].1 as int) by {
        assert(sorted.to_multiset().count(sorted[i]) > 0);
        let j = choose|j: int| 0 <= j < keys.len() && keys[j] == sorted[i];
        assert(keys[j] == sort_key(pixels[j], j));
    }
    assert(keys.no_duplicates()) by {
        assert forall|i: int, j: int| 0 <= i < keys.len() && 0 <= j < keys.len() && i != j implies keys[i]
            != keys[j] by {
            assert(keys[i].1 == i);
            assert(keys[j].1 == j);
        }
    }
    keys.lemma_multiset_has_no_duplicates();
    sorted.lemma_multiset_has_no_duplicates_conv();
    assert forall|i: int, j: int| 0 <= i < j < order.len() implies luma(pixels[#[trigger] order[i]])
        > luma(pixels[#[trigger] order[j]]) || (luma(pixels[order[i]]) == luma(pixels[order[j]])
        && order[i] < order[j]) by {
        assert(key_le(sorted[i], sorted[j]));
        assert(sorted[i] != sorted[j]);
    }
}

/// A sorted strip never rises in brightness from left to right.
pub proof fn lemma_sorted_is_falling(src: Seq<Pixel>, out: Seq<Pixel>)
    requires
        is_sorted_from(src, out),
    ensures
        is_luma_falling(out),
{
    let order = choose|order: Seq<int>| #[trigger] is_luma_order(src, order) && is_picked(src, order, out);
    assert forall|i: int, j: int| 0 <= i <= j < out.len() implies luma(#[trigger] out[i]) >= luma(
        #[trigger] out[j],
    ) by {
        assert(out[i] == src[order[i]] && out[j] == src[order[j]]);
    }
}

/// Sorting settles the result: a strip has only one sorted form.
pub proof fn lemma_sorted_from_unique(src: Seq<Pixel>, first: Seq<Pixel>, second: Seq<Pixel>)
    requires
        is_sorted_from(src, first),
        is_sorted_from(src, second),
    ensures
        first == second,
{
    let a = choose|order: Seq<int>| #[trigger] is_luma_order(src, order) && is_picked(src, order, first);
    let b = choose|order: Seq<int>| #[trigger] is_luma_order(src, order) && is_picked(src, order, second);
    lemma_order_unique(src, a, b);
    assert(first =~= second);
}

/// The rank by which the positions of a strip are ordered: first by falling
/// brightness, then by rising position. Positions outside the strip come last.
spec fn luma_rank(src: Seq<Pixel>, at: int) -> int {
    if 0 <= at < src.len() {
        255 - luma(src[at])
    } else {
        256
    }
}

/// Whether position `a` comes no later than position `b` in a sorted strip.
spec fn rank_le(src: Seq<Pixel>, a: int, b: int) -> bool {
    luma_rank(src, a) < luma_rank(src, b) || (luma_rank(src, a) == luma_rank(src, b) && a <= b)
}

/// There is only one order of a strip.
proof fn lemma_order_unique(src: Seq<Pixel>, first: Seq<int>, second: Seq<int>)
    requires
        is_luma_order(src, first),
        is_luma_order(src, second),
    ensures
        first == second,
{
    broadcast use vstd::seq_lib::group_to_multiset_ensures;

    let leq = |a: int, b: int| rank_le(src, a, b);
    lemma_order_is_permutation(src, first);
    lemma_order_is_permutation(src, second);
    first.lemma_multiset_has_no_duplicates();
    second.lemma_multiset_has_no_duplicates();
    assert forall|v: int| first.to_multiset().count(v) == second.to_multiset().count(v) by {
        assert(first.contains(v) <==> first.to_set().contains(v));
        assert(second.contains(v) <==> second.to_set().contains(v));
    }
    assert(first.to_multiset() =~= second.to_multiset());
    vstd::seq_lib::lemma_sorted_unique(first, second, leq);
}

/// An order of a strip names every position of the strip exactly once.
proof fn lemma_order_is_permutation(src: Seq<Pixel>, order: Seq<int>)
    requires
        is_luma_order(src, order),
    ensures
        order.no_duplicates(),
        order.to_set() == vstd::set_lib::set_int_range(0, src.len() as int),
{
    let all = vstd::set_lib::set_int_range(0, src.len() as int);
    assert forall|i: int, j: int| 0 <= i < order.len() && 0 <= j < order.len() && i != j implies order[i]
        != order[j] by {
        if i < j {
            assert(order[i] != order[j]);
        } else {
            assert(order[j] != order[i]);
        }
    }
    order.unique_seq_to_set();
    vstd::set_lib::lemma_int_range(0, src.len() as int);
    vstd::seq_lib::seq_to_set_is_finite(order);
    assert(order.to_set().subset_of(all)) by {
        assert forall|v: int| order.to_set().contains(v) implies all.contains(v) by {
            let i = choose|i: int| 0 <= i < order.len() && order[i] == v;
            assert(0 <= order[i] < src.len());
        }
    }
    vstd::set_lib::lemma_subset_equality(order.to_set(), all);
}

/// A strip whose brightness never rises is its own sorted form.
pub proof fn lemma_falling_is_sorted(src: Seq<Pixel>)
    requires
        is_luma_falling(src),
    ensures
        is_sorted_from(src, src),
{
    let order = Seq::new(src.len(), |i: int| i);
    assert(is_luma_order(src, order));
    assert(is_picked(src, order, src));
}

/// Sorting a strip whose brightness never rises changes nothing.
pub proof fn lemma_sorting_sorted_changes_nothing(src: Seq<Pixel>, out: Seq<Pixel>)
    requires
        is_luma_falling(src),
        is_sorted_from(src, out),
    ensures
        out == src,
{
    lemma_falling_is_sorted(src);
    lemma_sorted_from_unique(src, src, out);
}

/// Whether `after` is `before` with every strip to sort, as found by the
/// threshold on the brightness of `before`, sorted by falling brightness, and
/// all other pixels as they were.
pub open spec fn is_horiz_sorted(before: Grid<Pixel>, after: Grid<Pixel>, thresh: u8) -> bool {
    &&& after.wf()
    &&& after.width == before.width
    &&& after.height == before.height
    &&& forall|r: PixelSortRange| #[trigger]
        is_sort_range(luma_grid(before), thresh, r) ==> is_sorted_from(strip(before, r), strip(after, r))
    &&& forall|x: int, y: int|
        before.inside(x, y) && !on_sort_range(before, thresh, x, y) ==> #[trigger] after.at(x, y)
            == before.at(x, y)
}

/// Whether the cell `(x, y)` lies on one of the strips to sort.
pub open spec fn on_sort_range(g: Grid<Pixel>, thresh: u8, x: int, y: int) -> bool {
    exists|r: PixelSortRange| #[trigger] is_sort_range(luma_grid(g), thresh, r) && covers(r, x, y)
}

/// Whether the cell `(x, y)` lies on one of the first `k` strips of the list.
spec fn on_listed(ranges: Seq<PixelSortRange>, k: int, x: int, y: int) -> bool {
    exists|j: int| 0 <= j < k && covers(#[trigger] ranges[j], x, y)
}

/// Sorts the pixels in an image horizontally using a greyscale threshold.
pub fn sort_pixels_horiz(img: &mut Raster, thresh: u8)
    requires
        old(img).wf(),
    ensures
        final(img).wf(),
        final(img).width() == old(img).width(),
        final(img).height() == old(img).height(),
        is_horiz_sorted(old(img)@, final(img)@, thresh),
        forall|r: PixelSortRange| #[trigger]
            is_sort_range(luma_grid(old(img)@), thresh, r) ==> is_luma_falling(strip(final(img)@, r)),
{
    let gray_img = img.to_luma8();

    // Get pixel sort ranges for each row
    let sort_ranges = get_pixel_sort_ranges(&gray_img, thresh);
    let ghost before = img@;
    let ghost grey = luma_grid(before);
    let ghost ranges = sort_ranges@;

    // Iterate sort ranges and sort pixels
    let mut k: usize = 0;
    while k < sort_ranges.len()
        invariant
            img.wf(),
            img.width() == before.width,
            img.height() == before.height,
            before.wf(),
            grey == luma_grid(before),
            ranges == sort_ranges@,
            is_range_list(grey, thresh, ranges),
            k <= ranges.len(),
            forall|j: int|
                0 <= j < k ==> is_sorted_from(strip(before, #[trigger] ranges[j]), strip(img@, ranges[j])),
            forall|x: int, y: int|
                before.inside(x, y) && !on_listed(ranges, k as int, x, y) ==> #[trigger] img@.at(x, y)
                    == before.at(x, y),
        decreases ranges.len() - k,
    {
        let r = sort_ranges[k];
        let ghost prev = img@;
        proof {
            assert(is_sort_range(grey, thresh, ranges[k as int]));
            assert forall|x: int| r.start <= x <= r.end implies !on_listed(ranges, k as int, x, r.row as int) by {
                if on_listed(ranges, k as int, x, r.row as int) {
                    let j = choose|j: int| 0 <= j < k && covers(#[trigger] ranges[j], x, r.row as int);
                    assert(range_before(ranges[j], ranges[k as int]));
                }
            }
            assert(strip(prev, r) =~= strip(before, r)) by {
                assert forall|i: int| 0 <= i < strip(prev, r).len() implies strip(prev, r)[i] == strip(
                    before,
                    r,
                )[i] by {
                    assert(prev.at(r.start + i, r.row as int) == before.at(r.start + i, r.row as int));
                }
            }
        }
        sort_run(img, r);
        proof {
            let now = img@;
            assert forall|j: int| 0 <= j < k implies is_sorted_from(
                strip(before, #[trigger] ranges[j]),
                strip(now, ranges[j]),
            ) by {
                let q = ranges[j];
                assert(range_before(q, r));
                assert(strip(now, q) =~= strip(prev, q)) by {
                    assert forall|i: int| 0 <= i < strip(prev, q).len() implies strip(now, q)[i] == strip(
                        prev,
                        q,
                    )[i] by {
                        assert(!covers(r, q.start + i, q.row as int));
                    }
                }
            }
            assert forall|x: int, y: int|
                before.inside(x, y) && !on_listed(ranges, k + 1, x, y) implies #[trigger] now.at(x, y)
                    == before.at(x, y) by {
                assert(!on_listed(ranges, k as int, x, y)) by {
                    if on_listed(ranges, k as int, x, y) {
                        let j = choose|j: int| 0 <= j < k && covers(#[trigger] ranges[j], x, y);
                        assert(covers(ranges[j], x, y));
                    }
                }
            }
        }
        k += 1;
    }
    proof {
        let after = img@;
        assert forall|r: PixelSortRange| #[trigger] is_sort_range(grey, thresh, r) implies is_sorted_from(
            strip(before, r),
            strip(after, r),
        ) by {
            let j = choose|j: int| 0 <= j < ranges.len() && ranges[j] == r;
            assert(is_sorted_from(strip(before, ranges[j]), strip(after, ranges[j])));
        }
        assert forall|r: PixelSortRange| #[trigger] is_sort_range(grey, thresh, r) implies is_luma_falling(
            strip(after, r),
        ) by {
            lemma_sorted_is_falling(strip(before, r), strip(after, r));
        }
        assert forall|x: int, y: int|
            before.inside(x, y) && !on_sort_range(before, thresh, x, y) implies #[trigger] after.at(x, y)
                == before.at(x, y) by {
            if on_listed(ranges, ranges.len() as int, x, y) {
                let j = choose|j: int| 0 <= j < ranges.len() && covers(#[trigger] ranges[j], x, y);
                assert(is_sort_range(grey, thresh, ranges[j]));
            }
        }
    }
}

/// A horizontal sort settles the result: an image has only one sorted form.
pub proof fn lemma_horiz_sorted_unique(before: Grid<Pixel>, first: Grid<Pixel>, second: Grid<Pixel>, thresh: u8)
    requires
        before.wf(),
        is_horiz_sorted(before, first, thresh),
        is_horiz_sorted(before, second, thresh),
    ensures
        first == second,
{
    assert forall|x: int, y: int| first.inside(x, y) implies first.at(x, y) == second.at(x, y) by {
        if on_sort_range(before, thresh, x, y) {
            let r = choose|r: PixelSortRange| #[trigger]
                is_sort_range(luma_grid(before), thresh, r) && covers(r, x, y);
            lemma_sorted_from_unique(strip(before, r), strip(first, r), strip(second, r));
            assert(first.at(x, y) == strip(first, r)[x - r.start]);
            assert(second.at(x, y) == strip(second, r)[x - r.start]);
        } else {
            assert(first.at(x, y) == before.at(x, y));
            assert(second.at(x, y) == before.at(x, y));
        }
    }
    lemma_grid_equal(first, second);
}

/// Whether `after` is what a quarter turn, a horizontal sort and a
/// three-quarter turn make of `before`.
pub open spec fn is_vert_sorted(before: Grid<Pixel>, after: Grid<Pixel>, thresh: u8) -> bool {
    exists|mid: Grid<Pixel>| #[trigger]
        is_horiz_sorted(before.rotate90(), mid, thresh) && after == mid.rotate270()
}

/// Sorts the pixels of an image vertically using a greyscale threshold: the
/// image is turned a quarter, sorted along its rows, and turned back.
pub fn sort_pixels_vert(img: &mut Raster, thresh: u8)
    requires
        old(img).wf(),
    ensures
        final(img).wf(),
        final(img).width() == old(img).width(),
        final(img).height() == old(img).height(),
        is_vert_sorted(old(img)@, final(img)@, thresh),
        is_horiz_sorted(old(img)@.rotate90(), final(img)@.rotate90(), thresh),
{
    let mut turned = img.rotate90();
    sort_pixels_horiz(&mut turned, thresh);
    *img = turned.rotate270();
    proof {
        lemma_rotate270_then_90(turned@);
    }
}

/// A vertical sort settles the result: an image has only one sorted form.
pub proof fn lemma_vert_sorted_unique(before: Grid<Pixel>, first: Grid<Pixel>, second: Grid<Pixel>, thresh: u8)
    requires
        before.wf(),
        is_vert_sorted(before, first, thresh),
        is_vert_sorted(before, second, thresh),
    ensures
        first == second,
{
    let a = choose|mid: Grid<Pixel>| #[trigger]
        is_horiz_sorted(before.rotate90(), mid, thresh) && first == mid.rotate270();
    let b = choose|mid: Grid<Pixel>| #[trigger]
        is_horiz_sorted(before.rotate90(), mid, thresh) && second == mid.rotate270();
    lemma_horiz_sorted_unique(before.rotate90(), a, b, thresh);
}

} // verus!
