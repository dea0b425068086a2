//! The RGBA raster that the effects work on, and the single-channel raster of
//! brightness values derived from it.

use crate::grid::{lemma_grid_equal, Grid};
use crate::pixel::{luma, Pixel};
use vstd::prelude::*;

verus! {

/// Why a raster could not be built or written.
#[derive(Clone, Copy, Debug, PartialEq, Eq, Structural)]
pub enum RasterError {
    /// The byte buffer does not hold exactly four bytes per pixel.
    ShapeMismatch,
    /// The pixels to write do not fit within the raster.
    OutOfBounds,
}

/// Index of the cell `(x, y)` in a row-by-row buffer of rows `width` long.
pub open spec fn cell_index(width: nat, x: int, y: int) -> int {
    y * width + x
}

/// The pixel made of the four bytes that start at `4 * cell`.
pub open spec fn pixel_of_bytes(bytes: Seq<u8>, cell: int) -> Pixel {
    Pixel { r: bytes[4 * cell], g: bytes[4 * cell + 1], b: bytes[4 * cell + 2], a: bytes[4 * cell + 3] }
}

/// The grid of pixels that a flat RGBA buffer stands for.
pub open spec fn grid_of_bytes(width: nat, height: nat, bytes: Seq<u8>) -> Grid<Pixel> {
    Grid::build(width, height, |x: int, y: int| pixel_of_bytes(bytes, cell_index(width, x, y)))
}

/// Whether `bytes` is the flat RGBA buffer of the grid `g`: four bytes for each
/// of its pixels, row by row.
pub open spec fn is_buffer_of(bytes: Seq<u8>, g: Grid<Pixel>) -> bool {
    &&& bytes.len() == g.width * g.height * 4
    &&& grid_of_bytes(g.width, g.height, bytes) == g
}

/// The grid of brightness values that a flat single-channel buffer stands for.
pub open spec fn grid_of_lumas(width: nat, height: nat, bytes: Seq<u8>) -> Grid<u8> {
    Grid::build(width, height, |x: int, y: int| bytes[cell_index(width, x, y)])
}

/// The brightness of every pixel of a grid.
pub open spec fn luma_grid(g: Grid<Pixel>) -> Grid<u8> {
    Grid::build(g.width, g.height, |x: int, y: int| luma(g.at(x, y)))
}

/// An RGBA raster: `width * height` pixels, row by row, four bytes each.
#[derive(Debug)]
pub struct Raster {
    width: u32,
    height: u32,
    data: Vec<u8>,
}

impl View for Raster {
    type V = Grid<Pixel>;

    /// The pixels of the raster as a grid.
    open spec fn view(&self) -> Grid<Pixel> {
        grid_of_bytes(self.spec_width() as nat, self.spec_height() as nat, self.bytes())
    }
}

impl Raster {
    /// The flat byte buffer of the raster.
    pub closed spec fn bytes(&self) -> Seq<u8> {
        self.data@
    }

    /// The number of columns.
    pub closed spec fn spec_width(&self) -> u32 {
        self.width
    }

    /// The number of rows.
    pub closed spec fn spec_height(&self) -> u32 {
        self.height
    }

    /// The buffer holds exactly four bytes for each pixel.
    pub open spec fn wf(&self) -> bool {
        self.bytes().len() == self.spec_width() * self.spec_height() * 4
    }

    /// A raster of transparent black pixels.
    pub fn new(width: u32, height: u32) -> (out: Raster)
        requires
            width * height * 4 <= usize::MAX,
        ensures
            out.wf(),
            out.width() == width,
            out.height() == height,
            forall|x: int, y: int| out@.inside(x, y) ==> out@.at(x, y) == Pixel::zero(),
    {
        let cells: usize = width as usize * height as usize;
        let len: usize = cells * 4;
        let data: Vec<u8> = vec![0u8; len];
        let out = Raster { width, height, data };
        proof {
            assert forall|x: int, y: int| out@.inside(x, y) implies out@.at(x, y) == Pixel::zero() by {
                lemma_cell_index_bounds(width as nat, height as nat, x, y);
            }
        }
        out
    }

    /// The raster that a flat RGBA buffer stands for. The buffer is taken as it
    /// is when it holds exactly `width * height * 4` bytes, and refused otherwise.
    pub fn from_raw(width: u32, height: u32, data: Vec<u8>) -> (out: Result<Raster, RasterError>)
        ensures
            out is Ok <==> data@.len() == width * height * 4,
            out matches Ok(r) ==> r.wf() && r.width() == width && r.height() == height && r.bytes()
                == data@,
            out matches Err(e) ==> e == RasterError::ShapeMismatch,
    {
        assert(width * height <= 0xFFFF_FFFF * 0xFFFF_FFFF) by (nonlinear_arith)
            requires
                width <= 0xFFFF_FFFF,
                height <= 0xFFFF_FFFF,
        ;
        let need: u128 = width as u128 * height as u128 * 4;
        if data.len() as u128 == need {
            Ok(Raster { width, height, data })
        } else {
            Err(RasterError::ShapeMismatch)
        }
    }

    /// The flat RGBA buffer of the raster.
    pub fn into_raw(self) -> (out: Vec<u8>)
        ensures
            out@ == self.bytes(),
    {
        self.data
    }

    /// A copy of the flat RGBA buffer of the raster.
    pub fn to_vec(&self) -> (out: Vec<u8>)
        ensures
            out@ == self.bytes(),
    {
        self.data.clone()
    }

    /// The number of columns.
    #[verifier::when_used_as_spec(spec_width)]
    pub fn width(&self) -> (w: u32)
        ensures
            w == self.spec_width(),
    {
        self.width
    }

    /// The number of rows.
    #[verifier::when_used_as_spec(spec_height)]
    pub fn height(&self) -> (h: u32)
        ensures
            h == self.spec_height(),
    {
        self.height
    }

    /// Width and height, in this order.
    pub fn dimensions(&self) -> (dims: (u32, u32))
        ensures
            dims == (self.width(), self.height()),
    {
        (self.width, self.height)
    }

    /// The pixel in column `x` of row `y`.
    pub fn get_pixel(&self, x: u32, y: u32) -> (p: Pixel)
        requires
            self.wf(),
            x < self.width(),
            y < self.height(),
        ensures
            p == self@.at(x as int, y as int),
    {
        proof {
            lemma_cell_index_bounds(self.width as nat, self.height as nat, x as int, y as int);
            assert(self.data@.len() == self.data.len());
        }
        let at: usize = (y as usize * self.width as usize + x as usize) * 4;
        Pixel { r: self.data[at], g: self.data[at + 1], b: self.data[at + 2], a: self.data[at + 3] }
    }

    /// Replaces the pixel in column `x` of row `y`.
    pub fn put_pixel(&mut self, x: u32, y: u32, p: Pixel)
        requires
            old(self).wf(),
            x < old(self).width(),
            y < old(self).height(),
        ensures
            final(self).wf(),
            final(self).width() == old(self).width(),
            final(self).height() == old(self).height(),
            final(self)@ == old(self)@.put(x as int, y as int, p),
    {
        proof {
            lemma_cell_index_bounds(self.width as nat, self.height as nat, x as int, y as int);
            assert(self.data@.len() == self.data.len());
        }
        let at: usize = (y as usize * self.width as usize + x as usize) * 4;
        self.data.set(at, p.r);
        self.data.set(at + 1, p.g);
        self.data.set(at + 2, p.b);
        self.data.set(at + 3, p.a);
        proof {
            let before = old(self)@;
            let after = self@;
            let want = before.put(x as int, y as int, p);
            assert forall|i: int, j: int| after.inside(i, j) implies after.at(i, j) == want.at(i, j) by {
                lemma_cell_index_bounds(self.width as nat, self.height as nat, i, j);
                if cell_index(self.width as nat, i, j) == cell_index(self.width as nat, x as int, y as int) {
                    lemma_cell_index_injective(self.width as nat, i, j, x as int, y as int);
                }
            }
            lemma_grid_equal(after, want);
        }
    }
}

impl Clone for Raster {
    /// A raster of the same size with the same bytes.
    fn clone(&self) -> (out: Self)
        ensures
            out.width() == self.width(),
            out.height() == self.height(),
            out.bytes() == self.bytes(),
            out@ == self@,
            out.wf() == self.wf(),
    {
        Raster { width: self.width, height: self.height, data: self.data.clone() }
    }
}

impl Raster {
    /// Lays `src` over this raster, the top-left corner of `src` at `(x, y)`.
    /// A pixel whose place falls outside this raster is dropped.
    pub fn paste(&mut self, src: &Raster, x: u32, y: u32)
        requires
            old(self).wf(),
            src.wf(),
        ensures
            final(self).wf(),
            final(self).width() == old(self).width(),
            final(self).height() == old(self).height(),
            final(self)@ == old(self)@.paste(src@, x as int, y as int),
    {
        let ghost before = self@;
        let ghost top = src@;
        let (sw, sh) = src.dimensions();
        let mut j: u32 = 0;
        while j < sh
            invariant
                self.wf(),
                src.wf(),
                top == src@,
                before.wf(),
                self.width() == before.width,
                self.height() == before.height,
                sw == src.width(),
                sh == src.height(),
                j <= sh,
                forall|u: int, v: int|
                    before.inside(u, v) ==> #[trigger] self@.at(u, v) == if top.inside(u - x, v - y) && v
                        - y < j {
                        top.at(u - x, v - y)
                    } else {
                        before.at(u, v)
                    },
            decreases sh - j,
        {
            let mut i: u32 = 0;
            while i < sw
                invariant
                    self.wf(),
                    src.wf(),
                    top == src@,
                    before.wf(),
                    self.width() == before.width,
                    self.height() == before.height,
                    sw == src.width(),
                    sh == src.height(),
                    j < sh,
                    i <= sw,
                    forall|u: int, v: int|
                        before.inside(u, v) ==> #[trigger] self@.at(u, v) == if top.inside(u - x, v - y)
                            && (v - y < j || (v - y == j && u - x < i)) {
                            top.at(u - x, v - y)
                        } else {
                            before.at(u, v)
                        },
                decreases sw - i,
            {
                let to_x: u64 = x as u64 + i as u64;
                let to_y: u64 = y as u64 + j as u64;
                if to_x < self.width as u64 && to_y < self.height as u64 {
                    let ghost prev = self@;
                    let p = src.get_pixel(i, j);
                    self.put_pixel(to_x as u32, to_y as u32, p);
                    proof {
                        let now = self@;
                        assert forall|u: int, v: int| before.inside(u, v) implies #[trigger] now.at(u, v)
                            == if top.inside(u - x, v - y) && (v - y < j || (v - y == j && u - x < i + 1)) {
                            top.at(u - x, v - y)
                        } else {
                            before.at(u, v)
                        } by {
                            if u != to_x || v != to_y {
                                assert(now.at(u, v) == prev.at(u, v));
                            }
                        }
                    }
                }
                i += 1;
            }
            j += 1;
        }
        proof {
            let want = before.paste(top, x as int, y as int);
            assert forall|u: int, v: int| self@.inside(u, v) implies self@.at(u, v) == want.at(u, v) by {
                assert(before.inside(u, v));
            }
            lemma_grid_equal(self@, want);
        }
    }
}

/// Calls `image::imageops::rotate90` on the buffer read as an RGBA image of
/// `width` by `height` pixels. The contract claims that it returns the buffer
/// of the image turned a quarter clockwise: as many bytes, standing for
/// `height` by `width` pixels, the pixel `(x, y)` now at `(height - 1 - y, x)`.
#[verifier::external_body]
fn image_rotate90(width: u32, height: u32, data: &Vec<u8>) -> (out: Vec<u8>)
    requires
        data@.len() == width * height * 4,
    ensures
        is_buffer_of(out@, grid_of_bytes(width as nat, height as nat, data@).rotate90()),
{
    let bytes: &[u8] = data.as_slice();
    let src = image::ImageBuffer::<image::Rgba<u8>, &[u8]>::from_raw(width, height, bytes).unwrap();
    image::imageops::rotate90(&src).into_raw()
}

/// Calls `image::imageops::rotate270` on the buffer read as an RGBA image of
/// `width` by `height` pixels. The contract claims that it returns the buffer
/// of the image turned three quarters clockwise: as many bytes, standing for
/// `height` by `width` pixels, the pixel `(x, y)` now at `(y, width - 1 - x)`.
#[verifier::external_body]
fn image_rotate270(width: u32, height: u32, data: &Vec<u8>) -> (out: Vec<u8>)
    requires
        data@.len() == width * height * 4,
    ensures
        is_buffer_of(out@, grid_of_bytes(width as nat, height as nat, data@).rotate270()),
{
    let bytes: &[u8] = data.as_slice();
    let src = image::ImageBuffer::<image::Rgba<u8>, &[u8]>::from_raw(width, height, bytes).unwrap();
    image::imageops::rotate270(&src).into_raw()
}

/// Calls `image::imageops::crop_imm` on the buffer read as an RGBA image of
/// `width` by `height` pixels, and `SubImage::to_image` on the view it returns.
/// The contract claims that the corner is first moved onto the image and the
/// extent then cut to what is left beside and below it, and that the bytes
/// returned are the pixels of that rectangle, row by row.
#[verifier::external_body]
fn image_crop(width: u32, height: u32, data: &Vec<u8>, x: u32, y: u32, w: u32, h: u32) -> (out: Vec<u8>)
    requires
        data@.len() == width * height * 4,
    ensures
        is_buffer_of(
            out@,
            grid_of_bytes(width as nat, height as nat, data@).crop(x as int, y as int, w as int, h as int),
        ),
{
    let src = image::RgbaImage::from_raw(width, height, data.clone()).unwrap();
    image::imageops::crop_imm(&src, x, y, w, h).to_image().into_raw()
}

/// Calls `image::GenericImage::copy_from` on the first buffer read as an RGBA
/// image of `width` by `height` pixels, with the second read as one of
/// `src_width` by `src_height`. The contract claims that, where the second
/// image placed at `(x, y)` lies within the first, every pixel of it is written
/// there and nothing else changes.
#[verifier::external_body]
fn image_copy_from(
    width: u32,
    height: u32,
    data: &mut Vec<u8>,
    src_width: u32,
    src_height: u32,
    src_data: &Vec<u8>,
    x: u32,
    y: u32,
)
    requires
        old(data)@.len() == width * height * 4,
        src_data@.len() == src_width * src_height * 4,
        x + src_width <= width,
        y + src_height <= height,
    ensures
        is_buffer_of(
            final(data)@,
            grid_of_bytes(width as nat, height as nat, old(data)@).paste(
                grid_of_bytes(src_width as nat, src_height as nat, src_data@),
                x as int,
                y as int,
            ),
        ),
{
    let from: &[u8] = src_data.as_slice();
    let into: &mut [u8] = data.as_mut_slice();
    let src = image::ImageBuffer::<image::Rgba<u8>, &[u8]>::from_raw(src_width, src_height, from).unwrap();
    let mut dst = image::ImageBuffer::<image::Rgba<u8>, &mut [u8]>::from_raw(width, height, into).unwrap();
    image::GenericImage::copy_from(&mut dst, &src, x, y).unwrap();
}

impl Raster {
    /// The brightness of every pixel, as a raster of its own.
    pub fn to_luma8(&self) -> (out: LumaRaster)
        requires
            self.wf(),
        ensures
            out.wf(),
            out.width() == self.width(),
            out.height() == self.height(),
            out@ == luma_grid(self@),
    {
        let cells: usize = self.data.len() / 4;
        let mut lumas: Vec<u8> = Vec::with_capacity(cells);
        let mut k: usize = 0;
        while k < cells
            invariant
                cells * 4 == self.data.len(),
                k <= cells,
                lumas@.len() == k,
                forall|j: int| 0 <= j < k ==> lumas@[j] == luma(pixel_of_bytes(self.data@, j)),
            decreases cells - k,
        {
            let p = Pixel {
                r: self.data[4 * k],
                g: self.data[4 * k + 1],
                b: self.data[4 * k + 2],
                a: self.data[4 * k + 3],
            };
            lumas.push(p.luma());
            k += 1;
        }
        let out = LumaRaster { width: self.width, height: self.height, data: lumas };
        proof {
            let want = luma_grid(self@);
            assert forall|x: int, y: int| out@.inside(x, y) implies out@.at(x, y) == want.at(x, y) by {
                lemma_cell_index_bounds(self.width as nat, self.height as nat, x, y);
            }
            lemma_grid_equal(out@, want);
        }
        out
    }

    /// The raster turned a quarter clockwise.
    pub fn rotate90(&self) -> (out: Raster)
        requires
            self.wf(),
        ensures
            out.wf(),
            out.width() == self.height(),
            out.height() == self.width(),
            out@ == self@.rotate90(),
    {
        let data = image_rotate90(self.width, self.height, &self.data);
        Raster { width: self.height, height: self.width, data }
    }

    /// The raster turned three quarters clockwise.
    pub fn rotate270(&self) -> (out: Raster)
        requires
            self.wf(),
        ensures
            out.wf(),
            out.width() == self.height(),
            out.height() == self.width(),
            out@ == self@.rotate270(),
    {
        let data = image_rotate270(self.width, self.height, &self.data);
        Raster { width: self.height, height: self.width, data }
    }

    /// A copy of the rectangle of `w` by `h` pixels whose top-left corner is
    /// `(x, y)`, shrunk to the part of it that lies within the raster.
    pub fn crop_imm(&self, x: u32, y: u32, w: u32, h: u32) -> (out: Raster)
        requires
            self.wf(),
        ensures
            out.wf(),
            out@ == self@.crop(x as int, y as int, w as int, h as int),
            out.width() == self@.clip(x as int, y as int, w as int, h as int).2,
            out.height() == self@.clip(x as int, y as int, w as int, h as int).3,
    {
        let cx: u32 = if x <= self.width { x } else { self.width };
        let cy: u32 = if y <= self.height { y } else { self.height };
        let cw: u32 = if w <= self.width - cx { w } else { self.width - cx };
        let ch: u32 = if h <= self.height - cy { h } else { self.height - cy };
        let data = image_crop(self.width, self.height, &self.data, x, y, w, h);
        Raster { width: cw, height: ch, data }
    }

    /// Writes every pixel of `src` into this raster, the top-left corner of
    /// `src` at `(x, y)`. Fails, and writes nothing, where `src` so placed does
    /// not lie within this raster.
    pub fn copy_from(&mut self, src: &Raster, x: u32, y: u32) -> (out: Result<(), RasterError>)
        requires
            old(self).wf(),
            src.wf(),
        ensures
            final(self).wf(),
            final(self).width() == old(self).width(),
            final(self).height() == old(self).height(),
            out is Ok <==> x + src.width() <= old(self).width() && y + src.height() <= old(self).height(),
            out is Ok ==> final(self)@ == old(self)@.paste(src@, x as int, y as int),
            out matches Err(e) ==> e == RasterError::OutOfBounds && final(self)@ == old(self)@
                && final(self).bytes() == old(self).bytes(),
    {
        if x as u64 + src.width as u64 > self.width as u64 || y as u64 + src.height as u64
            > self.height as u64 {
            return Err(RasterError::OutOfBounds);
        }
        image_copy_from(self.width, self.height, &mut self.data, src.width, src.height, &src.data, x, y);
        Ok(())
    }
}

/// A single-channel raster of brightness values: `width * height` bytes, row by
/// row.
#[derive(Debug)]
pub struct LumaRaster {
    width: u32,
    height: u32,
    data: Vec<u8>,
}

impl View for LumaRaster {
    type V = Grid<u8>;

    /// The brightness values of the raster as a grid.
    open spec fn view(&self) -> Grid<u8> {
        grid_of_lumas(self.spec_width() as nat, self.spec_height() as nat, self.bytes())
    }
}

impl LumaRaster {
    /// The flat byte buffer of the raster.
    pub closed spec fn bytes(&self) -> Seq<u8> {
        self.data@
    }

    /// The number of columns.
    pub closed spec fn spec_width(&self) -> u32 {
        self.width
    }

    /// The number of rows.
    pub closed spec fn spec_height(&self) -> u32 {
        self.height
    }

    /// The buffer holds exactly one byte for each pixel.
    pub open spec fn wf(&self) -> bool {
        self.bytes().len() == self.spec_width() * self.spec_height()
    }

    /// The raster that a flat buffer of brightness values stands for. The
    /// buffer is taken as it is when it holds exactly `width * height` bytes,
    /// and refused otherwise.
    pub fn from_raw(width: u32, height: u32, data: Vec<u8>) -> (out: Result<LumaRaster, RasterError>)
        ensures
            out is Ok <==> data@.len() == width * height,
            out matches Ok(r) ==> r.wf() && r.width() == width && r.height() == height && r.bytes()
                == data@,
            out matches Err(e) ==> e == RasterError::ShapeMismatch,
    {
        assert(width * height <= 0xFFFF_FFFF * 0xFFFF_FFFF) by (nonlinear_arith)
            requires
                width <= 0xFFFF_FFFF,
                height <= 0xFFFF_FFFF,
        ;
        let need: u128 = width as u128 * height as u128;
        if data.len() as u128 == need {
            Ok(LumaRaster { width, height, data })
        } else {
            Err(RasterError::ShapeMismatch)
        }
    }

    /// The flat buffer of the raster.
    pub fn into_raw(self) -> (out: Vec<u8>)
        ensures
            out@ == self.bytes(),
    {
        self.data
    }

    /// The number of columns.
    #[verifier::when_used_as_spec(spec_width)]
    pub fn width(&self) -> (w: u32)
        ensures
            w == self.spec_width(),
    {
        self.width
    }

    /// The number of rows.
    #[verifier::when_used_as_spec(spec_height)]
    pub fn height(&self) -> (h: u32)
        ensures
            h == self.spec_height(),
    {
        self.height
    }

    /// Width and height, in this order.
    pub fn dimensions(&self) -> (dims: (u32, u32))
        ensures
            dims == (self.width(), self.height()),
    {
        (self.width, self.height)
    }

    /// The brightness in column `x` of row `y`.
    pub fn get_pixel(&self, x: u32, y: u32) -> (l: u8)
        requires
            self.wf(),
            x < self.width(),
            y < self.height(),
        ensures
            l == self@.at(x as int, y as int),
    {
        proof {
            lemma_cell_index_bounds(self.width as nat, self.height as nat, x as int, y as int);
            assert(self.data@.len() == self.data.len());
        }
        self.data[y as usize * self.width as usize + x as usize]
    }
}

/// A cell of the grid has its index within the buffer.
pub proof fn lemma_cell_index_bounds(width: nat, height: nat, x: int, y: int)
    requires
        0 <= x < width,
        0 <= y < height,
    ensures
        0 <= y * width,
        0 <= cell_index(width, x, y) < width * height,
{
    assert(0 <= y * width && y * width + x < width * height) by (nonlinear_arith)
        requires
            0 <= x < width,
            0 <= y < height,
    ;
}

/// Two cells with the same index are the same cell.
pub proof fn lemma_cell_index_injective(width: nat, x1: int, y1: int, x2: int, y2: int)
    requires
        0 <= x1 < width,
        0 <= x2 < width,
        0 <= y1,
        0 <= y2,
        cell_index(width, x1, y1) == cell_index(width, x2, y2),
    ensures
        x1 == x2,
        y1 == y2,
{
    assert(y1 == y2) by (nonlinear_arith)
        requires
            0 <= x1 < width,
            0 <= x2 < width,
            0 <= y1,
            0 <= y2,
            y1 * width + x1 == y2 * width + x2,
    ;
}

/// The bytes of a well-formed raster are settled by its pixels: two rasters
/// with the same grid of pixels hold the same bytes.
pub proof fn lemma_view_determines_bytes(a: Raster, b: Raster)
    requires
        a.wf(),
        b.wf(),
        a@ == b@,
    ensures
        a.bytes() == b.bytes(),
{
    let width = a.width() as nat;
    let height = a.height() as nat;
    assert forall|k: int| 0 <= k < a.bytes().len() implies a.bytes()[k] == b.bytes()[k] by {
        let cell = k / 4;
        let x = cell % (width as int);
        let y = cell / (width as int);
        assert(width > 0 && 0 <= cell < width * height) by (nonlinear_arith)
            requires
                0 <= k < width * height * 4,
                cell == k / 4,
        ;
        assert(0 <= x < width && 0 <= y < height && y * width + x == cell) by (nonlinear_arith)
            requires
                width > 0,
                0 <= cell < width * height,
                x == cell % (width as int),
                y == cell / (width as int),
        ;
        assert(a@.at(x, y) == pixel_of_bytes(a.bytes(), cell));
        assert(b@.at(x, y) == pixel_of_bytes(b.bytes(), cell));
        assert(k == 4 * cell + k % 4);
    }
    assert(a.bytes() =~= b.bytes());
}

} // verus!
