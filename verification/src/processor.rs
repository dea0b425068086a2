//! The image processor: a base image and the copy of it that the effects are
//! applied to.

use crate::area_glitch::{shuffle_areas, shuffled_all, slid_all, slide_areas, ShuffleDraws, SlideDraws};
use crate::grid::lemma_grid_equal;
use crate::pixel::Pixel;
use crate::pixel_sort::{is_horiz_sorted, is_vert_sorted, sort_pixels_horiz, sort_pixels_vert};
use crate::raster::{grid_of_bytes, Raster, RasterError};
use vstd::prelude::*;

verus! {

/// ImageProcessor contains 2 copies of an image and functionality to process
/// the base image with several pixel sorting effects.
#[derive(Debug)]
pub struct ImageProcessor {
    base_image: Raster,
    processed_image: Raster,
}

impl ImageProcessor {
    /// The image as it was loaded.
    pub closed spec fn base(&self) -> Raster {
        self.base_image
    }

    /// The image as the effects have left it.
    pub closed spec fn processed(&self) -> Raster {
        self.processed_image
    }

    /// Both images are well-formed and of the same size.
    pub open spec fn wf(&self) -> bool {
        &&& self.base().wf()
        &&& self.processed().wf()
        &&& self.base().width() == self.processed().width()
        &&& self.base().height() == self.processed().height()
    }

    /// Creates the image processor with image buffers of the correct size,
    /// every pixel transparent black.
    pub fn new(width: u32, height: u32) -> (out: ImageProcessor)
        requires
            width * height * 4 <= usize::MAX,
        ensures
            out.wf(),
            out.base().width() == width,
            out.base().height() == height,
            forall|x: int, y: int| out.base()@.inside(x, y) ==> out.base()@.at(x, y) == Pixel::zero(),
            out.processed()@ == out.base()@,
    {
        let out = ImageProcessor {
            base_image: Raster::new(width, height),
            processed_image: Raster::new(width, height),
        };
        proof {
            lemma_grid_equal(out.processed_image@, out.base_image@);
        }
        out
    }

    /// Loads an image into the top-left corner of both image buffers. The
    /// image is refused, and nothing is written, where the buffer does not
    /// hold four bytes for each of its pixels or where it is wider or higher
    /// than the processor's images.
    pub fn load_base_image(&mut self, width: u32, height: u32, pixels: Vec<u8>) -> (out: Result<
        (),
        RasterError,
    >)
        requires
            old(self).wf(),
        ensures
            final(self).wf(),
            final(self).base().width() == old(self).base().width(),
            final(self).base().height() == old(self).base().height(),
            out is Ok <==> pixels@.len() == width * height * 4 && width <= old(self).base().width()
                && height <= old(self).base().height(),
            out is Ok ==> final(self).base()@ == old(self).base()@.paste(
                grid_of_bytes(width as nat, height as nat, pixels@),
                0,
                0,
            ) && final(self).processed()@ == old(self).processed()@.paste(
                grid_of_bytes(width as nat, height as nat, pixels@),
                0,
                0,
            ),
            out matches Err(e) ==> (e == RasterError::ShapeMismatch <==> pixels@.len() != width * height
                * 4) && final(self).base()@ == old(self).base()@ && final(self).processed()@ == old(
                self,
            ).processed()@,
    {
        let new_img = match Raster::from_raw(width, height, pixels) {
            Ok(img) => img,
            Err(e) => {
                return Err(e);
            },
        };
        match self.base_image.copy_from(&new_img, 0, 0) {
            Ok(()) => {},
            Err(e) => {
                return Err(e);
            },
        }
        match self.processed_image.copy_from(&new_img, 0, 0) {
            Ok(()) => {},
            Err(e) => {
                return Err(e);
            },
        }
        Ok(())
    }

    /// Resets the processed image to be the same as the base image.
    pub fn reset_image(&mut self)
        requires
            old(self).wf(),
        ensures
            final(self).wf(),
            final(self).base() == old(self).base(),
            final(self).processed()@ == old(self).base()@,
    {
        let _copied = self.processed_image.copy_from(&self.base_image, 0, 0);
        proof {
            let base = self.base_image@;
            let want = old(self).processed_image@.paste(base, 0, 0);
            assert forall|x: int, y: int| want.inside(x, y) implies want.at(x, y) == base.at(x, y) by {}
            lemma_grid_equal(want, base);
        }
    }

    /// Applies the pixel sort effect to the processed image, along its rows
    /// or, where `vertical` is set, along its columns.
    pub fn process_pixel_sort(&mut self, thresh: u8, vertical: bool)
        requires
            old(self).wf(),
        ensures
            final(self).wf(),
            final(self).base() == old(self).base(),
            !vertical ==> is_horiz_sorted(old(self).processed()@, final(self).processed()@, thresh),
            vertical ==> is_vert_sorted(old(self).processed()@, final(self).processed()@, thresh),
    {
        if vertical {
            sort_pixels_vert(&mut self.processed_image, thresh);
        } else {
            sort_pixels_horiz(&mut self.processed_image, thresh);
        }
    }

    /// Applies the area shuffle effect to the processed image.
    pub fn process_area_shuffle(&mut self, num_iterations: u32)
        requires
            old(self).wf(),
        ensures
            final(self).wf(),
            final(self).base() == old(self).base(),
            exists|draws: Seq<ShuffleDraws>|
                draws.len() == num_iterations && final(self).processed()@
                    == #[trigger] shuffled_all(old(self).processed()@, draws),
            num_iterations == 0 ==> final(self).processed()@ == old(self).processed()@,
    {
        shuffle_areas(&mut self.processed_image, num_iterations);
    }

    /// Applies the rectangle slide effect to the processed image.
    pub fn process_rect_slide(&mut self, num_times: u32, distance: u32)
        requires
            old(self).wf(),
        ensures
            final(self).wf(),
            final(self).base() == old(self).base(),
            exists|draws: Seq<SlideDraws>|
                draws.len() == num_times && final(self).processed()@ == #[trigger] slid_all(
                    old(self).processed()@,
                    draws,
                    distance,
                ),
            num_times == 0 ==> final(self).processed()@ == old(self).processed()@,
    {
        slide_areas(&mut self.processed_image, num_times, distance);
    }

    /// Returns the processed image as a flat RGBA buffer.
    pub fn get_pixel_data(&self) -> (out: Vec<u8>)
        ensures
            out@ == self.processed().bytes(),
    {
        self.processed_image.to_vec()
    }
}

} // verus!
