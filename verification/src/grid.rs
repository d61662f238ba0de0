//! A grid of samples: an 8-bit grayscale image, row by row.

use vstd::prelude::*;

verus! {

/// What a grid is: its dimensions and its samples, row by row.
pub struct GridView {
    /// Number of samples in a row.
    pub width: u32,
    /// Number of rows.
    pub height: u32,
    /// The samples, `width * height` of them.
    pub samples: Seq<u8>,
}

/// An image of `width` by `height` samples. Every grid holds exactly
/// `width * height` samples.
#[derive(Debug)]
pub struct SampleGrid {
    width: u32,
    height: u32,
    samples: Vec<u8>,
}

impl View for SampleGrid {
    type V = GridView;

    /// The dimensions and the samples of the grid.
    closed spec fn view(&self) -> GridView {
        GridView { width: self.width, height: self.height, samples: self.samples@ }
    }
}

impl SampleGrid {
    /// There are `width * height` samples.
    #[verifier::type_invariant]
    spec fn well_formed(self) -> bool {
        self.samples@.len() == self.width * self.height
    }

    /// A grid of the given samples, if there are `width * height` of them.
    pub fn new(samples: Vec<u8>, width: u32, height: u32) -> (grid: Option<SampleGrid>)
        ensures
            grid is Some <==> samples@.len() == width * height,
            grid matches Some(g) ==> g@ == (GridView { width, height, samples: samples@ }),
    {
        assert(width * height <= 0xffff_ffff * 0xffff_ffff) by (nonlinear_arith)
            requires
                0 <= width <= 0xffff_ffff,
                0 <= height <= 0xffff_ffff,
        ;
        let count: u64 = (width as u64) * (height as u64);
        if samples.len() as u64 == count {
            Some(SampleGrid { width, height, samples })
        } else {
            None
        }
    }

    /// Number of samples in a row.
    pub fn width(&self) -> (width: u32)
        ensures
            width == self@.width,
    {
        self.width
    }

    /// Number of rows.
    pub fn height(&self) -> (height: u32)
        ensures
            height == self@.height,
    {
        self.height
    }

    /// The samples, row by row.
    pub fn samples(&self) -> (samples: &Vec<u8>)
        ensures
            samples@ == self@.samples,
            samples@.len() == self@.width * self@.height,
    {
        proof {
            use_type_invariant(self);
        }
        &self.samples
    }

    /// The samples, row by row, without the grid around them.
    pub fn into_samples(self) -> (samples: Vec<u8>)
        ensures
            samples@ == self@.samples,
            samples@.len() == self@.width * self@.height,
    {
        proof {
            use_type_invariant(&self);
        }
        self.samples
    }
}

} // verus!
