//! The carrier and payload pixel grids: a width × height grid of 4-channel
//! RGBA pixels, held as raw channel bytes in raster order (row-major, each
//! pixel contributing R, G, B, A in that order).

use vstd::prelude::*;

verus! {

/// A pixel grid. `data` holds one byte per channel, 4 channels per pixel,
/// pixels in raster order.
#[derive(Clone, Debug, PartialEq)]
pub struct PixelGrid {
    pub width: u32,
    pub height: u32,
    pub data: Vec<u8>,
}

impl PixelGrid {
    /// The grid holds exactly 4 channel bytes per pixel.
    pub open spec fn wf(&self) -> bool {
        self.data@.len() == self.width as int * self.height as int * 4
    }

    /// Builds a grid from its dimensions and raw channel bytes; refused when
    /// the byte count does not match the dimensions.
    pub fn new(width: u32, height: u32, data: Vec<u8>) -> (r: Option<PixelGrid>)
        ensures
            match r {
                Some(g) => {
                    &&& g.width == width
                    &&& g.height == height
                    &&& g.data@ == data@
                    &&& g.wf()
                },
                None => data@.len() != width as int * height as int * 4,
            },
    {
        proof {
            assert((width as u128) * (height as u128) < 0x10000000000000000u128) by (nonlinear_arith)
                requires
                    (width as u128) < 0x100000000u128,
                    (height as u128) < 0x100000000u128,
            ;
        }
        if (data.len() as u128) == (width as u128) * (height as u128) * 4 {
            Some(PixelGrid { width, height, data })
        } else {
            None
        }
    }

    /// Number of channel bytes the grid holds.
    pub fn channel_count(&self) -> (r: usize)
        ensures
            r == self.data@.len(),
    {
        self.data.len()
    }
}

} // verus!
