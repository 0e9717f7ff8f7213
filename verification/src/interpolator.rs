//! Pixel prediction. An interpolator predicts a pixel from already
//! reconstructed values at the enclosing coarser-level cell. Encoder and
//! decoder must compute bit-for-bit identical predictions from identical
//! surfaces, so the exact integer rounding is part of each contract.

use crate::grid::Grid;
use crate::traversal::pow2_u64;
use vstd::arithmetic::div_mod::lemma_mod_decreases;
use vstd::arithmetic::power2::pow2;
use vstd::prelude::*;

verus! {

/// The prediction kernels an archive can name.
#[derive(Clone, Copy, Debug, PartialEq, Eq, Structural)]
pub enum InterpolationType {
    Crossed,
    Line,
    Previous,
}

/// The value a predictor reads at `(x, y)`: the surface pixel when the
/// coordinate is in range, and 0 as the out-of-range fallback.
pub open spec fn corner_value(s: Seq<u8>, width: u32, height: u32, x: int, y: int) -> u8 {
    if 0 <= x < width && 0 <= y < height {
        s[y * width + x]
    } else {
        0u8
    }
}

/// The corner-cross average: each edge midpoint rounds half-up, and so does
/// the final average of the four.
pub open spec fn crossed_prediction(left_top: u8, right_top: u8, left_bot: u8, right_bot: u8) -> u8 {
    let left = (left_top + left_bot + 1) / 2;
    let right = (right_bot + right_top + 1) / 2;
    let top = (right_top + left_top + 1) / 2;
    let bot = (right_bot + left_bot + 1) / 2;
    ((left + right + top + bot + 1) / 4) as u8
}

/// Predicts a pixel at refinement depth `level` of `levels` from the
/// reconstructed surface. Predictions read only coordinates aligned to the
/// coarser spacing `2^(levels - level + 1)`, which earlier levels have
/// already finalized.
pub trait Interpolator: Sized {
    /// What `interpolate` returns, as a function of the surface contents.
    spec fn spec_interpolate(
        &self,
        levels: int,
        level: int,
        x: u32,
        y: u32,
        s: Seq<u8>,
        width: u32,
        height: u32,
    ) -> u8;

    fn interpolate(&self, levels: usize, level: usize, at: (u32, u32), surface: &Grid) -> (r: u8)
        requires
            surface.wf(),
            1 <= level <= levels,
            levels <= 31,
            at.0 < surface.spec_width(),
            at.1 < surface.spec_height(),
        ensures
            r == self.spec_interpolate(
                levels as int,
                level as int,
                at.0,
                at.1,
                surface@,
                surface.spec_width(),
                surface.spec_height(),
            );
}

/// Read a corner with the out-of-range fallback.
fn read_corner(surface: &Grid, x: u64, y: u64) -> (r: u8)
    requires
        surface.wf(),
    ensures
        r == corner_value(
            surface@,
            surface.spec_width(),
            surface.spec_height(),
            x as int,
            y as int,
        ),
{
    if x < surface.width() as u64 && y < surface.height() as u64 {
        surface.get(x as u32, y as u32)
    } else {
        0
    }
}

/// The nearly free predictor: it repeats the top-left corner of the
/// enclosing coarser cell.
pub struct LeftTop;

impl Interpolator for LeftTop {
    open spec fn spec_interpolate(
        &self,
        levels: int,
        level: int,
        x: u32,
        y: u32,
        s: Seq<u8>,
        width: u32,
        height: u32,
    ) -> u8 {
        let step = pow2((levels - level + 1) as nat) as int;
        let x0 = x - (x as int % step);
        let y0 = y - (y as int % step);
        corner_value(s, width, height, x0, y0)
    }

    fn interpolate(&self, levels: usize, level: usize, at: (u32, u32), surface: &Grid) -> (r: u8) {
        let (x, y) = at;
        let step = pow2_u64(levels - level + 1);
        proof {
            lemma_mod_decreases(x as nat, step as nat);
            lemma_mod_decreases(y as nat, step as nat);
        }
        let x0 = (x as u64) - (x as u64) % step;
        let y0 = (y as u64) - (y as u64) % step;
        read_corner(surface, x0, y0)
    }
}

/// The corner-cross predictor: the average of the four corners of the
/// enclosing coarser cell, out-of-range corners reading as 0.
pub struct Crossed;

/// The four corner reads that feed one crossed prediction.
#[derive(Clone, Copy, Debug, PartialEq, Eq, Structural, Default)]
pub struct CrossedValues {
    pub left_top: u8,
    pub right_top: u8,
    pub left_bot: u8,
    pub right_bot: u8,
}

impl CrossedValues {
    /// The corner-cross average of the four reads.
    pub fn prediction(&self) -> (r: u8)
        ensures
            r == crossed_prediction(self.left_top, self.right_top, self.left_bot, self.right_bot),
    {
        let left = (self.left_top as u16 + self.left_bot as u16 + 1) / 2;
        let right = (self.right_bot as u16 + self.right_top as u16 + 1) / 2;
        let top = (self.right_top as u16 + self.left_top as u16 + 1) / 2;
        let bot = (self.right_bot as u16 + self.left_bot as u16 + 1) / 2;
        ((left + right + top + bot + 1) / 4) as u8
    }
}

impl Interpolator for Crossed {
    open spec fn spec_interpolate(
        &self,
        levels: int,
        level: int,
        x: u32,
        y: u32,
        s: Seq<u8>,
        width: u32,
        height: u32,
    ) -> u8 {
        let step = pow2((levels - level + 1) as nat) as int;
        let x0 = x - (x as int % step);
        let y0 = y - (y as int % step);
        crossed_prediction(
            corner_value(s, width, height, x0, y0),
            corner_value(s, width, height, x0, y0 + step),
            corner_value(s, width, height, x0 + step, y0),
            corner_value(s, width, height, x0 + step, y0 + step),
        )
    }

    fn interpolate(&self, levels: usize, level: usize, at: (u32, u32), surface: &Grid) -> (r: u8) {
        let (x, y) = at;
        let step = pow2_u64(levels - level + 1);
        proof {
            lemma_mod_decreases(x as nat, step as nat);
            lemma_mod_decreases(y as nat, step as nat);
        }
        let x0 = (x as u64) - (x as u64) % step;
        let y0 = (y as u64) - (y as u64) % step;
        let x1 = x0 + step;
        let y1 = y0 + step;
        let values = CrossedValues {
            left_top: read_corner(surface, x0, y0),
            right_top: read_corner(surface, x0, y1),
            left_bot: read_corner(surface, x1, y0),
            right_bot: read_corner(surface, x1, y1),
        };
        values.prediction()
    }
}

} // verus!
