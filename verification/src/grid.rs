//! The two-dimensional byte buffer that both codec passes reconstruct into:
//! the prediction surface. Values are stored row-major, one byte per pixel.

use vstd::prelude::*;

verus! {

/// Row-major position of pixel `(x, y)` in a buffer that is `width` wide.
pub open spec fn pix_index(width: u32, x: u32, y: u32) -> int {
    y * width + x
}

/// A fully zeroed surface of `len` bytes.
pub open spec fn zero_seq(len: nat) -> Seq<u8> {
    Seq::new(len, |i: int| 0u8)
}

#[verifier::nonlinear]
pub proof fn lemma_pix_index_bounds(width: u32, height: u32, x: u32, y: u32)
    requires
        x < width,
        y < height,
    ensures
        0 <= pix_index(width, x, y) < width * height,
        y * width <= (height - 1) * width,
{
}

/// A `width` × `height` grayscale pixel buffer. It serves both as the codec's
/// input/output image and as the prediction surface that encode and decode
/// keep bit-for-bit synchronized.
#[derive(Debug)]
pub struct Grid {
    buffer: Vec<u8>,
    width: u32,
    height: u32,
}

impl View for Grid {
    type V = Seq<u8>;

    closed spec fn view(&self) -> Seq<u8> {
        self.buffer@
    }
}

impl Grid {
    pub closed spec fn spec_width(&self) -> u32 {
        self.width
    }

    pub closed spec fn spec_height(&self) -> u32 {
        self.height
    }

    /// The buffer holds exactly one byte per pixel.
    pub open spec fn wf(&self) -> bool {
        &&& self@.len() == self.spec_width() * self.spec_height()
        &&& self.spec_width() * self.spec_height() <= usize::MAX
    }

    /// A fresh, all-zero surface.
    pub fn new(width: u32, height: u32) -> (r: Grid)
        requires
            width * height <= usize::MAX,
        ensures
            r.wf(),
            r.spec_width() == width,
            r.spec_height() == height,
            r@ == zero_seq((width * height) as nat),
    {
        let size: usize = (width as usize) * (height as usize);
        let mut buffer: Vec<u8> = Vec::new();
        while buffer.len() < size
            invariant
                buffer@.len() <= size,
                buffer@ == zero_seq(buffer@.len()).subrange(0, buffer@.len() as int),
            decreases size - buffer@.len(),
        {
            buffer.push(0u8);
            proof {
                assert(buffer@ =~= zero_seq(buffer@.len()).subrange(0, buffer@.len() as int));
            }
        }
        proof {
            assert(buffer@ =~= zero_seq((width * height) as nat));
        }
        Grid { buffer, width, height }
    }

    pub fn width(&self) -> (r: u32)
        ensures
            r == self.spec_width(),
    {
        self.width
    }

    pub fn height(&self) -> (r: u32)
        ensures
            r == self.spec_height(),
    {
        self.height
    }

    /// Read the pixel at `(column, line)`.
    pub fn get(&self, column: u32, line: u32) -> (r: u8)
        requires
            self.wf(),
            column < self.spec_width(),
            line < self.spec_height(),
        ensures
            r == self@[pix_index(self.spec_width(), column, line)],
    {
        proof {
            lemma_pix_index_bounds(self.width, self.height, column, line);
        }
        let i: usize = (line as usize) * (self.width as usize) + (column as usize);
        self.buffer[i]
    }

    /// Overwrite the pixel at `(column, line)`.
    pub fn set(&mut self, at: (u32, u32), value: u8)
        requires
            old(self).wf(),
            at.0 < old(self).spec_width(),
            at.1 < old(self).spec_height(),
        ensures
            final(self).wf(),
            final(self).spec_width() == old(self).spec_width(),
            final(self).spec_height() == old(self).spec_height(),
            final(self)@ == old(self)@.update(
                pix_index(old(self).spec_width(), at.0, at.1),
                value,
            ),
    {
        let (column, line) = at;
        proof {
            lemma_pix_index_bounds(self.width, self.height, column, line);
        }
        let i: usize = (line as usize) * (self.width as usize) + (column as usize);
        self.buffer.set(i, value);
    }
}

} // verus!
