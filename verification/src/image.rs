//! The shared framebuffer: one cell per pixel, row-major. The cell type is a
//! parameter, so the indexing logic is verified independently of the color
//! representation the renderer uses.

use vstd::prelude::*;

verus! {

pub struct Image<P> {
    pub width: u32,
    pub height: u32,
    pub pixels: Vec<P>,
}

impl<P> Image<P> {
    /// One cell per pixel of a `width` by `height` image.
    pub open spec fn wf(&self) -> bool {
        self.pixels@.len() == (self.width as nat) * (self.height as nat)
    }

    pub open spec fn spec_width(&self) -> u32 {
        self.width
    }

    pub open spec fn spec_height(&self) -> u32 {
        self.height
    }

    pub fn width(&self) -> (w: u32)
        ensures
            w == self.spec_width(),
    {
        self.width
    }

    pub fn height(&self) -> (h: u32)
        ensures
            h == self.spec_height(),
    {
        self.height
    }

    /// Writes the cell a claimed pixel number owns.
    pub fn set_pixel(&mut self, index: usize, value: P)
        requires
            index < old(self).pixels@.len(),
        ensures
            final(self).pixels@ == old(self).pixels@.update(index as int, value),
            final(self).spec_width() == old(self).spec_width(),
            final(self).spec_height() == old(self).spec_height(),
            final(self).wf() == old(self).wf(),
    {
        self.pixels[index] = value;
    }
}

impl<P: Copy> Image<P> {
    /// A buffer of `width * height` cells, all holding `fill`.
    pub fn new(width: u32, height: u32, fill: P) -> (img: Image<P>)
        requires
            (width as nat) * (height as nat) <= usize::MAX,
        ensures
            img.wf(),
            img.spec_width() == width,
            img.spec_height() == height,
            forall|i: int| 0 <= i < img.pixels@.len() ==> img.pixels@[i] == fill,
    {
        let num_pixels = (width as usize) * (height as usize);
        let mut pixels: Vec<P> = Vec::new();
        for i in 0..num_pixels
            invariant
                pixels@.len() == i,
                forall|k: int| 0 <= k < i ==> pixels@[k] == fill,
        {
            pixels.push(fill);
        }
        Image { width, height, pixels }
    }

    /// The cell at `(x, y)`, or nothing when the row-major index falls
    /// outside the buffer.
    pub fn pixel(&self, x: u32, y: u32) -> (r: Option<P>)
        ensures
            r matches Some(p) ==> {
                &&& (x as nat) + (y as nat) * (self.spec_width() as nat) < self.pixels@.len()
                &&& p == self.pixels@[x as int + y as int * self.spec_width() as int]
            },
            r is None ==> (x as nat) + (y as nat) * (self.spec_width() as nat)
                >= self.pixels@.len(),
    {
        proof {
            assert((y as nat) * (self.width as nat) <= 0xFFFF_FFFF * 0xFFFF_FFFF)
                by (nonlinear_arith)
                requires y <= 0xFFFF_FFFFu32 && self.width <= 0xFFFF_FFFFu32;
        }
        let idx = x as u64 + y as u64 * self.width as u64;
        if idx < self.pixels.len() as u64 {
            Some(self.pixels[idx as usize])
        } else {
            None
        }
    }
}

} // verus!
