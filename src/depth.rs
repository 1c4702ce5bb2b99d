use vstd::prelude::*;

use crate::arith::{lemma_flat_split, lemma_grid_index};

verus! {

/// A rectangular grey image that depth is read from, one luma byte per
/// pixel, row-major.
pub struct DepthSource {
    pub width: usize,
    pub height: usize,
    pub luma: Vec<u8>,
}

impl DepthSource {
    pub open spec fn wf(&self) -> bool {
        &&& self.luma@.len() == self.width * self.height
        &&& self.width <= i32::MAX
        &&& self.height <= i32::MAX
    }

    /// Luma at `(x, y)`, or `None` outside the image.
    pub open spec fn spec_sample(&self, x: int, y: int) -> Option<u8> {
        if 0 <= x < self.width && 0 <= y < self.height {
            Some(self.luma@[y * self.width + x])
        } else {
            None
        }
    }

    /// Depth at `(x, y)`: the luma there, and `0` (farthest) outside the image.
    pub open spec fn depth_at(&self, x: int, y: int) -> u8 {
        match self.spec_sample(x, y) {
            Some(v) => v,
            None => 0,
        }
    }

    pub fn sample_luma(&self, x: i64, y: i64) -> (r: Option<u8>)
        requires
            self.wf(),
        ensures
            r == self.spec_sample(x as int, y as int),
    {
        let len = self.luma.len();
        if 0 <= x && x < self.width as i64 && 0 <= y && y < self.height as i64 {
            proof {
                lemma_grid_index(x as int, y as int, self.width as int, self.height as int);
                assert(y * self.width + x < len);
            }
            Some(self.luma[y as usize * self.width + x as usize])
        } else {
            None
        }
    }
}

/// A grid of depth samples, one per output pixel, row-major. A sample `d`
/// stands for the normalised depth `d / 255`: `0` is farthest, `255` nearest.
pub struct Heightmap {
    pub width: usize,
    pub height: usize,
    pub pixels: Vec<u8>,
}

impl Heightmap {
    pub open spec fn wf(&self) -> bool {
        self.pixels@.len() == self.width * self.height
    }

    pub open spec fn spec_at(&self, x: int, y: int) -> u8 {
        self.pixels@[y * self.width + x]
    }

    /// A field of the given size in which every sample is farthest.
    pub fn new(width: usize, height: usize) -> (r: Heightmap)
        requires
            width * height <= usize::MAX,
        ensures
            r.wf(),
            r.width == width,
            r.height == height,
            forall|i: int| 0 <= i < r.pixels@.len() ==> r.pixels@[i] == 0,
    {
        let n: usize = width * height;
        let pixels: Vec<u8> = vec![0u8; n];
        Heightmap { width, height, pixels }
    }

    pub fn at(&self, x: usize, y: usize) -> (r: u8)
        requires
            self.wf(),
            x < self.width,
            y < self.height,
        ensures
            r == self.spec_at(x as int, y as int),
    {
        let len = self.pixels.len();
        proof {
            lemma_grid_index(x as int, y as int, self.width as int, self.height as int);
            assert(y * self.width + x < len);
        }
        self.pixels[y * self.width + x]
    }

    /// Re-reads every sample from `source`, panned by `(ox, oy)`: the sample
    /// at `(x, y)` becomes the source's luma at `(x - ox, y - oy)`, or `0`
    /// where that lies outside the source.
    pub fn update(&mut self, source: &DepthSource, ox: i32, oy: i32)
        requires
            old(self).wf(),
            old(self).width <= i32::MAX,
            old(self).height <= i32::MAX,
            source.wf(),
        ensures
            final(self).wf(),
            final(self).width == old(self).width,
            final(self).height == old(self).height,
            forall|x: int, y: int|
                0 <= x < final(self).width && 0 <= y < final(self).height
                    ==> #[trigger] final(self).spec_at(x, y) == source.depth_at(x - ox, y - oy),
    {
        let w = self.width;
        let h = self.height;
        let n = self.pixels.len();
        let mut i: usize = 0;
        while i < n
            invariant
                self.wf(),
                self.width == w,
                self.height == h,
                n == w * h,
                w <= i32::MAX,
                h <= i32::MAX,
                source.wf(),
                i <= n,
                forall|j: int|
                    0 <= j < i ==> #[trigger] self.pixels@[j] == source.depth_at(
                        j % (w as int) - ox,
                        j / (w as int) - oy,
                    ),
            decreases n - i,
        {
            proof {
                lemma_flat_split(i as int, w as int, h as int);
            }
            let x: usize = i % w;
            let y: usize = i / w;
            let sx: i64 = x as i64 - ox as i64;
            let sy: i64 = y as i64 - oy as i64;
            let d: u8 = match source.sample_luma(sx, sy) {
                Some(v) => v,
                None => 0,
            };
            self.pixels.set(i, d);
            i += 1;
        }
        proof {
            assert forall|x: int, y: int|
                0 <= x < w && 0 <= y < h implies #[trigger] self.spec_at(x, y) == source.depth_at(
                    x - ox,
                    y - oy,
                ) by {
                lemma_grid_index(x, y, w as int, h as int);
                let j = y * w + x;
                lemma_flat_split(j, w as int, h as int);
                assert(j % (w as int) == x && j / (w as int) == y) by (nonlinear_arith)
                    requires j == y * w + x, 0 <= x < w, 0 <= y, (j / (w as int)) * w + j % (w as int) == j, 0 <= j % (w as int) < w;
            }
        }
    }
}

} // verus!
