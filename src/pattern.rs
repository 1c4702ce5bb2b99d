use vstd::prelude::*;

use rand::rngs::StdRng;
use rand::Rng;

use crate::arith::{lemma_flat_split, lemma_grid_index};

verus! {

/// An opaque seeded random generator.
#[verifier::external_type_specification]
#[verifier::external_body]
pub struct ExStdRng(StdRng);

/// Relies on rand's `Rng::gen_range` over `0..=255`: a uniform draw, of
/// which nothing more can be stated.
#[verifier::external_body]
fn draw_noise(rng: &mut StdRng) -> (r: u8) {
    rng.gen_range(0..=255u8)
}

/// An 8-bit RGB colour.
#[derive(Clone, Copy, Debug, PartialEq, Eq, Structural)]
pub struct Rgb {
    pub r: u8,
    pub g: u8,
    pub b: u8,
}

/// Number of columns of the calibration marker block.
pub const MARKER_COLUMNS: usize = 4;

/// Number of rows of the calibration marker block.
pub const MARKER_ROWS: usize = 8;

/// The colour of the calibration marker block: pure blue.
pub open spec fn marker_color() -> Rgb {
    Rgb { r: 0, g: 0, b: 255 }
}

pub open spec fn gray(v: u8) -> Rgb {
    Rgb { r: v, g: v, b: v }
}

pub open spec fn in_marker(x: int, y: int) -> bool {
    x < MARKER_COLUMNS && y < MARKER_ROWS
}

/// The narrow repeating tile of noise that seeds each output row.
pub struct PatternTile {
    pub width: usize,
    pub height: usize,
    pub pixels: Vec<Rgb>,
}

impl PatternTile {
    pub open spec fn wf(&self) -> bool {
        &&& self.width > 0
        &&& self.height > 0
        &&& self.pixels@.len() == self.width * self.height
    }

    pub open spec fn spec_at(&self, x: int, y: int) -> Rgb {
        self.pixels@[y * self.width + x]
    }

    /// The colour that noise value `v` gives at flat index `i`.
    pub open spec fn filled(&self, i: int, v: u8) -> Rgb {
        if in_marker(i % (self.width as int), i / (self.width as int)) {
            marker_color()
        } else {
            gray(v)
        }
    }

    /// A black tile of the given size.
    pub fn new(width: usize, height: usize) -> (r: PatternTile)
        requires
            width > 0,
            height > 0,
            width * height <= usize::MAX,
        ensures
            r.wf(),
            r.width == width,
            r.height == height,
            forall|i: int| 0 <= i < r.pixels@.len() ==> r.pixels@[i] == (Rgb { r: 0, g: 0, b: 0 }),
    {
        let n: usize = width * height;
        let pixels: Vec<Rgb> = vec![Rgb { r: 0, g: 0, b: 0 }; n];
        PatternTile { width, height, pixels }
    }

    pub fn at(&self, x: usize, y: usize) -> (r: Rgb)
        requires
            self.wf(),
            x < self.width,
            y < self.height,
        ensures
            r == self.spec_at(x as int, y as int),
    {
        let len = self.pixels.len();
        proof {
            lemma_grid_index(x as int, y as int, self.width as int, self.height as int);
            assert(y * self.width + x < len);
        }
        self.pixels[y * self.width + x]
    }

    /// Paints the tile from `noise`, one grey value per pixel in row-major
    /// order, then overwrites the top-left marker block with the marker colour.
    pub fn fill(&mut self, noise: &Vec<u8>)
        requires
            old(self).wf(),
            noise@.len() == old(self).pixels@.len(),
        ensures
            final(self).wf(),
            final(self).width == old(self).width,
            final(self).height == old(self).height,
            forall|i: int|
                0 <= i < noise@.len() ==> #[trigger] final(self).pixels@[i] == final(self).filled(
                    i,
                    noise@[i],
                ),
    {
        let w = self.width;
        let h = self.height;
        let n = self.pixels.len();
        let mut i: usize = 0;
        while i < n
            invariant
                self.wf(),
                self.width == w,
                self.height == h,
                n == w * h,
                noise@.len() == n,
                i <= n,
                forall|j: int| 0 <= j < i ==> #[trigger] self.pixels@[j] == self.filled(j, noise@[j]),
            decreases n - i,
        {
            proof {
                lemma_flat_split(i as int, w as int, h as int);
            }
            let x: usize = i % w;
            let y: usize = i / w;
            let c = if x < MARKER_COLUMNS && y < MARKER_ROWS {
                Rgb { r: 0, g: 0, b: 255 }
            } else {
                let v = noise[i];
                Rgb { r: v, g: v, b: v }
            };
            self.pixels.set(i, c);
            i += 1;
        }
    }

    /// Redraws every pixel as fresh uniform grey noise from `rng`, then paints
    /// the marker block.
    pub fn refresh(&mut self, rng: &mut StdRng)
        requires
            old(self).wf(),
        ensures
            final(self).wf(),
            final(self).width == old(self).width,
            final(self).height == old(self).height,
            forall|x: int, y: int|
                0 <= x < final(self).width && 0 <= y < final(self).height && in_marker(x, y)
                    ==> #[trigger] final(self).spec_at(x, y) == marker_color(),
            forall|x: int, y: int|
                0 <= x < final(self).width && 0 <= y < final(self).height && !in_marker(x, y)
                    ==> #[trigger] final(self).spec_at(x, y) == gray(final(self).spec_at(x, y).r),
    {
        let n = self.pixels.len();
        let mut noise: Vec<u8> = Vec::new();
        while noise.len() < n
            invariant
                noise@.len() <= n,
            decreases n - noise@.len(),
        {
            let v = draw_noise(rng);
            noise.push(v);
        }
        self.fill(&noise);
        let w = self.width;
        let h = self.height;
        proof {
            assert forall|x: int, y: int|
                0 <= x < w && 0 <= y < h implies #[trigger] self.spec_at(x, y) == self.filled(
                    y * w + x,
                    noise@[y * w + x],
                ) && (y * w + x) % (w as int) == x && (y * w + x) / (w as int) == y by {
                lemma_grid_index(x, y, w as int, h as int);
                let j = y * w + x;
                lemma_flat_split(j, w as int, h as int);
                assert(j % (w as int) == x && j / (w as int) == y) by (nonlinear_arith)
                    requires j == y * w + x, 0 <= x < w, 0 <= y, (j / (w as int)) * w + j % (w as int) == j, 0 <= j % (w as int) < w;
            }
        }
    }
}

} // verus!
