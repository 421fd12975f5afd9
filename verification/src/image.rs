//! The decoded image: dimensions, declared maximum sample value, and the
//! raw samples in row-major order.  The normalized luminance of a pixel
//! is the exact rational `sample / max_value`, a value in `[0, 1]`.

use vstd::prelude::*;
use vstd::arithmetic::mul::lemma_mul_inequality;
use crate::pgm::PgmModel;

verus! {

/// A dense grayscale pixel grid, decoded once from a bitmap buffer and
/// immutable thereafter.  Sample `k` sits at column `k % width` of row
/// `k / width`.
#[derive(Debug)]
pub struct Image {
    pub width: u32,
    pub height: u32,
    pub max_value: u32,
    pub samples: Vec<u32>,
}

impl Image {
    /// The mathematical content of the image.
    pub open spec fn model(self) -> PgmModel {
        PgmModel {
            width: self.width as int,
            height: self.height as int,
            max_value: self.max_value as int,
            samples: self.samples@.map_values(|v: u32| v as int),
        }
    }

    /// Well-formed: positive dimensions and maximum, one sample per
    /// pixel, every sample at most the maximum.
    pub open spec fn wf(self) -> bool {
        self.model().wf()
    }

    /// The raw sample of column `x`, row `y`.
    pub open spec fn sample(self, x: int, y: int) -> int {
        self.model().samples[y * self.width + x]
    }

    /// Reads the sample of column `x`, row `y`.
    pub fn get(&self, x: u32, y: u32) -> (r: u32)
        requires
            self.wf(),
            x < self.width,
            y < self.height,
        ensures
            r as int == self.sample(x as int, y as int),
            r <= self.max_value,
    {
        proof {
            lemma_mul_inequality(y as int, self.height as int - 1, self.width as int);
            assert((self.height as int - 1) * self.width as int + self.width as int
                == self.height as int * self.width as int) by (nonlinear_arith);
            assert(self.height as int * self.width as int
                == self.width as int * self.height as int) by (nonlinear_arith);
        }
        let n: usize = self.samples.len();
        proof {
            assert(n as int == self.width as int * self.height as int);
            assert((y as int * self.width as int + x as int) < n as int);
        }
        let idx: usize = (y as usize) * (self.width as usize) + (x as usize);
        proof {
            assert(0 <= self.model().samples[idx as int] <= self.max_value as int);
        }
        self.samples[idx]
    }
}

} // verus!
