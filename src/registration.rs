//! Translational registration by the center of mass of bright pixels.

use crate::drizzle::{Raster, MAX_DIMENSION};
use vstd::prelude::*;

verus! {

/// A shift in whole pixels, horizontal and vertical.
#[derive(Debug, Copy, Clone, PartialEq, Eq, Structural)]
pub struct Offset {
    pub h: i32,
    pub v: i32,
}

/// Number of the first `k` samples of a plane at or above the threshold.
pub open spec fn bright_count(plane: Seq<i64>, threshold: int, k: int) -> int
    decreases k,
{
    if k <= 0 {
        0
    } else {
        bright_count(plane, threshold, k - 1) + if plane[k - 1] >= threshold {
            1int
        } else {
            0
        }
    }
}

/// Sum of the columns (`axis_x`) or rows of the first `k` samples of a
/// plane, `width` samples to a row, at or above the threshold.
pub open spec fn bright_sum(plane: Seq<i64>, width: int, threshold: int, k: int, axis_x: bool) -> int
    decreases k,
{
    if k <= 0 {
        0
    } else {
        let j = k - 1;
        bright_sum(plane, width, threshold, j, axis_x) + if plane[j] >= threshold {
            if axis_x {
                j % width
            } else {
                j / width
            }
        } else {
            0
        }
    }
}

/// `num / den` rounded to the nearest integer, halves away from zero.
pub open spec fn round_ratio(num: int, den: int) -> int {
    if num >= 0 {
        (2 * num + den) / (2 * den)
    } else {
        -((2 * -num + den) / (2 * den))
    }
}

/// How far the center of the frame lies from the centroid of the bright
/// pixels along one axis of `size` pixels: `size / 2 - sum / count`,
/// rounded; 0 when no pixel is bright.
pub open spec fn centering_shift(size: int, sum: int, count: int) -> int {
    if count == 0 {
        0
    } else {
        round_ratio(size * count - 2 * sum, 2 * count)
    }
}

fn round_ratio_exec(num: i128, den: i128) -> (r: i128)
    requires
        den > 0,
        -0x1_0000_0000_0000_0000 <= num <= 0x1_0000_0000_0000_0000,
        den <= 0x1_0000_0000_0000_0000,
    ensures
        r == round_ratio(num as int, den as int),
{
    if num >= 0 {
        (2 * num + den) / (2 * den)
    } else {
        -((2 * -num + den) / (2 * den))
    }
}

proof fn lemma_shift_numerator(size: int, sum: int, count: int)
    requires
        0 <= size <= MAX_DIMENSION,
        0 <= sum <= count * MAX_DIMENSION,
        1 <= count <= 0x4000_0000,
    ensures
        -(2 * count * MAX_DIMENSION) <= size * count - 2 * sum <= 2 * count * MAX_DIMENSION,
        2 * count * MAX_DIMENSION <= 0x1_0000_0000_0000_0000,
{
    assert(-(2 * count * MAX_DIMENSION) <= size * count - 2 * sum <= 2 * count * MAX_DIMENSION)
        by (nonlinear_arith)
        requires
            0 <= size <= MAX_DIMENSION,
            0 <= sum <= count * MAX_DIMENSION,
            count >= 1,
    ;
}

proof fn lemma_round_bound(num: int, den: int, m: int)
    requires
        den > 0,
        m >= 0,
        -(den * m) <= num <= den * m,
    ensures
        -(m + 1) <= round_ratio(num, den) <= m + 1,
{
    let a = if num >= 0 {
        num
    } else {
        -num
    };
    let q = (2 * a + den) / (2 * den);
    vstd::arithmetic::div_mod::lemma_fundamental_div_mod(2 * a + den, 2 * den);
    assert(0 <= q <= m + 1) by (nonlinear_arith)
        requires
            2 * a + den == (2 * den) * q + (2 * a + den) % (2 * den),
            0 <= (2 * a + den) % (2 * den) < 2 * den,
            0 <= a <= den * m,
            den > 0,
    ;
}

impl Raster {
    /// The shift that brings the centroid of the samples of `band` at or
    /// above `threshold` to the frame's center; (0, 0) when none is.
    pub fn calc_center_of_mass_offset(&self, threshold: i64, band: usize) -> (r: Offset)
        requires
            self.wf(),
            band < self.num_bands,
            self.width <= MAX_DIMENSION,
            self.height <= MAX_DIMENSION,
        ensures
            ({
                let n = self.width * self.height;
                let plane = self.samples@.subrange(band * n, band * n + n);
                let count = bright_count(plane, threshold as int, n);
                &&& r.h == centering_shift(
                    self.width as int,
                    bright_sum(plane, self.width as int, threshold as int, n, true),
                    count,
                )
                &&& r.v == centering_shift(
                    self.height as int,
                    bright_sum(plane, self.width as int, threshold as int, n, false),
                    count,
                )
            }),
    {
        let w = self.width;
        let _len = self.samples.len();
        proof {
            assert(self.width * self.height <= 0x4000_0000) by (nonlinear_arith)
                requires
                    self.width <= MAX_DIMENSION,
                    self.height <= MAX_DIMENSION,
            ;
        }
        let n = self.width * self.height;
        proof {
            assert(band * n + n <= self.num_bands * n) by (nonlinear_arith)
                requires
                    band < self.num_bands,
                    n >= 0,
            ;
            assert(n <= 0x4000_0000) by (nonlinear_arith)
                requires
                    n == self.width * self.height,
                    self.width <= MAX_DIMENSION,
                    self.height <= MAX_DIMENSION,
            ;
        }
        let base = band * n;
        let ghost plane = self.samples@.subrange(base as int, base + n);
        let mut count: u64 = 0;
        let mut sx: u64 = 0;
        let mut sy: u64 = 0;
        let mut j: usize = 0;
        let mut x: usize = 0;
        let mut y: usize = 0;
        while j < n
            invariant
                self.wf(),
                w == self.width,
                n == self.width * self.height,
                n <= 0x4000_0000,
                w <= MAX_DIMENSION,
                self.height <= MAX_DIMENSION,
                base + n <= self.samples@.len(),
                self.samples@.len() <= usize::MAX,
                plane == self.samples@.subrange(base as int, base + n),
                j <= n,
                w > 0 ==> x == (j as int) % (w as int) && y == (j as int) / (w as int),
                count == bright_count(plane, threshold as int, j as int),
                sx == bright_sum(plane, w as int, threshold as int, j as int, true),
                sy == bright_sum(plane, w as int, threshold as int, j as int, false),
                count <= j,
                sx <= count * MAX_DIMENSION,
                sy <= count * MAX_DIMENSION,
            decreases n - j,
        {
            proof {
                assert(w > 0) by (nonlinear_arith)
                    requires
                        j < n,
                        n == w * self.height,
                ;
                assert(y < MAX_DIMENSION) by (nonlinear_arith)
                    requires
                        y == (j as int) / (w as int),
                        j < w * self.height,
                        w > 0,
                        self.height <= MAX_DIMENSION,
                ;
            }
            if self.samples[base + j] >= threshold {
                count = count + 1;
                sx = sx + x as u64;
                sy = sy + y as u64;
            }
            proof {
                vstd::arithmetic::div_mod::lemma_fundamental_div_mod(j as int, w as int);
                if x + 1 == w {
                    assert(j + 1 == (y + 1) * w) by (nonlinear_arith)
                        requires
                            j == w * y + x,
                            x + 1 == w,
                    ;
                    vstd::arithmetic::div_mod::lemma_fundamental_div_mod_converse(
                        j + 1,
                        w as int,
                        y + 1,
                        0,
                    );
                } else {
                    assert(j + 1 == y * w + (x + 1)) by (nonlinear_arith)
                        requires
                            j == w * y + x,
                    ;
                    vstd::arithmetic::div_mod::lemma_fundamental_div_mod_converse(
                        j + 1,
                        w as int,
                        y as int,
                        x + 1,
                    );
                }
            }
            j += 1;
            if x + 1 == w {
                x = 0;
                y = y + 1;
            } else {
                x = x + 1;
            }
        }
        if count == 0 {
            return Offset { h: 0, v: 0 };
        }
        let c = count as i128;
        proof {
            lemma_shift_numerator(self.width as int, sx as int, c as int);
            lemma_shift_numerator(self.height as int, sy as int, c as int);
        }
        let nh = (self.width as i128) * c - 2 * (sx as i128);
        let nv = (self.height as i128) * c - 2 * (sy as i128);
        let h = round_ratio_exec(nh, 2 * c);
        let v = round_ratio_exec(nv, 2 * c);
        proof {
            lemma_round_bound(nh as int, 2 * c, MAX_DIMENSION as int);
            lemma_round_bound(nv as int, 2 * c, MAX_DIMENSION as int);
        }
        Offset { h: h as i32, v: v as i32 }
    }
}

} // verus!
