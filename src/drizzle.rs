//! Bilinear drizzle: frames resampled onto an output grid, possibly
//! upscaled, and accumulated into per-band sums with one hit count per
//! output pixel, so that each pixel's mean is its sum over its hit count.
//!
//! Samples are fixed-point integers whose unit the caller picks.
//! Coordinates and interpolation weights are counted in 1/65536 of a pixel.

use crate::registration::Offset;
use vstd::arithmetic::div_mod::{lemma_fundamental_div_mod, lemma_fundamental_div_mod_converse};
use vstd::prelude::*;

verus! {

/// One pixel in fixed point.
pub const FRAC_ONE: i64 = 65536;

/// Bound on the magnitude of a sample.
pub const SAMPLE_LIMIT: i64 = 0x8000_0000;

/// Largest width or height of an input frame.
pub const MAX_DIMENSION: usize = 32768;

/// Largest number of bands.
pub const MAX_BANDS: usize = 4;

/// Largest number of frames one accumulator takes.
pub const MAX_FRAMES: usize = 0x8000_0000;

/// Supported drizzle scalings.
#[derive(Debug, Copy, Clone, PartialEq, Eq, Structural)]
pub enum Scale {
    Scale1_0,
    Scale1_5,
    Scale2_0,
    Scale3_0,
}

impl Scale {
    /// The scale factor in halves.
    pub open spec fn halves_spec(self) -> int {
        match self {
            Scale::Scale1_0 => 2,
            Scale::Scale1_5 => 3,
            Scale::Scale2_0 => 4,
            Scale::Scale3_0 => 6,
        }
    }

    pub fn halves(&self) -> (r: usize)
        ensures
            r == self.halves_spec(),
    {
        match self {
            Scale::Scale1_0 => 2,
            Scale::Scale1_5 => 3,
            Scale::Scale2_0 => 4,
            Scale::Scale3_0 => 6,
        }
    }
}

/// A size scaled up, rounded up.
pub open spec fn scaled_size(n: int, scale: Scale) -> int {
    (n * scale.halves_spec() + 1) / 2
}

/// A rotation as cosine and sine in fixed point.
#[derive(Debug, Copy, Clone, PartialEq, Eq, Structural)]
pub struct Rotation {
    pub cos: i32,
    pub sin: i32,
}

impl Rotation {
    pub open spec fn wf(&self) -> bool {
        -FRAC_ONE <= self.cos <= FRAC_ONE && -FRAC_ONE <= self.sin <= FRAC_ONE
    }

    pub fn identity() -> (r: Rotation)
        ensures
            r.cos == FRAC_ONE,
            r.sin == 0,
            r.wf(),
    {
        Rotation { cos: 65536, sin: 0 }
    }
}

/// A multi-band image: `num_bands` planes of `width * height` samples,
/// each plane in row-major order, one plane after the other.
pub struct Raster {
    pub width: usize,
    pub height: usize,
    pub num_bands: usize,
    pub samples: Vec<i64>,
}

impl Raster {
    pub open spec fn wf(&self) -> bool {
        &&& 1 <= self.num_bands <= MAX_BANDS
        &&& self.samples@.len() == self.num_bands * (self.width * self.height)
    }

    /// Every sample is at most `SAMPLE_LIMIT` in magnitude.
    pub open spec fn bounded(&self) -> bool {
        forall|i: int|
            0 <= i < self.samples@.len() ==> -SAMPLE_LIMIT <= #[trigger] self.samples@[i]
                <= SAMPLE_LIMIT
    }
}

/// Where output sample `j` of the `width` by `height` window at
/// (`left_x`, `top_y`) of `r` lies in `r`'s samples.
pub open spec fn window_index(r: Raster, left_x: int, top_y: int, width: int, height: int, j: int) -> int {
    let n = width * height;
    let b = j / n;
    let p = j % n;
    b * (r.width * r.height) + (top_y + p / width) * r.width + left_x + p % width
}

impl Raster {
    /// The `width` by `height` window of the image whose top-left corner is
    /// at (`left_x`, `top_y`).
    pub fn get_subframe(&self, left_x: usize, top_y: usize, width: usize, height: usize) -> (r: Raster)
        requires
            self.wf(),
            left_x + width <= self.width,
            top_y + height <= self.height,
        ensures
            r.wf(),
            r.width == width,
            r.height == height,
            r.num_bands == self.num_bands,
            forall|j: int|
                0 <= j < r.samples@.len() ==> #[trigger] r.samples@[j] == self.samples@[window_index(
                    *self,
                    left_x as int,
                    top_y as int,
                    width as int,
                    height as int,
                    j,
                )],
    {
        let _len = self.samples.len();
        let sw = self.width;
        proof {
            lemma_plane_fits(self.num_bands as int, self.width * self.height);
        }
        let sn = self.width * self.height;
        proof {
            assert(width * height <= sn) by (nonlinear_arith)
                requires
                    width <= self.width,
                    height <= self.height,
                    sn == self.width * self.height,
            ;
        }
        let n = width * height;
        let nb = self.num_bands;
        let mut out: Vec<i64> = Vec::new();
        let mut b: usize = 0;
        while b < nb
            invariant
                self.wf(),
                nb == self.num_bands,
                sw == self.width,
                sn == self.width * self.height,
                n == width * height,
                n <= sn,
                nb * sn <= usize::MAX,
                left_x + width <= self.width,
                top_y + height <= self.height,
                b <= nb,
                out@.len() == b * n,
                forall|j: int|
                    0 <= j < out@.len() ==> #[trigger] out@[j] == self.samples@[window_index(
                        *self,
                        left_x as int,
                        top_y as int,
                        width as int,
                        height as int,
                        j,
                    )],
            decreases nb - b,
        {
            let mut y: usize = 0;
            while y < height
                invariant
                    self.wf(),
                    nb == self.num_bands,
                    sw == self.width,
                    sn == self.width * self.height,
                    n == width * height,
                    n <= sn,
                    nb * sn <= usize::MAX,
                    left_x + width <= self.width,
                    top_y + height <= self.height,
                    b < nb,
                    y <= height,
                    out@.len() == b * n + y * width,
                    forall|j: int|
                        0 <= j < out@.len() ==> #[trigger] out@[j] == self.samples@[window_index(
                            *self,
                            left_x as int,
                            top_y as int,
                            width as int,
                            height as int,
                            j,
                        )],
                decreases height - y,
            {
                let mut x: usize = 0;
                while x < width
                    invariant
                        self.wf(),
                        nb == self.num_bands,
                        sw == self.width,
                        sn == self.width * self.height,
                        n == width * height,
                        n <= sn,
                        nb * sn <= usize::MAX,
                        left_x + width <= self.width,
                        top_y + height <= self.height,
                        b < nb,
                        y < height,
                        x <= width,
                        out@.len() == b * n + y * width + x,
                        forall|j: int|
                            0 <= j < out@.len() ==> #[trigger] out@[j] == self.samples@[window_index(
                                *self,
                                left_x as int,
                                top_y as int,
                                width as int,
                                height as int,
                                j,
                            )],
                    decreases width - x,
                {
                    proof {
                        lemma_index_in_plane(self.width as int, self.height as int, (left_x + x) as int, (top_y + y) as int);
                        lemma_band_offset(b as int, sn as int, (top_y + y) * self.width + left_x + x, nb as int);
                        lemma_index_in_plane(width as int, height as int, x as int, y as int);
                        let p = y * width + x;
                        let j = b * n + p;
                        lemma_band_offset(b as int, n as int, p, nb as int);
                        lemma_fundamental_div_mod_converse(p, width as int, y as int, x as int);
                        assert(window_index(*self, left_x as int, top_y as int, width as int, height as int, j)
                            == b * sn + (top_y + y) * self.width + left_x + x);
                    }
                    let v = self.samples[b * sn + (top_y + y) * sw + left_x + x];
                    out.push(v);
                    x += 1;
                }
                proof {
                    assert((y + 1) * width == y * width + width) by (nonlinear_arith);
                }
                y += 1;
            }
            proof {
                assert((b + 1) * n == b * n + height * width) by (nonlinear_arith)
                    requires
                        n == width * height,
                ;
            }
            b += 1;
        }
        Raster { width, height, num_bands: nb, samples: out }
    }

    /// The centered `width` by `height` window of the image.
    pub fn crop(&self, width: usize, height: usize) -> (r: Raster)
        requires
            self.wf(),
            width <= self.width,
            height <= self.height,
        ensures
            r.wf(),
            r.width == width,
            r.height == height,
            r.num_bands == self.num_bands,
            forall|j: int|
                0 <= j < r.samples@.len() ==> #[trigger] r.samples@[j] == self.samples@[window_index(
                    *self,
                    (self.width - width) / 2,
                    (self.height - height) / 2,
                    width as int,
                    height as int,
                    j,
                )],
    {
        self.get_subframe((self.width - width) / 2, (self.height - height) / 2, width, height)
    }
}

/// A length scaled up by the drizzle factor, rounded up.
pub fn scaled_length(n: usize, scale: Scale) -> (r: usize)
    requires
        n <= MAX_DIMENSION,
    ensures
        r == scaled_size(n as int, scale),
{
    (n * scale.halves() + 1) / 2
}

#[derive(Debug, Copy, Clone, PartialEq, Eq, Structural)]
pub enum DrizzleError {
    /// The frame's size or bands do not fit the accumulator, or two
    /// accumulators differ in size.
    DimensionMismatch,
    /// Nothing was added.
    NoFrames,
}

/// The state of an accumulator.
pub ghost struct DrizzleView {
    pub in_width: int,
    pub in_height: int,
    pub out_width: int,
    pub out_height: int,
    pub num_bands: int,
    /// Band-major sums at output resolution.
    pub sums: Seq<int>,
    /// One hit count per output pixel.
    pub hits: Seq<int>,
    pub frames: int,
}

/// What one frame adds to an accumulator.
pub ghost struct Contribution {
    pub sums: Seq<int>,
    pub hits: Seq<int>,
}

impl DrizzleView {
    pub open spec fn pixels(self) -> int {
        self.out_width * self.out_height
    }

    pub open spec fn shaped(self) -> bool {
        &&& self.out_width >= 0
        &&& self.out_height >= 0
        &&& self.num_bands >= 1
        &&& self.sums.len() == self.num_bands * self.pixels()
        &&& self.hits.len() == self.pixels()
    }

    pub open spec fn same_shape(self, other: DrizzleView) -> bool {
        &&& self.in_width == other.in_width
        &&& self.in_height == other.in_height
        &&& self.out_width == other.out_width
        &&& self.out_height == other.out_height
        &&& self.num_bands == other.num_bands
        &&& self.sums.len() == other.sums.len()
        &&& self.hits.len() == other.hits.len()
    }
}

/// An empty accumulator.
pub open spec fn empty_view(in_width: int, in_height: int, scale: Scale, num_bands: int) -> DrizzleView {
    let ow = scaled_size(in_width, scale);
    let oh = scaled_size(in_height, scale);
    DrizzleView {
        in_width,
        in_height,
        out_width: ow,
        out_height: oh,
        num_bands,
        sums: Seq::new((num_bands * (ow * oh)) as nat, |i: int| 0),
        hits: Seq::new((ow * oh) as nat, |i: int| 0),
        frames: 0,
    }
}

pub open spec fn add_contribution(v: DrizzleView, c: Contribution) -> DrizzleView {
    DrizzleView {
        sums: Seq::new(v.sums.len(), |i: int| v.sums[i] + c.sums[i]),
        hits: Seq::new(v.hits.len(), |p: int| v.hits[p] + c.hits[p]),
        frames: v.frames + 1,
        ..v
    }
}

/// Merging two accumulators sums their sums, hit counts and frame counts.
pub open spec fn merge_views(a: DrizzleView, b: DrizzleView) -> DrizzleView {
    DrizzleView {
        sums: Seq::new(a.sums.len(), |i: int| a.sums[i] + b.sums[i]),
        hits: Seq::new(a.hits.len(), |p: int| a.hits[p] + b.hits[p]),
        frames: a.frames + b.frames,
        ..a
    }
}

/// Each output pixel's mean: its sum over its hit count, rounded down, and
/// 0 where nothing hit it.
pub open spec fn finalized(v: DrizzleView) -> Seq<int> {
    Seq::new(
        v.sums.len(),
        |i: int|
            {
                let d = v.hits[i % v.pixels()];
                if d == 0 {
                    0
                } else {
                    v.sums[i] / d
                }
            },
    )
}

/// The fixed-point input coordinate of output column or row `x`.
pub open spec fn input_coord(x: int, out_size: int, in_size: int) -> int {
    (x * in_size * FRAC_ONE) / out_size
}

/// Where output pixel (x, y) samples the frame, in fixed point: the point
/// on the input grid, rotated about the frame's center, less the offset.
pub open spec fn source_point(
    v: DrizzleView,
    x: int,
    y: int,
    offset: Offset,
    rot: Rotation,
) -> (int, int) {
    let cx = (v.in_width / 2) * FRAC_ONE;
    let cy = (v.in_height / 2) * FRAC_ONE;
    let dx = input_coord(x, v.out_width, v.in_width) - cx;
    let dy = input_coord(y, v.out_height, v.in_height) - cy;
    let rx = (dx * rot.cos + dy * rot.sin) / (FRAC_ONE as int);
    let ry = (dy * rot.cos - dx * rot.sin) / (FRAC_ONE as int);
    (rx + cx - offset.h * FRAC_ONE, ry + cy - offset.v * FRAC_ONE)
}

/// The four input pixels around a point and the point's fractional
/// position between them.
#[derive(Debug, Copy, Clone, PartialEq, Eq, Structural)]
pub struct Corners {
    pub x0: usize,
    pub x1: usize,
    pub y0: usize,
    pub y1: usize,
    pub fx: i64,
    pub fy: i64,
}

/// The corners of a fixed-point point on a `w` by `h` grid: floor and
/// ceiling in each direction, the ceiling replaced by the floor where it
/// leaves the grid; none for a point left of, above, or beyond the grid.
pub open spec fn locate(w: int, h: int, px: int, py: int) -> Option<Corners> {
    if px < 0 || py < 0 {
        None
    } else {
        let x0 = px / (FRAC_ONE as int);
        let y0 = py / (FRAC_ONE as int);
        let fx = px % (FRAC_ONE as int);
        let fy = py % (FRAC_ONE as int);
        if x0 >= w || y0 >= h {
            None
        } else {
            let xc = if fx > 0 {
                x0 + 1
            } else {
                x0
            };
            let yc = if fy > 0 {
                y0 + 1
            } else {
                y0
            };
            Some(
                Corners {
                    x0: x0 as usize,
                    x1: (if xc < w {
                        xc
                    } else {
                        x0
                    }) as usize,
                    y0: y0 as usize,
                    y1: (if yc < h {
                        yc
                    } else {
                        y0
                    }) as usize,
                    fx: fx as i64,
                    fy: fy as i64,
                },
            )
        }
    }
}

/// Bilinear interpolation of plane `band` at the corners, rounded down.
pub open spec fn blend(r: Raster, band: int, c: Corners) -> int {
    let w = r.width as int;
    let base = band * (w * r.height);
    let v00 = r.samples@[base + c.y0 * w + c.x0] as int;
    let v01 = r.samples@[base + c.y0 * w + c.x1] as int;
    let v10 = r.samples@[base + c.y1 * w + c.x0] as int;
    let v11 = r.samples@[base + c.y1 * w + c.x1] as int;
    let v0 = v10 * c.fy + v00 * (FRAC_ONE - c.fy);
    let v1 = v11 * c.fy + v01 * (FRAC_ONE - c.fy);
    (v1 * c.fx + v0 * (FRAC_ONE - c.fx)) / (FRAC_ONE * FRAC_ONE)
}

/// The corners that output pixel `p` samples, if any.
pub open spec fn pixel_corners(v: DrizzleView, r: Raster, offset: Offset, rot: Rotation, p: int) -> Option<
    Corners,
> {
    let (px, py) = source_point(v, p % v.out_width, p / v.out_width, offset, rot);
    locate(r.width as int, r.height as int, px, py)
}

/// The frame's plane that feeds output band `b`: a single-band frame
/// feeds every band.
pub open spec fn source_band(r: Raster, b: int) -> int {
    if r.num_bands == 1 {
        0
    } else {
        b
    }
}

/// What adding frame `r` with the given offset and rotation contributes:
/// at each output pixel whose source point lies on the frame, the
/// interpolated value to each band and one hit.
pub open spec fn contribution(v: DrizzleView, r: Raster, offset: Offset, rot: Rotation) -> Contribution {
    Contribution {
        sums: Seq::new(
            v.sums.len(),
            |i: int|
                match pixel_corners(v, r, offset, rot, i % v.pixels()) {
                    Some(c) => blend(r, source_band(r, i / v.pixels()), c),
                    None => 0,
                },
        ),
        hits: Seq::new(
            v.hits.len(),
            |p: int|
                if pixel_corners(v, r, offset, rot, p) is Some {
                    1
                } else {
                    0
                },
        ),
    }
}

/// The frame fits an accumulator of this shape: same size, and either as
/// many bands or a single one.
pub open spec fn frame_fits(v: DrizzleView, r: Raster) -> bool {
    r.width == v.in_width && r.height == v.in_height && (r.num_bands == v.num_bands
        || r.num_bands == 1)
}

/// Rounds down `a / d`.
fn floor_div(a: i128, d: i128) -> (r: i128)
    requires
        d > 0,
    ensures
        r == a / d,
{
    if a >= 0 {
        a / d
    } else {
        let neg = -(a + 1);
        let q = neg / d;
        proof {
            lemma_fundamental_div_mod(neg as int, d as int);
            let m = neg % d;
            assert(a == (-q - 1) * d + (d - 1 - m)) by (nonlinear_arith)
                requires
                    neg == d * q + m,
                    a == -(neg + 1),
            ;
            lemma_fundamental_div_mod_converse(a as int, d as int, -q - 1, d - 1 - m);
        }
        -q - 1
    }
}

fn locate_exec(w: usize, h: usize, px: i64, py: i64) -> (r: Option<Corners>)
    requires
        w <= MAX_DIMENSION,
        h <= MAX_DIMENSION,
    ensures
        r == locate(w as int, h as int, px as int, py as int),
{
    if px < 0 || py < 0 {
        return None;
    }
    let x0 = px / FRAC_ONE;
    let y0 = py / FRAC_ONE;
    let fx = px % FRAC_ONE;
    let fy = py % FRAC_ONE;
    if x0 >= w as i64 || y0 >= h as i64 {
        return None;
    }
    let xc = if fx > 0 {
        x0 + 1
    } else {
        x0
    };
    let yc = if fy > 0 {
        y0 + 1
    } else {
        y0
    };
    Some(
        Corners {
            x0: x0 as usize,
            x1: (if xc < w as i64 {
                xc
            } else {
                x0
            }) as usize,
            y0: y0 as usize,
            y1: (if yc < h as i64 {
                yc
            } else {
                y0
            }) as usize,
            fx,
            fy,
        },
    )
}

proof fn lemma_corners_in_grid(w: int, h: int, px: int, py: int)
    requires
        locate(w, h, px, py) is Some,
    ensures
        ({
            let c = locate(w, h, px, py)->Some_0;
            &&& c.x0 < w
            &&& c.x1 < w
            &&& c.y0 < h
            &&& c.y1 < h
            &&& 0 <= c.fx < FRAC_ONE
            &&& 0 <= c.fy < FRAC_ONE
        }),
{
}

proof fn lemma_index_in_plane(w: int, h: int, x: int, y: int)
    requires
        0 <= x < w,
        0 <= y < h,
    ensures
        0 <= y * w + x < w * h,
{
    assert(y * w + x < w * h) by (nonlinear_arith)
        requires
            0 <= x < w,
            0 <= y < h,
    ;
    assert(y * w >= 0) by (nonlinear_arith)
        requires
            0 <= y,
            0 <= w,
    ;
}

proof fn lemma_band_offset(b: int, n: int, p: int, nb: int)
    requires
        0 <= b < nb,
        0 <= p < n,
    ensures
        0 <= b * n + p < nb * n,
        (b * n + p) % n == p,
        (b * n + p) / n == b,
{
    assert(b * n + p < nb * n) by (nonlinear_arith)
        requires
            0 <= b < nb,
            0 <= p < n,
    ;
    assert(b * n >= 0) by (nonlinear_arith)
        requires
            0 <= b,
            0 <= n,
    ;
    lemma_fundamental_div_mod_converse(b * n + p, n, b, p);
}

/// Interpolates plane `band` of the frame at the corners.
fn blend_exec(r: &Raster, band: usize, c: Corners) -> (v: i64)
    requires
        r.wf(),
        r.bounded(),
        band < r.num_bands,
        c.x0 < r.width,
        c.x1 < r.width,
        c.y0 < r.height,
        c.y1 < r.height,
        0 <= c.fx < FRAC_ONE,
        0 <= c.fy < FRAC_ONE,
    ensures
        v == blend(*r, band as int, c),
        -SAMPLE_LIMIT <= v <= SAMPLE_LIMIT,
{
    let w = r.width;
    let _len = r.samples.len();
    proof {
        lemma_plane_fits(r.num_bands as int, (r.width * r.height) as int);
    }
    let n = r.width * r.height;
    proof {
        lemma_index_in_plane(w as int, r.height as int, c.x0 as int, c.y0 as int);
        lemma_index_in_plane(w as int, r.height as int, c.x1 as int, c.y0 as int);
        lemma_index_in_plane(w as int, r.height as int, c.x0 as int, c.y1 as int);
        lemma_index_in_plane(w as int, r.height as int, c.x1 as int, c.y1 as int);
        lemma_band_offset(band as int, n as int, c.y0 * w + c.x0, r.num_bands as int);
        lemma_band_offset(band as int, n as int, c.y0 * w + c.x1, r.num_bands as int);
        lemma_band_offset(band as int, n as int, c.y1 * w + c.x0, r.num_bands as int);
        lemma_band_offset(band as int, n as int, c.y1 * w + c.x1, r.num_bands as int);
    }
    let base = band * n;
    let v00 = r.samples[base + c.y0 * w + c.x0] as i128;
    let v01 = r.samples[base + c.y0 * w + c.x1] as i128;
    let v10 = r.samples[base + c.y1 * w + c.x0] as i128;
    let v11 = r.samples[base + c.y1 * w + c.x1] as i128;
    let one: i128 = 65536;
    let fx = c.fx as i128;
    let fy = c.fy as i128;
    let lim: i128 = 0x8000_0000;
    proof {
        lemma_convex(v10 as int, v00 as int, fy as int, lim as int);
        lemma_convex(v11 as int, v01 as int, fy as int, lim as int);
    }
    let v0 = v10 * fy + v00 * (one - fy);
    let v1 = v11 * fy + v01 * (one - fy);
    proof {
        lemma_convex(v1 as int, v0 as int, fx as int, lim * one);
    }
    let vv = v1 * fx + v0 * (one - fx);
    let q = floor_div(vv, one * one);
    proof {
        assert(-lim <= q <= lim) by {
            let s2 = (one * one) as int;
            let vi = vv as int;
            lemma_fundamental_div_mod(vi, s2);
            assert(-lim * s2 <= vi <= lim * s2);
            assert(-lim <= q <= lim) by (nonlinear_arith)
                requires
                    vi == q * s2 + vi % s2,
                    0 <= vi % s2 < s2,
                    -lim * s2 <= vi <= lim * s2,
                    s2 > 0,
            ;
        }
    }
    q as i64
}

proof fn lemma_plane_fits(nb: int, n: int)
    requires
        nb >= 1,
        n >= 0,
    ensures
        n <= nb * n,
{
    assert(n <= nb * n) by (nonlinear_arith)
        requires
            nb >= 1,
            n >= 0,
    ;
}

/// A weighted mean of two values within a bound stays within it.
proof fn lemma_convex(a: int, b: int, f: int, lim: int)
    requires
        -lim <= a <= lim,
        -lim <= b <= lim,
        0 <= f <= FRAC_ONE,
    ensures
        -lim * FRAC_ONE <= a * f <= lim * FRAC_ONE,
        -lim * FRAC_ONE <= b * (FRAC_ONE - f) <= lim * FRAC_ONE,
        -lim * FRAC_ONE <= a * f + b * (FRAC_ONE - f) <= lim * FRAC_ONE,
{
    let one = FRAC_ONE as int;
    let g = one - f;
    assert(-lim * f <= a * f <= lim * f) by (nonlinear_arith)
        requires
            -lim <= a <= lim,
            0 <= f,
    ;
    assert(-lim * g <= b * g <= lim * g) by (nonlinear_arith)
        requires
            -lim <= b <= lim,
            0 <= g,
    ;
    assert(-lim * one <= a * f + b * g <= lim * one) by (nonlinear_arith)
        requires
            -lim * f <= a * f <= lim * f,
            -lim * g <= b * g <= lim * g,
            g == one - f,
    ;
    assert(-lim * one <= a * f <= lim * one) by (nonlinear_arith)
        requires
            -lim * f <= a * f <= lim * f,
            0 <= f <= one,
            lim >= 0,
    ;
    assert(-lim * one <= b * g <= lim * one) by (nonlinear_arith)
        requires
            -lim * g <= b * g <= lim * g,
            0 <= g <= one,
            lim >= 0,
    ;
}

/// Accumulates frames, each resampled onto the output grid, into per-band
/// sums and per-pixel hit counts.
pub struct BilinearDrizzle {
    in_width: usize,
    in_height: usize,
    out_width: usize,
    out_height: usize,
    num_bands: usize,
    buffer: Vec<i64>,
    divisor: Vec<u32>,
    frame_add_count: usize,
}

impl View for BilinearDrizzle {
    type V = DrizzleView;

    closed spec fn view(&self) -> DrizzleView {
        DrizzleView {
            in_width: self.in_width as int,
            in_height: self.in_height as int,
            out_width: self.out_width as int,
            out_height: self.out_height as int,
            num_bands: self.num_bands as int,
            sums: self.buffer@.map_values(|v: i64| v as int),
            hits: self.divisor@.map_values(|d: u32| d as int),
            frames: self.frame_add_count as int,
        }
    }
}

impl BilinearDrizzle {
    pub closed spec fn wf(&self) -> bool {
        let n = self.out_width * self.out_height;
        &&& self.in_width <= MAX_DIMENSION
        &&& self.in_height <= MAX_DIMENSION
        &&& self.out_width <= 3 * MAX_DIMENSION
        &&& self.out_height <= 3 * MAX_DIMENSION
        &&& 1 <= self.num_bands <= MAX_BANDS
        &&& self.buffer@.len() == self.num_bands * n
        &&& self.divisor@.len() == n
        &&& self.frame_add_count <= MAX_FRAMES
        &&& forall|p: int| 0 <= p < n ==> #[trigger] self.divisor@[p] <= self.frame_add_count
        &&& forall|i: int|
            0 <= i < self.buffer@.len() ==> -(self.divisor@[i % n] * SAMPLE_LIMIT) <= #[trigger] self.buffer@[i]
                <= self.divisor@[i % n] * SAMPLE_LIMIT
    }

    /// An empty accumulator for frames of `in_width` by `in_height` with
    /// `num_bands` bands, at the output size the scale gives.
    pub fn new(in_width: usize, in_height: usize, scale: Scale, num_bands: usize) -> (r: BilinearDrizzle)
        requires
            in_width <= MAX_DIMENSION,
            in_height <= MAX_DIMENSION,
            1 <= num_bands <= MAX_BANDS,
            num_bands * (scaled_size(in_width as int, scale) * scaled_size(in_height as int, scale))
                <= usize::MAX,
        ensures
            r.wf(),
            r@ == empty_view(in_width as int, in_height as int, scale, num_bands as int),
    {
        let k = scale.halves();
        let out_width = (in_width * k + 1) / 2;
        let out_height = (in_height * k + 1) / 2;
        proof {
            assert(out_width * out_height <= num_bands * (out_width * out_height)) by (nonlinear_arith)
                requires
                    num_bands >= 1,
            ;
        }
        let n = out_width * out_height;
        let total = num_bands * n;
        let mut buffer: Vec<i64> = Vec::new();
        let mut i: usize = 0;
        while i < total
            invariant
                i <= total,
                buffer@.len() == i,
                forall|j: int| 0 <= j < i ==> buffer@[j] == 0,
            decreases total - i,
        {
            buffer.push(0);
            i += 1;
        }
        let mut divisor: Vec<u32> = Vec::new();
        let mut j: usize = 0;
        while j < n
            invariant
                j <= n,
                divisor@.len() == j,
                forall|q: int| 0 <= q < j ==> divisor@[q] == 0,
            decreases n - j,
        {
            divisor.push(0);
            j += 1;
        }
        let r = BilinearDrizzle {
            in_width,
            in_height,
            out_width,
            out_height,
            num_bands,
            buffer,
            divisor,
            frame_add_count: 0,
        };
        assert(r@.sums =~= empty_view(in_width as int, in_height as int, scale, num_bands as int).sums);
        assert(r@.hits =~= empty_view(in_width as int, in_height as int, scale, num_bands as int).hits);
        r
    }

    /// Where output pixel (x, y) samples a frame, in fixed point.
    fn source_point_exec(&self, x: usize, y: usize, offset: Offset, rot: Rotation) -> (r: (i64, i64))
        requires
            self.in_width <= MAX_DIMENSION,
            self.in_height <= MAX_DIMENSION,
            self.out_width <= 3 * MAX_DIMENSION,
            self.out_height <= 3 * MAX_DIMENSION,
            x < self.out_width,
            y < self.out_height,
            rot.wf(),
        ensures
            r.0 == source_point(self@, x as int, y as int, offset, rot).0,
            r.1 == source_point(self@, x as int, y as int, offset, rot).1,
    {
        let one: i128 = 65536;
        proof {
            assert(x * self.in_width <= 0x1_0000_0000) by (nonlinear_arith)
                requires
                    x < 3 * MAX_DIMENSION,
                    self.in_width <= MAX_DIMENSION,
            ;
            assert(y * self.in_height <= 0x1_0000_0000) by (nonlinear_arith)
                requires
                    y < 3 * MAX_DIMENSION,
                    self.in_height <= MAX_DIMENSION,
            ;
        }
        let xw = (x as u64) * (self.in_width as u64);
        let yh = (y as u64) * (self.in_height as u64);
        let ax = xw * 65536;
        let ay = yh * 65536;
        let ix = (ax / (self.out_width as u64)) as i128;
        let iy = (ay / (self.out_height as u64)) as i128;
        proof {
            assert(ix <= ax) by (nonlinear_arith)
                requires
                    ix == (ax as int) / (self.out_width as int),
                    self.out_width >= 1,
                    ax >= 0,
            ;
            assert(iy <= ay) by (nonlinear_arith)
                requires
                    iy == (ay as int) / (self.out_height as int),
                    self.out_height >= 1,
                    ay >= 0,
            ;
        }
        let cx = (self.in_width / 2) as i128 * one;
        let cy = (self.in_height / 2) as i128 * one;
        let dx = ix - cx;
        let dy = iy - cy;
        let c = rot.cos as i128;
        let s = rot.sin as i128;
        proof {
            let lim: int = 0x1_0000_0000_0000;
            assert(-lim * 65536 <= dx * c <= lim * 65536) by (nonlinear_arith)
                requires
                    -lim <= dx <= lim,
                    -65536 <= c <= 65536,
            ;
            assert(-lim * 65536 <= dy * s <= lim * 65536) by (nonlinear_arith)
                requires
                    -lim <= dy <= lim,
                    -65536 <= s <= 65536,
            ;
            assert(-lim * 65536 <= dy * c <= lim * 65536) by (nonlinear_arith)
                requires
                    -lim <= dy <= lim,
                    -65536 <= c <= 65536,
            ;
            assert(-lim * 65536 <= dx * s <= lim * 65536) by (nonlinear_arith)
                requires
                    -lim <= dx <= lim,
                    -65536 <= s <= 65536,
            ;
        }
        let nx = dx * c + dy * s;
        let ny = dy * c - dx * s;
        let rx = floor_div(nx, one);
        let ry = floor_div(ny, one);
        proof {
            let lim: int = 0x2_0000_0000_0000;
            assert(-lim <= rx <= lim) by (nonlinear_arith)
                requires
                    rx == nx / 65536,
                    -lim * 65536 <= nx <= lim * 65536,
            ;
            assert(-lim <= ry <= lim) by (nonlinear_arith)
                requires
                    ry == ny / 65536,
                    -lim * 65536 <= ny <= lim * 65536,
            ;
        }
        let px = rx + cx - (offset.h as i128) * one;
        let py = ry + cy - (offset.v as i128) * one;
        (px as i64, py as i64)
    }

    /// Adds a frame whose output pixels sample it at points moved by the
    /// rotation about the frame's center, then by the offset.
    pub fn add_with_transform(&mut self, other: &Raster, offset: Offset, rotation: Rotation) -> (r:
        Result<(), DrizzleError>)
        requires
            old(self).wf(),
            other.wf(),
            other.bounded(),
            rotation.wf(),
            old(self)@.frames < MAX_FRAMES,
        ensures
            final(self).wf(),
            r is Ok <==> frame_fits(old(self)@, *other),
            r is Err ==> r == Err::<(), DrizzleError>(DrizzleError::DimensionMismatch) && final(self)@
                == old(self)@,
            r is Ok ==> final(self)@ == add_contribution(
                old(self)@,
                contribution(old(self)@, *other, offset, rotation),
            ),
    {
        if other.width != self.in_width || other.height != self.in_height || (other.num_bands
            != self.num_bands && other.num_bands != 1) {
            return Err(DrizzleError::DimensionMismatch);
        }
        let ghost old_v = self@;
        let ghost c = contribution(old_v, *other, offset, rotation);
        let ghost old_buffer = self.buffer@;
        let ghost old_divisor = self.divisor@;
        let _len = self.buffer.len();
        proof {
            lemma_plane_fits(self.num_bands as int, self.out_width * self.out_height);
        }
        let n = self.out_width * self.out_height;
        let nb = self.num_bands;
        let mut p: usize = 0;
        while p < n
            invariant
                self.in_width == old_v.in_width,
                self.in_height == old_v.in_height,
                self.out_width == old_v.out_width,
                self.out_height == old_v.out_height,
                self.num_bands == old_v.num_bands,
                self.frame_add_count == old_v.frames,
                self.in_width <= MAX_DIMENSION,
                self.in_height <= MAX_DIMENSION,
                self.out_width <= 3 * MAX_DIMENSION,
                self.out_height <= 3 * MAX_DIMENSION,
                1 <= nb <= MAX_BANDS,
                nb == self.num_bands,
                n == self.out_width * self.out_height,
                self.frame_add_count < MAX_FRAMES,
                frame_fits(old_v, *other),
                other.wf(),
                other.bounded(),
                rotation.wf(),
                p <= n,
                nb * n <= usize::MAX,
                old_v == (DrizzleView {
                    sums: old_buffer.map_values(|v: i64| v as int),
                    hits: old_divisor.map_values(|d: u32| d as int),
                    ..old_v
                }),
                c == contribution(old_v, *other, offset, rotation),
                old_buffer.len() == nb * n,
                old_divisor.len() == n,
                self.buffer@.len() == nb * n,
                self.divisor@.len() == n,
                forall|q: int| 0 <= q < n ==> #[trigger] old_divisor[q] <= self.frame_add_count,
                forall|i: int|
                    0 <= i < nb * n ==> -(old_divisor[i % (n as int)] * SAMPLE_LIMIT)
                        <= #[trigger] old_buffer[i] <= old_divisor[i % (n as int)] * SAMPLE_LIMIT,
                forall|q: int|
                    0 <= q < n ==> #[trigger] self.divisor@[q] == (if q < p {
                        old_divisor[q] + c.hits[q]
                    } else {
                        old_divisor[q] as int
                    }),
                forall|i: int|
                    0 <= i < nb * n ==> #[trigger] self.buffer@[i] == (if i % (n as int) < p {
                        old_buffer[i] + c.sums[i]
                    } else {
                        old_buffer[i] as int
                    }),
                forall|q: int| 0 <= q < n ==> #[trigger] self.divisor@[q] <= self.frame_add_count + 1,
                forall|i: int|
                    0 <= i < nb * n ==> -(self.divisor@[i % (n as int)] * SAMPLE_LIMIT)
                        <= #[trigger] self.buffer@[i] <= self.divisor@[i % (n as int)] * SAMPLE_LIMIT,
            decreases n - p,
        {
            let x = p % self.out_width;
            let y = p / self.out_width;
            proof {
                assert(y < self.out_height) by (nonlinear_arith)
                    requires
                        p < self.out_width * self.out_height,
                        y == p / self.out_width,
                        self.out_width > 0,
                ;
            }
            let (px, py) = self.source_point_exec(x, y, offset, rotation);
            let located = locate_exec(other.width, other.height, px as i64, py as i64);
            assert(located == pixel_corners(old_v, *other, offset, rotation, p as int));
            match located {
                Some(corners) => {
                    proof {
                        lemma_corners_in_grid(other.width as int, other.height as int, px as int, py as int);
                    }
                    let d = self.divisor[p];
                    assert(c.hits[p as int] == 1);
                    self.divisor.set(p, d + 1);
                    let mut b: usize = 0;
                    while b < nb
                        invariant
                            self.in_width == old_v.in_width,
                            self.in_height == old_v.in_height,
                            self.out_width == old_v.out_width,
                            self.out_height == old_v.out_height,
                            self.num_bands == old_v.num_bands,
                            self.frame_add_count == old_v.frames,
                            1 <= nb <= MAX_BANDS,
                            nb == self.num_bands,
                            n == self.out_width * self.out_height,
                            self.frame_add_count < MAX_FRAMES,
                            frame_fits(old_v, *other),
                            other.wf(),
                            other.bounded(),
                            p < n,
                            b <= nb,
                            nb * n <= usize::MAX,
                            old_divisor.len() == n,
                            forall|i: int|
                                0 <= i < nb * n ==> -(old_divisor[i % (n as int)] * SAMPLE_LIMIT)
                                    <= #[trigger] old_buffer[i] <= old_divisor[i % (n as int)] * SAMPLE_LIMIT,
                            forall|q: int|
                                0 <= q < n ==> #[trigger] self.divisor@[q] == (if q <= p {
                                    old_divisor[q] + c.hits[q]
                                } else {
                                    old_divisor[q] as int
                                }),
                            corners.x0 < other.width,
                            corners.x1 < other.width,
                            corners.y0 < other.height,
                            corners.y1 < other.height,
                            0 <= corners.fx < FRAC_ONE,
                            0 <= corners.fy < FRAC_ONE,
                            pixel_corners(old_v, *other, offset, rotation, p as int) == Some(corners),
                            c == contribution(old_v, *other, offset, rotation),
                            old_v.sums.len() == nb * n,
                            old_v.pixels() == n,
                            old_buffer.len() == nb * n,
                            self.buffer@.len() == nb * n,
                            self.divisor@.len() == n,
                            self.divisor@[p as int] == old_divisor[p as int] + 1,
                            forall|i: int|
                                0 <= i < nb * n ==> #[trigger] self.buffer@[i] == (if i % (n as int) < p
                                    || (i % (n as int) == p && i / (n as int) < b) {
                                    old_buffer[i] + c.sums[i]
                                } else {
                                    old_buffer[i] as int
                                }),
                            forall|q: int| 0 <= q < n ==> #[trigger] self.divisor@[q] <= self.frame_add_count + 1,
                            forall|i: int|
                                0 <= i < nb * n ==> -(self.divisor@[i % (n as int)] * SAMPLE_LIMIT)
                                    <= #[trigger] self.buffer@[i] <= self.divisor@[i % (n as int)]
                                    * SAMPLE_LIMIT,
                        decreases nb - b,
                    {
                        let src = if other.num_bands == 1 {
                            0
                        } else {
                            b
                        };
                        let v = blend_exec(other, src, corners);
                        proof {
                            lemma_band_offset(b as int, n as int, p as int, nb as int);
                        }
                        let idx = b * n + p;
                        assert(c.sums[idx as int] == v);
                        let cur = self.buffer[idx];
                        proof {
                            assert(cur == old_buffer[idx as int]);
                            assert(self.divisor@[p as int] <= MAX_FRAMES);
                        }
                        let ghost pre = self.buffer@;
                        assert(forall|i: int|
                            0 <= i < nb * n ==> pre[i] == (if i % (n as int) < p || (i % (n as int)
                                == p && i / (n as int) < b) {
                                old_buffer[i] + c.sums[i]
                            } else {
                                old_buffer[i] as int
                            }));
                        self.buffer.set(idx, cur + v);
                        proof {
                            let ni = n as int;
                            assert forall|i: int| 0 <= i < nb * n implies #[trigger] self.buffer@[i] == (if i
                                % ni < p || (i % ni == p && i / ni < b + 1) {
                                old_buffer[i] + c.sums[i]
                            } else {
                                old_buffer[i] as int
                            }) by {
                                if i != idx {
                                    lemma_fundamental_div_mod(i, ni);
                                    assert(self.buffer@[i] == pre[i]);
                                    if i % ni == p && i / ni == b {
                                        assert(i == b * ni + p) by (nonlinear_arith)
                                            requires
                                                i == ni * (i / ni) + i % ni,
                                                i / ni == b,
                                                i % ni == p,
                                        ;
                                    }
                                }
                            }
                        }
                        proof {
                            let ni = n as int;
                            assert(old_buffer[idx as int] == cur);
                            assert forall|i: int| 0 <= i < nb * n implies -(self.divisor@[i % ni] * SAMPLE_LIMIT)
                                <= #[trigger] self.buffer@[i] <= self.divisor@[i % ni] * SAMPLE_LIMIT by {
                                if i != idx {
                                    assert(self.buffer@[i] == pre[i]);
                                }
                            }
                        }
                        b += 1;
                    }
                },
                None => {
                    proof {
                        assert forall|i: int| 0 <= i < nb * n && i % (n as int) == p implies c.sums[i] == 0 by {
                        }
                        assert(c.hits[p as int] == 0);
                    }
                },
            }
            proof {
                let ni = n as int;
                assert forall|i: int| 0 <= i < nb * n implies #[trigger] self.buffer@[i] == (if i % ni
                    < p + 1 {
                    old_buffer[i] + c.sums[i]
                } else {
                    old_buffer[i] as int
                }) by {
                    lemma_fundamental_div_mod(i, ni);
                    assert(i / ni < nb) by (nonlinear_arith)
                        requires
                            i == ni * (i / ni) + i % ni,
                            0 <= i % ni,
                            i < nb * ni,
                            ni > 0,
                    ;
                }
            }
            p += 1;
        }
        self.frame_add_count = self.frame_add_count + 1;
        proof {
            assert(self@.sums =~= add_contribution(old_v, c).sums);
            assert(self@.hits =~= add_contribution(old_v, c).hits);
        }
        Ok(())
    }

    /// Adds a frame that is already registered: neither moved nor rotated.
    pub fn add(&mut self, other: &Raster) -> (r: Result<(), DrizzleError>)
        requires
            old(self).wf(),
            other.wf(),
            other.bounded(),
            old(self)@.frames < MAX_FRAMES,
        ensures
            final(self).wf(),
            r is Ok <==> frame_fits(old(self)@, *other),
            r is Err ==> r == Err::<(), DrizzleError>(DrizzleError::DimensionMismatch) && final(self)@
                == old(self)@,
            r is Ok ==> final(self)@ == add_contribution(
                old(self)@,
                contribution(old(self)@, *other, Offset { h: 0, v: 0 }, Rotation { cos: 65536, sin: 0 }),
            ),
    {
        self.add_with_transform(other, Offset { h: 0, v: 0 }, Rotation::identity())
    }

    /// The mean image: each output sample's sum over its pixel's hit count,
    /// rounded down, and 0 where nothing hit the pixel.
    pub fn get_finalized(&self) -> (r: Result<Raster, DrizzleError>)
        requires
            self.wf(),
        ensures
            r is Err <==> self@.frames == 0,
            r is Err ==> r == Err::<Raster, DrizzleError>(DrizzleError::NoFrames),
            r matches Ok(img) ==> {
                &&& img.width == self@.out_width
                &&& img.height == self@.out_height
                &&& img.num_bands == self@.num_bands
                &&& img.wf()
                &&& img.bounded()
                &&& img.samples@.map_values(|v: i64| v as int) == finalized(self@)
            },
    {
        if self.frame_add_count == 0 {
            return Err(DrizzleError::NoFrames);
        }
        let _len = self.buffer.len();
        proof {
            lemma_plane_fits(self.num_bands as int, self.out_width * self.out_height);
        }
        let n = self.out_width * self.out_height;
        let total = self.num_bands * n;
        let mut samples: Vec<i64> = Vec::new();
        let mut i: usize = 0;
        while i < total
            invariant
                self.wf(),
                n == self.out_width * self.out_height,
                total == self.num_bands * n,
                i <= total,
                samples@.len() == i,
                forall|j: int| 0 <= j < i ==> #[trigger] samples@[j] as int == finalized(self@)[j],
                forall|j: int| 0 <= j < i ==> -SAMPLE_LIMIT <= #[trigger] samples@[j] <= SAMPLE_LIMIT,
            decreases total - i,
        {
            proof {
                lemma_plane_fits(self.num_bands as int, n as int);
                vstd::arithmetic::div_mod::lemma_mod_bound(i as int, n as int);
            }
            let d = self.divisor[i % n];
            let v: i64 = if d == 0 {
                0
            } else {
                let sum = self.buffer[i];
                let q = floor_div(sum as i128, d as i128);
                proof {
                    let lim = SAMPLE_LIMIT as int;
                    let di = d as int;
                    let si = sum as int;
                    lemma_fundamental_div_mod(si, di);
                    assert(-lim <= q <= lim) by (nonlinear_arith)
                        requires
                            si == di * q + si % di,
                            0 <= si % di < di,
                            -(di * lim) <= si <= di * lim,
                            di > 0,
                            lim > 0,
                    ;
                }
                q as i64
            };
            samples.push(v);
            i += 1;
        }
        let img = Raster {
            width: self.out_width,
            height: self.out_height,
            num_bands: self.num_bands,
            samples,
        };
        assert(img.samples@.map_values(|v: i64| v as int) =~= finalized(self@));
        Ok(img)
    }

    /// Adds another accumulator of the same shape into this one.
    pub fn add_drizzle(&mut self, other: &BilinearDrizzle) -> (r: Result<(), DrizzleError>)
        requires
            old(self).wf(),
            other.wf(),
            old(self)@.frames + other@.frames <= MAX_FRAMES,
        ensures
            final(self).wf(),
            r is Ok <==> old(self)@.same_shape(other@),
            r is Err ==> r == Err::<(), DrizzleError>(DrizzleError::DimensionMismatch) && final(self)@
                == old(self)@,
            r is Ok ==> final(self)@ == merge_views(old(self)@, other@),
    {
        if other.in_width != self.in_width || other.in_height != self.in_height || other.out_width
            != self.out_width || other.out_height != self.out_height || other.num_bands
            != self.num_bands {
            return Err(DrizzleError::DimensionMismatch);
        }
        let ghost old_v = self@;
        let ghost old_buffer = self.buffer@;
        let ghost old_divisor = self.divisor@;
        let _len = self.buffer.len();
        proof {
            lemma_plane_fits(self.num_bands as int, self.out_width * self.out_height);
        }
        let n = self.out_width * self.out_height;
        let total = self.num_bands * n;
        let mut p: usize = 0;
        while p < n
            invariant
                self.in_width == old_v.in_width,
                self.in_height == old_v.in_height,
                self.out_width == old_v.out_width,
                self.out_height == old_v.out_height,
                self.num_bands == old_v.num_bands,
                self.frame_add_count == old_v.frames,
                self.in_width <= MAX_DIMENSION,
                self.in_height <= MAX_DIMENSION,
                self.out_width <= 3 * MAX_DIMENSION,
                self.out_height <= 3 * MAX_DIMENSION,
                1 <= self.num_bands <= MAX_BANDS,
                n == self.out_width * self.out_height,
                total == self.num_bands * n,
                self.buffer@ == old_buffer,
                old_buffer.len() == total,
                other.buffer@.len() == total,
                self.divisor@.len() == n,
                other.divisor@.len() == n,
                old_divisor.len() == n,
                self.frame_add_count + other.frame_add_count <= MAX_FRAMES,
                p <= n,
                forall|j: int|
                    0 <= j < total ==> -(old_divisor[j % (n as int)] * SAMPLE_LIMIT)
                        <= #[trigger] old_buffer[j] <= old_divisor[j % (n as int)] * SAMPLE_LIMIT,
                forall|j: int|
                    0 <= j < total ==> -(other.divisor@[j % (n as int)] * SAMPLE_LIMIT)
                        <= #[trigger] other.buffer@[j] <= other.divisor@[j % (n as int)] * SAMPLE_LIMIT,
                forall|q: int| 0 <= q < n ==> #[trigger] old_divisor[q] <= self.frame_add_count,
                forall|q: int| 0 <= q < n ==> #[trigger] other.divisor@[q] <= other.frame_add_count,
                forall|q: int|
                    0 <= q < n ==> #[trigger] self.divisor@[q] == (if q < p {
                        old_divisor[q] + other.divisor@[q]
                    } else {
                        old_divisor[q] as int
                    }),
            decreases n - p,
        {
            let d = self.divisor[p];
            let e = other.divisor[p];
            self.divisor.set(p, d + e);
            p += 1;
        }
        let mut i: usize = 0;
        assert(n == 0 ==> total == 0) by (nonlinear_arith)
            requires
                total == self.num_bands * n,
        ;
        while i < total
            invariant
                self.in_width == old_v.in_width,
                self.in_height == old_v.in_height,
                self.out_width == old_v.out_width,
                self.out_height == old_v.out_height,
                self.num_bands == old_v.num_bands,
                self.frame_add_count == old_v.frames,
                self.in_width <= MAX_DIMENSION,
                self.in_height <= MAX_DIMENSION,
                self.out_width <= 3 * MAX_DIMENSION,
                self.out_height <= 3 * MAX_DIMENSION,
                1 <= self.num_bands <= MAX_BANDS,
                n == self.out_width * self.out_height,
                total == self.num_bands * n,
                self.buffer@.len() == total,
                other.buffer@.len() == total,
                old_buffer.len() == total,
                self.divisor@.len() == n,
                old_divisor.len() == n,
                other.divisor@.len() == n,
                n > 0 || total == 0,
                i <= total,
                self.frame_add_count + other.frame_add_count <= MAX_FRAMES,
                forall|q: int| 0 <= q < n ==> #[trigger] old_divisor[q] <= self.frame_add_count,
                forall|q: int| 0 <= q < n ==> #[trigger] other.divisor@[q] <= other.frame_add_count,
                forall|q: int|
                    0 <= q < n ==> #[trigger] self.divisor@[q] == old_divisor[q] + other.divisor@[q],
                forall|j: int|
                    0 <= j < total ==> -(old_divisor[j % (n as int)] * SAMPLE_LIMIT)
                        <= #[trigger] old_buffer[j] <= old_divisor[j % (n as int)] * SAMPLE_LIMIT,
                forall|j: int|
                    0 <= j < total ==> -(other.divisor@[j % (n as int)] * SAMPLE_LIMIT)
                        <= #[trigger] other.buffer@[j] <= other.divisor@[j % (n as int)] * SAMPLE_LIMIT,
                forall|q: int| 0 <= q < n ==> #[trigger] self.divisor@[q] <= MAX_FRAMES,
                forall|j: int|
                    0 <= j < total ==> #[trigger] self.buffer@[j] == (if j < i {
                        old_buffer[j] + other.buffer@[j]
                    } else {
                        old_buffer[j] as int
                    }),
            decreases total - i,
        {
            proof {
                vstd::arithmetic::div_mod::lemma_mod_bound(i as int, n as int);
            }
            let a = self.buffer[i];
            let b = other.buffer[i];
            proof {
                let q = i as int % (n as int);
                assert(a == old_buffer[i as int]);
                assert(self.divisor@[q] == old_divisor[q] + other.divisor@[q]);
                assert(self.divisor@[q] <= MAX_FRAMES);
            }
            self.buffer.set(i, a + b);
            i += 1;
        }
        self.frame_add_count = self.frame_add_count + other.frame_add_count;
        proof {
            assert(self@.sums =~= merge_views(old_v, other@).sums);
            assert(self@.hits =~= merge_views(old_v, other@).hits);
            assert forall|q: int| 0 <= q < n implies #[trigger] self.divisor@[q] <= self.frame_add_count by {
            }
            assert forall|j: int| 0 <= j < total implies -(self.divisor@[j % (n as int)] * SAMPLE_LIMIT)
                <= #[trigger] self.buffer@[j] <= self.divisor@[j % (n as int)] * SAMPLE_LIMIT by {
                vstd::arithmetic::div_mod::lemma_mod_bound(j, n as int);
            }
        }
        Ok(())
    }
}

/// Adds one registered frame to an accumulator state.
pub open spec fn add_frame(v: DrizzleView, f: (Raster, Offset, Rotation)) -> DrizzleView {
    add_contribution(v, contribution(v, f.0, f.1, f.2))
}

/// Adds registered frames one after the other.
pub open spec fn accumulate(v: DrizzleView, frames: Seq<(Raster, Offset, Rotation)>) -> DrizzleView
    decreases frames.len(),
{
    if frames.len() == 0 {
        v
    } else {
        accumulate(add_frame(v, frames[0]), frames.drop_first())
    }
}

/// Merges accumulator states into `v`, one after the other.
pub open spec fn merge_all(v: DrizzleView, parts: Seq<DrizzleView>) -> DrizzleView
    decreases parts.len(),
{
    if parts.len() == 0 {
        v
    } else {
        merge_all(merge_views(v, parts[0]), parts.drop_first())
    }
}

/// Merging is commutative.
pub proof fn lemma_merge_commutes(a: DrizzleView, b: DrizzleView)
    requires
        a.same_shape(b),
    ensures
        merge_views(a, b) == merge_views(b, a),
{
    assert(merge_views(a, b).sums =~= merge_views(b, a).sums);
    assert(merge_views(a, b).hits =~= merge_views(b, a).hits);
}

/// Merging is associative.
pub proof fn lemma_merge_associates(a: DrizzleView, b: DrizzleView, c: DrizzleView)
    requires
        a.same_shape(b),
        b.same_shape(c),
    ensures
        merge_views(merge_views(a, b), c) == merge_views(a, merge_views(b, c)),
{
    assert(merge_views(merge_views(a, b), c).sums =~= merge_views(a, merge_views(b, c)).sums);
    assert(merge_views(merge_views(a, b), c).hits =~= merge_views(a, merge_views(b, c)).hits);
}

proof fn lemma_contribution_depends_on_shape(
    a: DrizzleView,
    b: DrizzleView,
    r: Raster,
    offset: Offset,
    rot: Rotation,
)
    requires
        a.same_shape(b),
    ensures
        contribution(a, r, offset, rot) == contribution(b, r, offset, rot),
{
    assert(contribution(a, r, offset, rot).sums =~= contribution(b, r, offset, rot).sums);
    assert(contribution(a, r, offset, rot).hits =~= contribution(b, r, offset, rot).hits);
}

proof fn lemma_merge_then_add(v: DrizzleView, w: DrizzleView, f: (Raster, Offset, Rotation))
    requires
        v.same_shape(w),
    ensures
        merge_views(v, add_frame(w, f)) == add_frame(merge_views(v, w), f),
{
    lemma_contribution_depends_on_shape(w, merge_views(v, w), f.0, f.1, f.2);
    assert(merge_views(v, add_frame(w, f)).sums =~= add_frame(merge_views(v, w), f).sums);
    assert(merge_views(v, add_frame(w, f)).hits =~= add_frame(merge_views(v, w), f).hits);
}

proof fn lemma_accumulate_keeps_shape(v: DrizzleView, frames: Seq<(Raster, Offset, Rotation)>)
    ensures
        accumulate(v, frames).same_shape(v),
    decreases frames.len(),
{
    if frames.len() > 0 {
        lemma_accumulate_keeps_shape(add_frame(v, frames[0]), frames.drop_first());
    }
}

proof fn lemma_merge_accumulate(v: DrizzleView, w: DrizzleView, frames: Seq<(Raster, Offset, Rotation)>)
    requires
        v.same_shape(w),
    ensures
        merge_views(v, accumulate(w, frames)) == accumulate(merge_views(v, w), frames),
    decreases frames.len(),
{
    if frames.len() > 0 {
        let w1 = add_frame(w, frames[0]);
        lemma_merge_accumulate(v, w1, frames.drop_first());
        lemma_merge_then_add(v, w, frames[0]);
    }
}

proof fn lemma_accumulate_concat(
    v: DrizzleView,
    a: Seq<(Raster, Offset, Rotation)>,
    b: Seq<(Raster, Offset, Rotation)>,
)
    ensures
        accumulate(v, a + b) == accumulate(accumulate(v, a), b),
    decreases a.len(),
{
    if a.len() == 0 {
        assert(a + b =~= b);
    } else {
        assert((a + b).drop_first() =~= a.drop_first() + b);
        assert((a + b)[0] == a[0]);
        lemma_accumulate_concat(add_frame(v, a[0]), a.drop_first(), b);
    }
}

proof fn lemma_merge_empty(v: DrizzleView, e: DrizzleView)
    requires
        v.same_shape(e),
        e.frames == 0,
        forall|i: int| 0 <= i < e.sums.len() ==> e.sums[i] == 0,
        forall|p: int| 0 <= p < e.hits.len() ==> e.hits[p] == 0,
    ensures
        merge_views(v, e) == v,
{
    assert(merge_views(v, e).sums =~= v.sums);
    assert(merge_views(v, e).hits =~= v.hits);
}

proof fn lemma_merge_groups(v: DrizzleView, e: DrizzleView, groups: Seq<Seq<(Raster, Offset, Rotation)>>)
    requires
        v.same_shape(e),
        e.frames == 0,
        forall|i: int| 0 <= i < e.sums.len() ==> e.sums[i] == 0,
        forall|p: int| 0 <= p < e.hits.len() ==> e.hits[p] == 0,
    ensures
        merge_all(v, groups.map_values(|g: Seq<(Raster, Offset, Rotation)>| accumulate(e, g)))
            == accumulate(v, groups.flatten()),
    decreases groups.len(),
{
    let parts = groups.map_values(|g: Seq<(Raster, Offset, Rotation)>| accumulate(e, g));
    if groups.len() > 0 {
        let g0 = groups[0];
        lemma_merge_accumulate(v, e, g0);
        lemma_merge_empty(v, e);
        let v1 = accumulate(v, g0);
        lemma_accumulate_keeps_shape(v, g0);
        assert(parts.drop_first() =~= groups.drop_first().map_values(
            |g: Seq<(Raster, Offset, Rotation)>| accumulate(e, g),
        ));
        lemma_merge_groups(v1, e, groups.drop_first());
        lemma_accumulate_concat(v, g0, groups.drop_first().flatten());
    }
}

/// Frames split into groups, each group accumulated from empty on its own
/// and the results merged in turn, give the accumulator that takes all the
/// frames in one run.
pub proof fn lemma_partitioned_accumulation(
    in_width: int,
    in_height: int,
    scale: Scale,
    num_bands: int,
    groups: Seq<Seq<(Raster, Offset, Rotation)>>,
)
    ensures
        ({
            let e = empty_view(in_width, in_height, scale, num_bands);
            merge_all(e, groups.map_values(|g: Seq<(Raster, Offset, Rotation)>| accumulate(e, g)))
                == accumulate(e, groups.flatten())
        }),
{
    let e = empty_view(in_width, in_height, scale, num_bands);
    lemma_merge_groups(e, e, groups);
}

proof fn lemma_exact_div(a: int, d: int)
    requires
        d > 0,
    ensures
        (a * d) / d == a,
        (a * d) % d == 0,
{
    lemma_fundamental_div_mod_converse(a * d, d, a, 0);
}

proof fn lemma_identity_sample(r: Raster, i: int)
    requires
        r.wf(),
        0 <= i < r.samples@.len(),
    ensures
        ({
            let e = empty_view(r.width as int, r.height as int, Scale::Scale1_0, r.num_bands as int);
            let v = add_contribution(
                e,
                contribution(e, r, Offset { h: 0, v: 0 }, Rotation { cos: 65536, sin: 0 }),
            );
            finalized(v)[i] == r.samples@[i] as int
        }),
{
    let w = r.width as int;
    let h = r.height as int;
    let n = w * h;
    let nb = r.num_bands as int;
    let one = FRAC_ONE as int;
    let e = empty_view(w, h, Scale::Scale1_0, nb);
    let off = Offset { h: 0, v: 0 };
    let rot = Rotation { cos: 65536, sin: 0 };
    let c = contribution(e, r, off, rot);
    let v = add_contribution(e, c);
    assert(e.out_width == w);
    assert(e.out_height == h);
    assert(n > 0) by (nonlinear_arith)
        requires
            0 <= i < nb * n,
            nb >= 1,
            n >= 0,
    ;
    assert(w > 0 && h > 0) by (nonlinear_arith)
        requires
            n == w * h,
            n > 0,
            w >= 0,
            h >= 0,
    ;
    let p = i % n;
    let b = i / n;
    lemma_fundamental_div_mod(i, n);
    assert(0 <= b < nb) by (nonlinear_arith)
        requires
            i == n * b + p,
            0 <= p < n,
            0 <= i < nb * n,
    ;
    let x = p % w;
    let y = p / w;
    lemma_fundamental_div_mod(p, w);
    assert(0 <= y < h) by (nonlinear_arith)
        requires
            p == w * y + x,
            0 <= x < w,
            0 <= p < w * h,
    ;
    assert(input_coord(x, w, w) == x * one) by {
        assert(x * w * one == (x * one) * w) by (nonlinear_arith);
        lemma_exact_div(x * one, w);
    }
    assert(input_coord(y, h, h) == y * one) by {
        assert(y * h * one == (y * one) * h) by (nonlinear_arith);
        lemma_exact_div(y * one, h);
    }
    let cx = (w / 2) * one;
    let cy = (h / 2) * one;
    let dx = x * one - cx;
    let dy = y * one - cy;
    assert((dx * rot.cos + dy * rot.sin) / one == dx) by {
        lemma_exact_div(dx, one);
    }
    assert((dy * rot.cos - dx * rot.sin) / one == dy) by {
        lemma_exact_div(dy, one);
    }
    assert(source_point(e, x, y, off, rot) == (x * one, y * one));
    lemma_exact_div(x, one);
    lemma_exact_div(y, one);
    let cr = Corners { x0: x as usize, x1: x as usize, y0: y as usize, y1: y as usize, fx: 0, fy: 0 };
    assert(locate(w, h, x * one, y * one) == Some(cr));
    assert(pixel_corners(e, r, off, rot, p) == Some(cr));
    assert(e.pixels() == n);
    assert(source_band(r, b) == b);
    let s00 = r.samples@[b * n + y * w + x] as int;
    assert(b * n + y * w + x == i) by (nonlinear_arith)
        requires
            i == n * b + p,
            p == w * y + x,
    ;
    assert(blend(r, b, cr) == s00) by {
        assert((s00 * one * one) == s00 * (one * one)) by (nonlinear_arith);
        lemma_exact_div(s00, one * one);
    }
    assert(c.sums[i] == s00);
    assert(c.hits[p] == 1);
    assert(v.hits[p] == 1);
    assert(v.sums[i] == s00);
}

/// At scale 1.0, with neither offset nor rotation, one frame added to an
/// empty accumulator comes back unchanged from finalizing.
pub proof fn lemma_identity_drizzle(r: Raster)
    requires
        r.wf(),
    ensures
        ({
            let e = empty_view(r.width as int, r.height as int, Scale::Scale1_0, r.num_bands as int);
            finalized(
                add_contribution(
                    e,
                    contribution(e, r, Offset { h: 0, v: 0 }, Rotation { cos: 65536, sin: 0 }),
                ),
            ) == r.samples@.map_values(|s: i64| s as int)
        }),
{
    let e = empty_view(r.width as int, r.height as int, Scale::Scale1_0, r.num_bands as int);
    let v = add_contribution(
        e,
        contribution(e, r, Offset { h: 0, v: 0 }, Rotation { cos: 65536, sin: 0 }),
    );
    assert forall|i: int| 0 <= i < r.samples@.len() implies finalized(v)[i] == r.samples@[i] as int by {
        lemma_identity_sample(r, i);
    }
    assert(finalized(v) =~= r.samples@.map_values(|s: i64| s as int));
}

} // verus!
