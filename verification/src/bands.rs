//! Which frequency band a place on the grid listens to. Bands run outward
//! from the centre (bass) to the edges (treble), spaced by the square root
//! of the distance from the centre so that each covers a similar area;
//! whatever lies beyond the last band belongs to it.
//!
//! With the grid spanning [-1, 1] on both axes and `(nx, ny)` a point in
//! those coordinates, the band is `min(NUM_BANDS - 1, floor(NUM_BANDS *
//! (nx² + ny²)^(1/4)))`, computed exactly in integers.

use vstd::prelude::*;
use crate::components::ComponentInfo;
use crate::grid::lemma_index_bounds;

verus! {

/// Number of frequency bands.
pub const NUM_BANDS: usize = 32;

/// Largest `count * width * height` that the band computation handles.
pub const MAX_SCALE: u64 = 0x20_0000_0000_0000;

pub open spec fn pow4(b: int) -> int {
    b * b * b * b
}

/// `(nx² + ny²) * (count * width * height)²` for the centroid
/// `(sum_x / count, sum_y / count)` of a `width` x `height` grid, where
/// `nx = 2 * x / width - 1` and `ny = 2 * y / height - 1`.
pub open spec fn scaled_dist2(sum_x: int, sum_y: int, count: int, width: int, height: int) -> int {
    let dx = 2 * sum_x - count * width;
    let dy = 2 * sum_y - count * height;
    dx * dx * (height * height) + dy * dy * (width * width)
}

/// Band `b` starts at or inside the centroid's distance:
/// `b <= NUM_BANDS * (nx² + ny²)^(1/4)`.
pub open spec fn band_reaches(b: int, sum_x: int, sum_y: int, count: int, width: int, height: int) -> bool {
    let scale = count * width * height;
    pow4(b) * (scale * scale) <= pow4(NUM_BANDS as int) * scaled_dist2(
        sum_x,
        sum_y,
        count,
        width,
        height,
    )
}

/// `band` is the centroid's band: every band up to it reaches the centroid
/// and none of the later ones does.
pub open spec fn is_band_of(band: int, sum_x: int, sum_y: int, count: int, width: int, height: int) -> bool {
    &&& 0 <= band < NUM_BANDS
    &&& forall|b: int| 0 <= b <= band ==> #[trigger] band_reaches(b, sum_x, sum_y, count, width, height)
    &&& forall|b: int|
        band < b < NUM_BANDS ==> !#[trigger] band_reaches(b, sum_x, sum_y, count, width, height)
}

proof fn lemma_pow4_monotone(a: int, b: int, s: int)
    requires
        0 <= a <= b,
        0 <= s,
    ensures
        pow4(a) * s <= pow4(b) * s,
{
    assert(a * a <= b * b) by (nonlinear_arith)
        requires
            0 <= a <= b,
    ;
    assert(pow4(a) <= pow4(b)) by (nonlinear_arith)
        requires
            0 <= a * a <= b * b,
    ;
    assert(pow4(a) * s <= pow4(b) * s) by (nonlinear_arith)
        requires
            pow4(a) <= pow4(b),
            0 <= s,
    ;
}

/// Bands grow outward: of two places on the same grid, the one nearer the
/// centre never listens to a higher band.
pub proof fn lemma_band_monotone(
    band_a: int,
    sum_xa: int,
    sum_ya: int,
    count_a: int,
    band_b: int,
    sum_xb: int,
    sum_yb: int,
    count_b: int,
    width: int,
    height: int,
)
    requires
        0 < count_a,
        0 < count_b,
        0 < width,
        0 < height,
        is_band_of(band_a, sum_xa, sum_ya, count_a, width, height),
        is_band_of(band_b, sum_xb, sum_yb, count_b, width, height),
        scaled_dist2(sum_xa, sum_ya, count_a, width, height) * ((count_b * width * height) * (
        count_b * width * height)) <= scaled_dist2(sum_xb, sum_yb, count_b, width, height) * ((
        count_a * width * height) * (count_a * width * height)),
    ensures
        band_a <= band_b,
{
    if band_a > band_b {
        assert(band_reaches(band_a, sum_xa, sum_ya, count_a, width, height));
        assert(!band_reaches(band_a, sum_xb, sum_yb, count_b, width, height));
        let p = pow4(band_a);
        let k = pow4(NUM_BANDS as int);
        let sa = (count_a * width * height) * (count_a * width * height);
        let sb = (count_b * width * height) * (count_b * width * height);
        let da = scaled_dist2(sum_xa, sum_ya, count_a, width, height);
        let db = scaled_dist2(sum_xb, sum_yb, count_b, width, height);
        assert(sb > 0) by (nonlinear_arith)
            requires
                0 < count_b,
                0 < width,
                0 < height,
                sb == (count_b * width * height) * (count_b * width * height),
        ;
        assert(sa > 0) by (nonlinear_arith)
            requires
                0 < count_a,
                0 < width,
                0 < height,
                sa == (count_a * width * height) * (count_a * width * height),
        ;
        assert(k > 0) by (nonlinear_arith)
            requires
                k == pow4(32),
        ;
        assert(false) by (nonlinear_arith)
            requires
                p * sa <= k * da,
                p * sb > k * db,
                da * sb <= db * sa,
                sa > 0,
                sb > 0,
                k > 0,
        ;
    }
}

/// Whether `b⁴ * scale2 <= rhs`.
fn reaches(b: u128, scale2: u128, rhs: u128) -> (r: bool)
    requires
        b < NUM_BANDS,
        scale2 <= 0x400_0000_0000_0000_0000_0000_0000,
    ensures
        r == (pow4(b as int) * scale2 <= rhs),
{
    assert(pow4(b as int) < 0x10_0000) by (nonlinear_arith)
        requires
            b < 32,
    ;
    assert(pow4(b as int) * scale2 < 0x10_0000 * 0x400_0000_0000_0000_0000_0000_0000) by (nonlinear_arith)
        requires
            pow4(b as int) < 0x10_0000,
            scale2 <= 0x400_0000_0000_0000_0000_0000_0000,
    ;
    assert(b * b < 0x400 && b * b * b < 0x8000) by (nonlinear_arith)
        requires
            b < 32,
    ;
    b * b * b * b * scale2 <= rhs
}

/// `|2 * sum - count_extent|`, whose square is `(2 * sum - count_extent)²`.
fn abs_offset(sum: u128, count_extent: u128) -> (d: u128)
    requires
        sum <= count_extent,
        count_extent <= MAX_SCALE,
    ensures
        d * d == (2 * sum - count_extent) * (2 * sum - count_extent),
        d <= count_extent,
{
    let twice = 2 * sum;
    if twice >= count_extent {
        twice - count_extent
    } else {
        let d = count_extent - twice;
        assert(d * d == (2 * sum - count_extent) * (2 * sum - count_extent)) by (nonlinear_arith)
            requires
                d == count_extent - 2 * sum,
        ;
        d
    }
}

/// The band of the centroid `(sum_x / count, sum_y / count)` of a
/// `width` x `height` grid.
pub fn band_index(sum_x: u64, sum_y: u64, count: u64, width: u64, height: u64) -> (band: usize)
    requires
        0 < count,
        0 < width,
        0 < height,
        sum_x <= count * width,
        sum_y <= count * height,
        count * width * height <= MAX_SCALE,
    ensures
        is_band_of(band as int, sum_x as int, sum_y as int, count as int, width as int, height as int),
{
    let n = count as u128;
    let w = width as u128;
    let h = height as u128;
    proof {
        assert(count * width > 0) by (nonlinear_arith)
            requires
                0 < count,
                0 < width,
        ;
        assert(count * width <= count * width * height) by (nonlinear_arith)
            requires
                0 < height,
                0 < count * width,
        ;
        assert(count * height <= count * width * height) by (nonlinear_arith)
            requires
                0 < width,
                0 < count,
                0 < height,
        ;
        assert(width <= count * width) by (nonlinear_arith)
            requires
                0 < count,
                0 < width,
        ;
        assert(height <= count * height) by (nonlinear_arith)
            requires
                0 < count,
                0 < height,
        ;
    }
    let nw = n * w;
    let nh = n * h;
    let scale = nw * h;
    let dx = abs_offset(sum_x as u128, nw);
    let dy = abs_offset(sum_y as u128, nh);
    let ghost s = scale as int;
    proof {
        assert(s <= MAX_SCALE);
        assert(s * s <= 0x400_0000_0000_0000_0000_0000_0000) by (nonlinear_arith)
            requires
                0 <= s <= 0x20_0000_0000_0000,
        ;
        assert(nw <= s && nh <= s) by (nonlinear_arith)
            requires
                s == nw * h,
                nw == n * w,
                nh == n * h,
                1 <= n,
                1 <= h,
                1 <= w,
        ;
        assert(nw * nw <= s * s && nh * nh <= s * s) by (nonlinear_arith)
            requires
                0 <= nw <= s,
                0 <= nh <= s,
        ;
        assert(dx * dx <= nw * nw && h * h <= s * s && w * w <= s * s) by (nonlinear_arith)
            requires
                dx <= nw,
                s == nw * h,
                nw == n * w,
                1 <= n,
                1 <= h,
                1 <= w,
        ;
        assert(dx * dx * (h * h) <= s * s) by (nonlinear_arith)
            requires
                dx <= nw,
                s == nw * h,
                0 <= h,
        ;
        assert(dy * dy <= nh * nh) by (nonlinear_arith)
            requires
                dy <= nh,
        ;
        assert(dy * dy * (w * w) <= s * s) by (nonlinear_arith)
            requires
                dy <= nh,
                nh == n * h,
                nw == n * w,
                s == nw * h,
                0 <= w,
        ;
    }
    let dist = dx * dx * (h * h) + dy * dy * (w * w);
    let rhs = 0x10_0000 * dist;
    let scale2 = scale * scale;
    proof {
        assert(pow4(NUM_BANDS as int) == 0x10_0000) by (nonlinear_arith);
        assert(dist == scaled_dist2(sum_x as int, sum_y as int, count as int, width as int, height as int));
        assert(scale2 == (count * width * height) * (count * width * height));
        assert(band_reaches(0, sum_x as int, sum_y as int, count as int, width as int, height as int)) by {
            assert(pow4(0) == 0);
            assert(0 <= dist);
        }
    }
    let mut band: usize = 0;
    while band + 1 < NUM_BANDS && reaches((band + 1) as u128, scale2, rhs)
        invariant
            band < NUM_BANDS,
            scale2 <= 0x400_0000_0000_0000_0000_0000_0000,
            scale2 == (count * width * height) * (count * width * height),
            rhs == pow4(NUM_BANDS as int) * scaled_dist2(
                sum_x as int,
                sum_y as int,
                count as int,
                width as int,
                height as int,
            ),
            forall|b: int|
                0 <= b <= band ==> #[trigger] band_reaches(
                    b,
                    sum_x as int,
                    sum_y as int,
                    count as int,
                    width as int,
                    height as int,
                ),
        decreases NUM_BANDS - band,
    {
        band = band + 1;
    }
    proof {
        assert forall|b: int| band < b < NUM_BANDS implies !#[trigger] band_reaches(
            b,
            sum_x as int,
            sum_y as int,
            count as int,
            width as int,
            height as int,
        ) by {
            lemma_pow4_monotone(band + 1, b, scale2 as int);
        }
    }
    band
}

/// The band of every cell of a `width` x `height` grid, row-major.
pub fn build_cell_bins(width: usize, height: usize) -> (bins: Vec<usize>)
    requires
        width * height <= MAX_SCALE,
    ensures
        bins@.len() == width * height,
        forall|i: int|
            0 <= i < width * height ==> is_band_of(
                #[trigger] bins@[i] as int,
                i % (width as int),
                i / (width as int),
                1,
                width as int,
                height as int,
            ),
{
    let mut bins: Vec<usize> = Vec::new();
    let mut y: usize = 0;
    while y < height
        invariant
            width * height <= MAX_SCALE,
            y <= height,
            bins@.len() == y * width,
            forall|i: int|
                0 <= i < y * width ==> is_band_of(
                    #[trigger] bins@[i] as int,
                    i % (width as int),
                    i / (width as int),
                    1,
                    width as int,
                    height as int,
                ),
        decreases height - y,
    {
        let mut x: usize = 0;
        while x < width
            invariant
                width * height <= MAX_SCALE,
                y < height,
                x <= width,
                bins@.len() == y * width + x,
                forall|i: int|
                    0 <= i < y * width + x ==> is_band_of(
                        #[trigger] bins@[i] as int,
                        i % (width as int),
                        i / (width as int),
                        1,
                        width as int,
                        height as int,
                    ),
            decreases width - x,
        {
            proof {
                lemma_index_bounds(x as int, y as int, width as int, height as int);
            }
            let band = band_index(x as u64, y as u64, 1, width as u64, height as u64);
            bins.push(band);
            x = x + 1;
        }
        assert(y * width + width == (y + 1) * width) by (nonlinear_arith);
        y = y + 1;
    }
    assert(height * width == width * height) by (nonlinear_arith);
    bins
}

/// The band of a connected group of cells, by its centroid.
pub fn component_freq_bin(info: &ComponentInfo, grid_width: usize, grid_height: usize) -> (band: usize)
    requires
        0 < grid_width,
        0 < grid_height,
        info.sum_x <= (if info.count == 0 { 1 } else { info.count as int }) * grid_width,
        info.sum_y <= (if info.count == 0 { 1 } else { info.count as int }) * grid_height,
        (if info.count == 0 { 1 } else { info.count as int }) * grid_width * grid_height <= MAX_SCALE,
    ensures
        is_band_of(
            band as int,
            info.sum_x as int,
            info.sum_y as int,
            if info.count == 0 { 1 } else { info.count as int },
            grid_width as int,
            grid_height as int,
        ),
{
    let count: u64 = if info.count == 0 {
        1
    } else {
        info.count as u64
    };
    band_index(info.sum_x, info.sum_y, count, grid_width as u64, grid_height as u64)
}

} // verus!
