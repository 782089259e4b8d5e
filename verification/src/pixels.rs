//! Integer operations on 8-bit RGBA pixel buffers (four bytes per pixel).
use vstd::prelude::*;

verus! {

/// Histogram bin of an RGB color: its Rec. 709 luma in 0..=255, rounded half up
/// with integer weights.
pub open spec fn luma_bin(r: u8, g: u8, b: u8) -> int {
    let v = (r * 2126 + g * 7152 + b * 722 + 5000) / 10000;
    if v > 255 { 255 } else { v }
}

/// How many of the first `n` pixels of `p` are not fully transparent and fall in `bin`.
pub open spec fn bin_count(p: Seq<u8>, n: int, bin: int) -> int
    decreases n,
{
    if n <= 0 {
        0
    } else {
        bin_count(p, n - 1, bin) + if p[4 * (n - 1) + 3] != 0 && luma_bin(p[4 * (n - 1)], p[4 * (n - 1) + 1], p[4 * (n - 1) + 2]) == bin {
            1int
        } else {
            0int
        }
    }
}

/// `bin_count` never exceeds the number of pixels looked at.
pub proof fn lemma_bin_count_bound(p: Seq<u8>, n: int, bin: int)
    requires
        n >= 0,
    ensures
        0 <= bin_count(p, n, bin) <= n,
    decreases n,
{
    if n > 0 {
        lemma_bin_count_bound(p, n - 1, bin);
    }
}

/// Luma histogram of the visible (alpha > 0) pixels of an RGBA buffer.
pub fn histogram(pixels: &[u8]) -> (bins: [u32; 256])
    requires
        pixels@.len() / 4 <= u32::MAX,
    ensures
        forall|b: int| 0 <= b < 256 ==> #[trigger] bins@[b] == bin_count(pixels@, (pixels@.len() / 4) as int, b),
{
    let mut bins = [0u32; 256];
    let length = pixels.len();
    let count = length / 4;
    let mut k: usize = 0;
    while k < count
        invariant
            length == pixels@.len(),
            count == pixels@.len() / 4,
            k <= count,
            count <= u32::MAX,
            forall|b: int| 0 <= b < 256 ==> #[trigger] bins@[b] == bin_count(pixels@, k as int, b),
        decreases count - k,
    {
        let r = pixels[4 * k];
        let g = pixels[4 * k + 1];
        let b = pixels[4 * k + 2];
        let a = pixels[4 * k + 3];
        if a != 0 {
            let v = (r as u32 * 2126 + g as u32 * 7152 + b as u32 * 722 + 5000) / 10000;
            let bin: usize = if v > 255 { 255 } else { v as usize };
            proof {
                lemma_bin_count_bound(pixels@, k as int, bin as int);
            }
            bins[bin] = bins[bin] + 1;
        }
        k = k + 1;
    }
    bins
}

/// The luma histogram of an RGBA buffer, as 256 bin counts.
pub open spec fn histogram_of(p: Seq<u8>) -> Seq<int> {
    Seq::new(256, |b: int| bin_count(p, (p.len() / 4) as int, b))
}

/// Sum of the first `k` bins.
pub open spec fn low_sum(bins: Seq<int>, k: int) -> int
    decreases k,
{
    if k <= 0 { 0 } else { low_sum(bins, k - 1) + bins[k - 1] }
}

/// Sum of the top `k` of 256 bins.
pub open spec fn high_sum(bins: Seq<int>, k: int) -> int
    decreases k,
{
    if k <= 0 { 0 } else { high_sum(bins, k - 1) + bins[256 - k] }
}

/// The smallest `p >= from` below 256 whose bins up to `p` hold more than
/// `cutoff`, or 0 when there is none.
pub open spec fn low_clip(bins: Seq<int>, cutoff: int, from: int) -> int
    decreases 256 - from,
{
    if from < 0 || from >= 256 {
        0
    } else if low_sum(bins, from + 1) > cutoff {
        from
    } else {
        low_clip(bins, cutoff, from + 1)
    }
}

/// The smallest `q >= from` below 256 whose top `q + 1` bins hold more than
/// `cutoff`, or 0 when there is none.
pub open spec fn high_clip(bins: Seq<int>, cutoff: int, from: int) -> int
    decreases 256 - from,
{
    if from < 0 || from >= 256 {
        0
    } else if high_sum(bins, from + 1) > cutoff {
        from
    } else {
        high_clip(bins, cutoff, from + 1)
    }
}

/// Both clip points lie in 0..=255.
pub proof fn lemma_clip_range(bins: Seq<int>, cutoff: int, from: int)
    ensures
        0 <= low_clip(bins, cutoff, from) <= 255,
        0 <= high_clip(bins, cutoff, from) <= 255,
    decreases 256 - from,
{
    if 0 <= from < 256 {
        lemma_clip_range(bins, cutoff, from + 1);
    }
}

/// Input black and white points of an automatic levels correction.
#[derive(Clone, Copy, Debug, PartialEq, Eq)]
pub struct LevelPoints {
    pub black: u32,
    pub white: u32,
}

/// Automatic levels: clip half a percent of the visible pixels at each end
/// of the luma histogram. The black point is at most 254 and the white point
/// lies above the unclipped black point.
pub fn auto_levels(pixels: &[u8]) -> (points: LevelPoints)
    requires
        pixels@.len() / 4 <= u32::MAX,
    ensures
        ({
            let bins = histogram_of(pixels@);
            let cutoff = low_sum(bins, 256) / 200;
            let black = low_clip(bins, cutoff, 0);
            let white = 255 - high_clip(bins, cutoff, 0);
            &&& points.black == if black < 254 { black } else { 254 }
            &&& points.white == if white > black + 1 { white } else { black + 1 }
        }),
{
    let bins = histogram(pixels);
    let ghost h = histogram_of(pixels@);
    assert forall|b: int| 0 <= b < 256 implies bins@[b] == h[b] by {}
    let mut total: u64 = 0;
    for k in 0..256usize
        invariant
            total == low_sum(h, k as int),
            total <= k * 0xFFFF_FFFFu64,
            forall|b: int| 0 <= b < 256 ==> #[trigger] bins@[b] == h[b],
    {
        total = total + bins[k] as u64;
    }
    let cutoff = total / 200;
    let mut sum: u64 = 0;
    let mut black: u32 = 0;
    let mut p: usize = 0;
    loop
        invariant_except_break
            p <= 256,
            sum == low_sum(h, p as int),
            sum <= p * 0xFFFF_FFFFu64,
            low_clip(h, cutoff as int, 0) == low_clip(h, cutoff as int, p as int),
        invariant
            cutoff == low_sum(h, 256) / 200,
            forall|b: int| 0 <= b < 256 ==> #[trigger] bins@[b] == h[b],
        ensures
            black == low_clip(h, cutoff as int, 0),
        decreases 256 - p,
    {
        if p == 256 {
            black = 0;
            break;
        }
        sum = sum + bins[p] as u64;
        if sum > cutoff {
            black = p as u32;
            break;
        }
        p = p + 1;
    }
    let mut sum: u64 = 0;
    let mut clipped: u32 = 0;
    let mut q: usize = 0;
    loop
        invariant_except_break
            q <= 256,
            sum == high_sum(h, q as int),
            sum <= q * 0xFFFF_FFFFu64,
            high_clip(h, cutoff as int, 0) == high_clip(h, cutoff as int, q as int),
        invariant
            cutoff == low_sum(h, 256) / 200,
            forall|b: int| 0 <= b < 256 ==> #[trigger] bins@[b] == h[b],
        ensures
            clipped == high_clip(h, cutoff as int, 0),
        decreases 256 - q,
    {
        if q == 256 {
            clipped = 0;
            break;
        }
        sum = sum + bins[255 - q] as u64;
        if sum > cutoff {
            clipped = q as u32;
            break;
        }
        q = q + 1;
    }
    proof {
        lemma_clip_range(h, cutoff as int, 0);
    }
    let white = 255 - clipped;
    LevelPoints {
        black: if black < 254 { black } else { 254 },
        white: if white > black + 1 { white } else { black + 1 },
    }
}

/// A channel of a color with coverage `a` composited over white.
pub open spec fn over_white(v: u8, a: u8) -> int {
    (v * a + 255 * (255 - a)) / 255
}

/// A channel scaled by its pixel's coverage `a`, rounded down.
pub open spec fn premultiplied_channel(v: u8, a: u8) -> int {
    (v * a) / 255
}

/// A premultiplied channel divided by its coverage `a > 0`, capped at 255.
pub open spec fn unpremultiplied_channel(v: u8, a: u8) -> int {
    if (v * 255) / (a as int) > 255 { 255 } else { (v * 255) / (a as int) }
}

/// Channel `c` of pixel `k` of `p` after undoing premultiplication.
pub open spec fn restored(p: Seq<u8>, k: int, c: int) -> int {
    if p[4 * k + 3] > 0 {
        unpremultiplied_channel(p[4 * k + c], p[4 * k + 3])
    } else {
        p[4 * k + c] as int
    }
}

/// Composite every pixel of an RGBA buffer over white, giving an RGB buffer.
pub fn flatten_white(pixels: &[u8]) -> (rgb: Vec<u8>)
    ensures
        rgb@.len() == 3 * (pixels@.len() / 4),
        forall|k: int, c: int|
            0 <= k < pixels@.len() / 4 && 0 <= c < 3 ==> #[trigger] rgb@[3 * k + c] == over_white(
                pixels@[4 * k + c],
                pixels@[4 * k + 3],
            ),
{
    let count = pixels.len() / 4;
    let mut rgb: Vec<u8> = Vec::new();
    for k in 0..count
        invariant
            count == pixels@.len() / 4,
            4 * count <= pixels@.len() <= usize::MAX,
            rgb@.len() == 3 * k,
            forall|j: int, c: int|
                0 <= j < k && 0 <= c < 3 ==> #[trigger] rgb@[3 * j + c] == over_white(
                    pixels@[4 * j + c],
                    pixels@[4 * j + 3],
                ),
    {
        let a = pixels[4 * k + 3] as u32;
        for c in 0..3usize
            invariant
                count == pixels@.len() / 4,
                4 * count <= pixels@.len() <= usize::MAX,
                k < count,
                a == pixels@[4 * k + 3],
                rgb@.len() == 3 * k + c,
                forall|j: int, d: int|
                    0 <= j < k && 0 <= d < 3 ==> #[trigger] rgb@[3 * j + d] == over_white(
                        pixels@[4 * j + d],
                        pixels@[4 * j + 3],
                    ),
                forall|d: int| 0 <= d < c ==> #[trigger] rgb@[3 * k + d] == over_white(
                    pixels@[4 * k + d],
                    pixels@[4 * k + 3],
                ),
        {
            let v = pixels[4 * k + c] as u32;
            assert(v * a + 255 * (255 - a) <= 255 * 255) by (nonlinear_arith)
                requires
                    v <= 255,
                    a <= 255,
            ;
            rgb.push(((v * a + 255 * (255 - a)) / 255) as u8);
        }
    }
    rgb
}

/// Scale the color channels of every pixel by its coverage.
pub fn premultiply(pixels: &[u8]) -> (out: Vec<u8>)
    ensures
        out@.len() == 4 * (pixels@.len() / 4),
        forall|k: int, c: int|
            0 <= k < pixels@.len() / 4 && 0 <= c < 3 ==> #[trigger] out@[4 * k + c] == premultiplied_channel(
                pixels@[4 * k + c],
                pixels@[4 * k + 3],
            ),
        forall|k: int| 0 <= k < pixels@.len() / 4 ==> #[trigger] out@[4 * k + 3] == pixels@[4 * k + 3],
{
    let count = pixels.len() / 4;
    let mut out: Vec<u8> = Vec::new();
    for k in 0..count
        invariant
            count == pixels@.len() / 4,
            4 * count <= pixels@.len() <= usize::MAX,
            out@.len() == 4 * k,
            forall|j: int, c: int|
                0 <= j < k && 0 <= c < 3 ==> #[trigger] out@[4 * j + c] == premultiplied_channel(
                    pixels@[4 * j + c],
                    pixels@[4 * j + 3],
                ),
            forall|j: int| 0 <= j < k ==> #[trigger] out@[4 * j + 3] == pixels@[4 * j + 3],
    {
        let a = pixels[4 * k + 3] as u16;
        for c in 0..3usize
            invariant
                count == pixels@.len() / 4,
                4 * count <= pixels@.len() <= usize::MAX,
                k < count,
                a == pixels@[4 * k + 3],
                out@.len() == 4 * k + c,
                forall|j: int, d: int|
                    0 <= j < k && 0 <= d < 3 ==> #[trigger] out@[4 * j + d] == premultiplied_channel(
                        pixels@[4 * j + d],
                        pixels@[4 * j + 3],
                    ),
                forall|j: int| 0 <= j < k ==> #[trigger] out@[4 * j + 3] == pixels@[4 * j + 3],
                forall|d: int| 0 <= d < c ==> #[trigger] out@[4 * k + d] == premultiplied_channel(
                    pixels@[4 * k + d],
                    pixels@[4 * k + 3],
                ),
        {
            let v = pixels[4 * k + c] as u16;
            assert(v * a <= 255 * 255) by (nonlinear_arith)
                requires
                    v <= 255,
                    a <= 255,
            ;
            out.push(((v * a) / 255) as u8);
        }
        out.push(pixels[4 * k + 3]);
    }
    out
}

/// Divide the color channels of every pixel with coverage by that coverage,
/// capped at 255; fully transparent pixels are left as they are.
pub fn unpremultiply(pixels: &mut Vec<u8>)
    ensures
        final(pixels)@.len() == old(pixels)@.len(),
        forall|k: int, c: int|
            0 <= k < old(pixels)@.len() / 4 && 0 <= c < 3 ==> #[trigger] final(pixels)@[4 * k + c]
                == restored(old(pixels)@, k, c),
        forall|i: int|
            0 <= i < old(pixels)@.len() && (i % 4 == 3 || i >= 4 * (old(pixels)@.len() / 4))
                ==> #[trigger] final(pixels)@[i] == old(pixels)@[i],
{
    let count = pixels.len() / 4;
    let ghost start = pixels@;
    for k in 0..count
        invariant
            count == start.len() / 4,
            4 * count <= start.len() <= usize::MAX,
            pixels@.len() == start.len(),
            forall|j: int, c: int| 0 <= j < k && 0 <= c < 3 ==> #[trigger] pixels@[4 * j + c] == restored(start, j, c),
            forall|i: int| 4 * k <= i < start.len() ==> #[trigger] pixels@[i] == start[i],
            forall|i: int| 0 <= i < start.len() && i % 4 == 3 ==> #[trigger] pixels@[i] == start[i],
    {
        let a = pixels[4 * k + 3] as u32;
        if a > 0 {
            for c in 0..3usize
                invariant
                    count == start.len() / 4,
                    4 * count <= start.len() <= usize::MAX,
                    k < count,
                    a == start[4 * k + 3],
                    a > 0,
                    pixels@.len() == start.len(),
                    forall|j: int, d: int| 0 <= j < k && 0 <= d < 3 ==> #[trigger] pixels@[4 * j + d] == restored(start, j, d),
                    forall|d: int| 0 <= d < c ==> #[trigger] pixels@[4 * k + d] == unpremultiplied_channel(
                        start[4 * k + d],
                        start[4 * k + 3],
                    ),
                    forall|i: int| 4 * k + c <= i < start.len() ==> #[trigger] pixels@[i] == start[i],
                    forall|i: int| 0 <= i < start.len() && i % 4 == 3 ==> #[trigger] pixels@[i] == start[i],
            {
                let v = pixels[4 * k + c] as u32;
                let scaled = (v * 255) / a;
                let value: u8 = if scaled > 255 { 255 } else { scaled as u8 };
                pixels.set(4 * k + c, value);
            }
        }
    }
}

/// Coverage `a` scaled by the selection value `m`, rounded down.
pub open spec fn covered(a: u8, m: u8) -> int {
    a * m / 255
}

/// Index into a selection `mask_width` pixels wide of the pixel that the
/// `k`-th pixel of an image `width` pixels wide lands on when the image's
/// corner sits at (`left`, `top`).
pub open spec fn mask_index(k: int, width: int, mask_width: int, left: int, top: int) -> int {
    (k / width + top) * mask_width + k % width + left
}

/// Scale the coverage of every pixel of `image`, `width` x `height` pixels cut
/// from a canvas at (`left`, `top`), by the selection `mask` over that canvas
/// (one byte a pixel, `mask_width` pixels a row). Colors are kept.
pub fn mask_alpha(image: &mut Vec<u8>, width: u32, height: u32, mask: &[u8], mask_width: u32, left: u32, top: u32)
    requires
        old(image)@.len() == 4 * width * height,
        left + width <= mask_width,
        (top + height) * mask_width <= mask@.len(),
    ensures
        final(image)@.len() == old(image)@.len(),
        forall|k: int|
            0 <= k < width * height ==> #[trigger] final(image)@[4 * k + 3] == covered(
                old(image)@[4 * k + 3],
                mask@[mask_index(k, width as int, mask_width as int, left as int, top as int)],
            ),
        forall|i: int| 0 <= i < old(image)@.len() && i % 4 != 3 ==> #[trigger] final(image)@[i] == old(image)@[i],
{
    let ghost start = image@;
    let n = image.len() / 4;
    assert(n == width * height) by (nonlinear_arith)
        requires
            n == image@.len() / 4,
            image@.len() == 4 * width * height,
    ;
    let mask_len = mask.len();
    let total = image.len();
    let mut k: usize = 0;
    let mut x: usize = 0;
    let mut y: usize = 0;
    while k < n
        invariant
            mask_len == mask@.len(),
            total == start.len(),
            start.len() == 4 * width * height,
            n == width * height,
            left + width <= mask_width,
            (top + height) * mask_width <= mask@.len(),
            image@.len() == start.len(),
            k <= n,
            x < width || k == n,
            k == y * width + x,
            k < n ==> y < height,
            forall|j: int|
                0 <= j < k ==> #[trigger] image@[4 * j + 3] == covered(
                    start[4 * j + 3],
                    mask@[mask_index(j, width as int, mask_width as int, left as int, top as int)],
                ),
            forall|i: int| 0 <= i < start.len() && (i % 4 != 3 || i >= 4 * k) ==> #[trigger] image@[i] == start[i],
        decreases n - k,
    {
        assert(top + height <= (top + height) * mask_width) by (nonlinear_arith)
            requires
                x < width,
                left + width <= mask_width,
        ;
        assert((y + top) * mask_width + x + left < (top + height) * mask_width) by (nonlinear_arith)
            requires
                y < height,
                x < width,
                left + width <= mask_width,
        ;
        assert(k as int / width as int == y && k as int % width as int == x) by (nonlinear_arith)
            requires
                k == y * width + x,
                x < width,
        ;
        let index = (y + top as usize) * mask_width as usize + x + left as usize;
        assert(4 * k + 3 < image@.len()) by (nonlinear_arith)
            requires
                k < n,
                n == width * height,
                image@.len() == 4 * width * height,
        ;
        let a = image[4 * k + 3] as u16;
        let m = mask[index] as u16;
        assert(a * m <= 255 * 255) by (nonlinear_arith)
            requires
                a <= 255,
                m <= 255,
        ;
        image.set(4 * k + 3, (a * m / 255) as u8);
        k = k + 1;
        x = x + 1;
        if x == width as usize {
            assert(k == (y + 1) * width) by (nonlinear_arith)
                requires
                    k == y * width + x,
                    x == width,
            ;
            x = 0;
            y = y + 1;
            assert(k < n ==> y < height) by (nonlinear_arith)
                requires
                    k == y * width,
                    n == width * height,
            ;
        }
    }
}

} // verus!
