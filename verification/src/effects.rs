//! The kinds of adjustment layers and of filters, the names the editor
//! shows for them (in menus and as the names of undo steps), and whether the
//! graphics device can take a motion blur.
use vstd::prelude::*;

verus! {

/// What an adjustment layer does to the colors below it.
#[derive(Clone, Copy, Debug, PartialEq, Eq, Structural)]
pub enum AdjustmentKind {
    HueSaturation,
    Levels,
    Curves,
    Exposure,
    GradientMap,
    Grain,
    Invert,
}

/// The display name of an adjustment of kind `kind`.
pub open spec fn adjustment_name(kind: AdjustmentKind) -> Seq<char> {
    match kind {
        AdjustmentKind::HueSaturation => "Hue/Saturation"@,
        AdjustmentKind::Levels => "Levels"@,
        AdjustmentKind::Curves => "Curves"@,
        AdjustmentKind::Exposure => "Exposure"@,
        AdjustmentKind::GradientMap => "Gradient Map"@,
        AdjustmentKind::Grain => "Grain"@,
        AdjustmentKind::Invert => "Invert"@,
    }
}

impl AdjustmentKind {
    /// The display name of the adjustment.
    pub fn name(&self) -> (name: &'static str)
        ensures
            name@ == adjustment_name(*self),
    {
        match self {
            AdjustmentKind::HueSaturation => "Hue/Saturation",
            AdjustmentKind::Levels => "Levels",
            AdjustmentKind::Curves => "Curves",
            AdjustmentKind::Exposure => "Exposure",
            AdjustmentKind::GradientMap => "Gradient Map",
            AdjustmentKind::Grain => "Grain",
            AdjustmentKind::Invert => "Invert",
        }
    }
}

/// What a filter does to a layer's pixels.
#[derive(Clone, Copy, Debug, PartialEq, Eq, Structural)]
pub enum FilterKind {
    GaussianBlur,
    MotionBlur,
    Noise,
    LensCorrection,
}

/// The display name of a filter of kind `kind`.
pub open spec fn filter_name(kind: FilterKind) -> Seq<char> {
    match kind {
        FilterKind::GaussianBlur => "Gaussian Blur"@,
        FilterKind::MotionBlur => "Motion Blur"@,
        FilterKind::Noise => "Add Noise"@,
        FilterKind::LensCorrection => "Lens Correction"@,
    }
}

impl FilterKind {
    /// The display name of the filter.
    pub fn name(&self) -> (name: &'static str)
        ensures
            name@ == filter_name(*self),
    {
        match self {
            FilterKind::GaussianBlur => "Gaussian Blur",
            FilterKind::MotionBlur => "Motion Blur",
            FilterKind::Noise => "Add Noise",
            FilterKind::LensCorrection => "Lens Correction",
        }
    }
}

/// No two kinds of adjustment share a name, nor do two kinds of filter.
pub proof fn lemma_kind_names_distinct(a: AdjustmentKind, b: AdjustmentKind, f: FilterKind, g: FilterKind)
    ensures
        adjustment_name(a) == adjustment_name(b) ==> a == b,
        filter_name(f) == filter_name(g) ==> f == g,
{
    reveal_strlit("Hue/Saturation");
    reveal_strlit("Levels");
    reveal_strlit("Curves");
    reveal_strlit("Exposure");
    reveal_strlit("Gradient Map");
    reveal_strlit("Grain");
    reveal_strlit("Invert");
    reveal_strlit("Gaussian Blur");
    reveal_strlit("Motion Blur");
    reveal_strlit("Add Noise");
    reveal_strlit("Lens Correction");
    if adjustment_name(a) == adjustment_name(b) && a != b {
        assert(adjustment_name(a).len() != adjustment_name(b).len() || adjustment_name(a)[0] != adjustment_name(b)[0]
            || adjustment_name(a)[2] != adjustment_name(b)[2]);
    }
    if filter_name(f) == filter_name(g) && f != g {
        assert(filter_name(f)[0] != filter_name(g)[0]);
    }
}

/// The graphics device's limits that motion blur on the device depends on.
#[derive(Clone, Copy, Debug, PartialEq, Eq)]
pub struct GpuLimits {
    /// Longest side of a two-dimensional texture.
    pub max_texture_side: u32,
    /// Most compute workgroups along one dimension.
    pub max_workgroups: u32,
    /// Largest buffer, in bytes.
    pub max_buffer: u64,
    /// Largest uniform buffer binding, in bytes.
    pub max_uniform: u32,
}

/// The bytes of one row of `width` RGBA pixels, rounded up to a multiple of 256.
pub open spec fn row_stride(width: int) -> int {
    (width * 4 + 255) / 256 * 256
}

/// A `width` × `height` image padded by `padding` pixels on every side has
/// sides that fit in `u32`, is not empty, and fits the texture side and the
/// workgroup count of `limits`: what the device checks before it sizes its
/// read-back buffer.
pub open spec fn padded_fits(width: u32, height: u32, padding: u32, limits: GpuLimits) -> bool {
    let w = width + 2 * padding;
    let h = height + 2 * padding;
    let side = if w >= h { w } else { h };
    &&& 2 * padding <= u32::MAX
    &&& w <= u32::MAX
    &&& h <= u32::MAX
    &&& width > 0
    &&& height > 0
    &&& side <= limits.max_texture_side
    &&& (side + 7) / 8 <= limits.max_workgroups
}

/// Motion blur of a `width` × `height` image padded by `padding` runs on the
/// device: the padded image fits, its read-back buffer of 256-byte aligned
/// rows fits `max_buffer` with rows no longer than `u32::MAX` bytes, and the
/// blur's `parameters` bytes fit a uniform binding.
pub open spec fn gpu_blur_fits(width: u32, height: u32, padding: u32, limits: GpuLimits, parameters: usize) -> bool {
    let w = width + 2 * padding;
    let h = height + 2 * padding;
    &&& padded_fits(width, height, padding, limits)
    &&& row_stride(w) * h <= limits.max_buffer
    &&& row_stride(w) <= u32::MAX
    &&& parameters <= limits.max_uniform
}

/// Whether motion blur of a `width` × `height` image padded by `padding`
/// pixels on each side can run on a device with `limits`, the blur's
/// parameters taking `parameters` bytes. Otherwise it runs on the processor.
/// The buffer size is computed in 64 bits, so a padded image whose buffer
/// would not fit in them is left out.
pub fn device_can_blur(width: u32, height: u32, padding: u32, limits: GpuLimits, parameters: usize) -> (fits:
    bool)
    requires
        padded_fits(width, height, padding, limits) ==> row_stride(width + 2 * padding) * (height + 2 * padding)
            <= u64::MAX,
    ensures
        fits == gpu_blur_fits(width, height, padding, limits, parameters),
{
    let twice = match padding.checked_mul(2) {
        Some(t) => t,
        None => return false,
    };
    let w = match width.checked_add(twice) {
        Some(w) => w,
        None => return false,
    };
    let h = match height.checked_add(twice) {
        Some(h) => h,
        None => return false,
    };
    let side = if w >= h { w } else { h };
    let groups = side / 8 + if side % 8 == 0 { 0 } else { 1 };
    if width == 0 || height == 0 || side > limits.max_texture_side || groups > limits.max_workgroups {
        return false;
    }
    assert(groups == (side + 7) / 8);
    let stride: u64 = ((w as u64) * 4 + 255) / 256 * 256;
    assert(stride == row_stride(w as int));
    let buffer: u64 = stride * (h as u64);
    !(buffer > limits.max_buffer || stride > u32::MAX as u64 || parameters > limits.max_uniform as usize)
}

} // verus!
