//! The painting tools' modes and the kinds of shape layers.
use vstd::prelude::*;

verus! {

/// What a brush stroke does to the pixels it covers.
#[derive(Clone, Copy, Debug, PartialEq, Eq, Structural)]
pub enum PaintMode {
    Paint,
    Erase,
    Clone,
    Blur,
    Heal,
    Smudge,
}

impl PaintMode {
    /// Whether a gesture in this mode keeps one snapshot across all its
    /// segments, so that where segments overlap the strongest coverage counts
    /// and the opacity of painting or erasing stays even along the stroke.
    /// Strokes on a mask always do; retouching tools build up instead.
    pub fn accumulates(self, mask_target: bool) -> (keep: bool)
        ensures
            keep == (mask_target || self == PaintMode::Paint || self == PaintMode::Erase),
    {
        mask_target || match self {
            PaintMode::Paint | PaintMode::Erase => true,
            _ => false,
        }
    }

    /// Whether a stroke in this mode may grow the layer's pixels to reach
    /// outside them: painting and cloning onto the layer itself, not a mask.
    pub fn grows_layer(self, mask_target: bool) -> (grows: bool)
        ensures
            grows == (!mask_target && (self == PaintMode::Paint || self == PaintMode::Clone)),
    {
        !mask_target && match self {
            PaintMode::Paint | PaintMode::Clone => true,
            _ => false,
        }
    }
}

/// The outline of a shape layer.
#[derive(Clone, Copy, Debug, PartialEq, Eq, Structural)]
pub enum ShapeKind {
    Rectangle,
    Ellipse,
    RoundedRectangle,
}

} // verus!
