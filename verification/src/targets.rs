//! The layer the retouching, painting and filter tools work on, and why they
//! refuse one: content-aware fill and healing need an unlocked pixel layer,
//! background removal an unlocked layer with pixels, painting and filters an
//! active layer that is unlocked (and, for its pixels, no group or
//! adjustment).
use vstd::prelude::*;

use crate::document::{lemma_position, position_opt, Document};

verus! {

/// Why a retouching tool refused the document.
#[derive(Clone, Copy, Debug, PartialEq, Eq)]
pub enum TargetError {
    /// Content-aware fill was asked for without a selection.
    NoSelection,
    /// No layer is active.
    NoPixelLayer,
    /// The active layer still develops a camera RAW file.
    RawLayer,
    /// The active layer is locked, a group or an adjustment.
    LockedPixelLayer,
    /// Background removal found no active layer.
    NoImageLayer,
    /// Background removal found the active layer locked or a group.
    LockedImageLayer,
    /// Background removal found the active layer without pixels.
    EmptyLayer,
}

/// The message shown for a refused retouch.
pub open spec fn target_text(e: TargetError) -> Seq<char> {
    match e {
        TargetError::NoSelection => "Select the area to fill first"@,
        TargetError::NoPixelLayer => "Select a pixel layer"@,
        TargetError::RawLayer => "Rasterize the RAW layer before applying a pixel retouch operation"@,
        TargetError::LockedPixelLayer => "Select an unlocked pixel layer"@,
        TargetError::NoImageLayer => "Select an image layer"@,
        TargetError::LockedImageLayer => "Select an unlocked image layer"@,
        TargetError::EmptyLayer => "The selected layer is empty"@,
    }
}

impl TargetError {
    /// The message shown for the error.
    pub fn message(&self) -> (text: &'static str)
        ensures
            text@ == target_text(*self),
    {
        match self {
            TargetError::NoSelection => "Select the area to fill first",
            TargetError::NoPixelLayer => "Select a pixel layer",
            TargetError::RawLayer => "Rasterize the RAW layer before applying a pixel retouch operation",
            TargetError::LockedPixelLayer => "Select an unlocked pixel layer",
            TargetError::NoImageLayer => "Select an image layer",
            TargetError::LockedImageLayer => "Select an unlocked image layer",
            TargetError::EmptyLayer => "The selected layer is empty",
        }
    }
}

/// The active layer of `document`, as content-aware fill and healing take
/// it: it must exist, must not develop a RAW file (as `raw` judges its
/// content), and must be unlocked, not a group and not an adjustment (as
/// `adjustment` judges its content). The result is the layer's index.
pub fn retouch_layer<P, R: Fn(&P) -> bool, A: Fn(&P) -> bool>(document: &Document<P>, raw: R, adjustment: A) -> (result:
    Result<usize, TargetError>)
    requires
        forall|c: &P| #[trigger] raw.requires((c,)),
        forall|c: &P| #[trigger] adjustment.requires((c,)),
    ensures
        ({
            let at = position_opt(document.layers@, document.active);
            let l = document.layers@[at];
            &&& at < 0 <==> result == Err::<usize, TargetError>(TargetError::NoPixelLayer)
            &&& result == Err::<usize, TargetError>(TargetError::RawLayer) ==> at >= 0 && raw.ensures(
                (&l.content,),
                true,
            )
            &&& result == Err::<usize, TargetError>(TargetError::LockedPixelLayer) ==> at >= 0 && raw.ensures(
                (&l.content,),
                false,
            ) && (l.locked || l.group || adjustment.ensures((&l.content,), true))
            &&& result matches Ok(i) ==> i == at && raw.ensures((&l.content,), false) && !l.locked && !l.group
                && adjustment.ensures((&l.content,), false)
            &&& result is Err ==> result == Err::<usize, TargetError>(TargetError::NoPixelLayer) || result == Err::<
                usize,
                TargetError,
            >(TargetError::RawLayer) || result == Err::<usize, TargetError>(TargetError::LockedPixelLayer)
        }),
{
    proof {
        if document.active is Some {
            lemma_position(document.layers@, document.active->0);
        }
    }
    let at = match document.active_index() {
        None => return Err(TargetError::NoPixelLayer),
        Some(i) => i,
    };
    let layer = &document.layers[at];
    if raw(&layer.content) {
        return Err(TargetError::RawLayer);
    }
    if layer.locked || layer.group || adjustment(&layer.content) {
        return Err(TargetError::LockedPixelLayer);
    }
    Ok(at)
}

/// The layer content-aware fill works on: as `retouch_layer` takes it, once
/// there is a selection to fill.
pub fn fill_layer<P, R: Fn(&P) -> bool, A: Fn(&P) -> bool>(
    document: &Document<P>,
    selection: bool,
    raw: R,
    adjustment: A,
) -> (result: Result<usize, TargetError>)
    requires
        forall|c: &P| #[trigger] raw.requires((c,)),
        forall|c: &P| #[trigger] adjustment.requires((c,)),
    ensures
        !selection ==> result == Err::<usize, TargetError>(TargetError::NoSelection),
        selection ==> ({
            let at = position_opt(document.layers@, document.active);
            let l = document.layers@[at];
            &&& at < 0 <==> result == Err::<usize, TargetError>(TargetError::NoPixelLayer)
            &&& result == Err::<usize, TargetError>(TargetError::RawLayer) ==> at >= 0 && raw.ensures(
                (&l.content,),
                true,
            )
            &&& result == Err::<usize, TargetError>(TargetError::LockedPixelLayer) ==> at >= 0 && raw.ensures(
                (&l.content,),
                false,
            ) && (l.locked || l.group || adjustment.ensures((&l.content,), true))
            &&& result matches Ok(i) ==> i == at && raw.ensures((&l.content,), false) && !l.locked && !l.group
                && adjustment.ensures((&l.content,), false)
            &&& result is Err ==> result == Err::<usize, TargetError>(TargetError::NoPixelLayer) || result == Err::<
                usize,
                TargetError,
            >(TargetError::RawLayer) || result == Err::<usize, TargetError>(TargetError::LockedPixelLayer)
        }),
{
    if !selection {
        return Err(TargetError::NoSelection);
    }
    retouch_layer(document, raw, adjustment)
}

/// The layer background removal works on: the active layer, unlocked, not a
/// group, and holding pixels (as `has_pixels` judges its content). The result
/// is the layer's index.
pub fn matte_layer<P, H: Fn(&P) -> bool>(document: &Document<P>, has_pixels: H) -> (result: Result<usize, TargetError>)
    requires
        forall|c: &P| #[trigger] has_pixels.requires((c,)),
    ensures
        ({
            let at = position_opt(document.layers@, document.active);
            let l = document.layers@[at];
            &&& at < 0 <==> result == Err::<usize, TargetError>(TargetError::NoImageLayer)
            &&& at >= 0 ==> ((l.locked || l.group) <==> result == Err::<usize, TargetError>(
                TargetError::LockedImageLayer,
            ))
            &&& result == Err::<usize, TargetError>(TargetError::EmptyLayer) ==> at >= 0 && has_pixels.ensures(
                (&l.content,),
                false,
            )
            &&& result matches Ok(i) ==> i == at && !l.locked && !l.group && has_pixels.ensures((&l.content,), true)
            &&& result is Err ==> result == Err::<usize, TargetError>(TargetError::NoImageLayer) || result == Err::<
                usize,
                TargetError,
            >(TargetError::LockedImageLayer) || result == Err::<usize, TargetError>(TargetError::EmptyLayer)
        }),
{
    proof {
        if document.active is Some {
            lemma_position(document.layers@, document.active->0);
        }
    }
    let at = match document.active_index() {
        None => return Err(TargetError::NoImageLayer),
        Some(i) => i,
    };
    let layer = &document.layers[at];
    if layer.locked || layer.group {
        return Err(TargetError::LockedImageLayer);
    }
    if !has_pixels(&layer.content) {
        return Err(TargetError::EmptyLayer);
    }
    Ok(at)
}

/// Why painting or a filter refused the active layer.
#[derive(Clone, Copy, Debug, PartialEq, Eq)]
pub enum PaintError {
    /// No layer is active.
    NoLayer,
    /// The layer's mask was the target and the layer is locked.
    LockedLayer,
    /// The layer's pixels were the target and the layer is locked, a group or an adjustment.
    LockedPixels,
}

/// The message shown for a refused paint stroke or filter.
pub open spec fn paint_text(e: PaintError) -> Seq<char> {
    match e {
        PaintError::NoLayer => "Select a layer first"@,
        PaintError::LockedLayer => "The layer is locked"@,
        PaintError::LockedPixels => "Select an unlocked pixel layer to paint"@,
    }
}

impl PaintError {
    /// The message shown for the error.
    pub fn message(&self) -> (text: &'static str)
        ensures
            text@ == paint_text(*self),
    {
        match self {
            PaintError::NoLayer => "Select a layer first",
            PaintError::LockedLayer => "The layer is locked",
            PaintError::LockedPixels => "Select an unlocked pixel layer to paint",
        }
    }
}

/// The layer a paint stroke or a filter works on: the active layer, whose
/// mask (when `mask_target`) needs the layer unlocked, and whose pixels need
/// it unlocked, not a group and not an adjustment (as `adjustment` judges its
/// content). The result is the layer's index.
pub fn paint_layer<P, A: Fn(&P) -> bool>(document: &Document<P>, mask_target: bool, adjustment: A) -> (result:
    Result<usize, PaintError>)
    requires
        forall|c: &P| #[trigger] adjustment.requires((c,)),
    ensures
        ({
            let at = position_opt(document.layers@, document.active);
            let l = document.layers@[at];
            &&& at < 0 <==> result == Err::<usize, PaintError>(PaintError::NoLayer)
            &&& at >= 0 && mask_target ==> (l.locked <==> result == Err::<usize, PaintError>(
                PaintError::LockedLayer,
            ))
            &&& at >= 0 && !mask_target && (l.locked || l.group) ==> result == Err::<usize, PaintError>(
                PaintError::LockedPixels,
            )
            &&& result == Err::<usize, PaintError>(PaintError::LockedPixels) ==> at >= 0 && !mask_target && (
            l.locked || l.group || adjustment.ensures((&l.content,), true))
            &&& result matches Ok(i) ==> i == at && !l.locked && (!mask_target ==> !l.group
                && adjustment.ensures((&l.content,), false))
            &&& result is Err ==> result == Err::<usize, PaintError>(PaintError::NoLayer) || result == Err::<
                usize,
                PaintError,
            >(PaintError::LockedLayer) || result == Err::<usize, PaintError>(PaintError::LockedPixels)
        }),
{
    proof {
        if document.active is Some {
            lemma_position(document.layers@, document.active->0);
        }
    }
    let at = match document.active_index() {
        None => return Err(PaintError::NoLayer),
        Some(i) => i,
    };
    let layer = &document.layers[at];
    if mask_target {
        if layer.locked {
            return Err(PaintError::LockedLayer);
        }
    } else if layer.locked || layer.group || adjustment(&layer.content) {
        return Err(PaintError::LockedPixels);
    }
    Ok(at)
}

} // verus!
