//! The checks an opened document must pass, its pixel assets with its
//! structure: no group or adjustment layer holds pixels, every image and
//! mask has an accepted size, and images and masks each stay within the
//! pixel limit, each layer checked in turn.
use vstd::prelude::*;

use crate::document::{
    check_clipping, check_name, check_parents, clip_walk, frame_check, layers_check_from, name_ok, parent_walk, side_ok,
    size_ok, structure_check, Document, DocumentError, Layer, SizeError, MAX_PIXELS,
};

verus! {

/// What the checks read of a layer's content: whether it is an adjustment,
/// and the sizes of its image and its mask, where it has them.
#[derive(Clone, Copy, Debug)]
pub struct Assets {
    pub adjustment: bool,
    pub pixels: Option<(u32, u32)>,
    pub mask: Option<(u32, u32)>,
}

/// The number of pixels of an optional image size.
pub open spec fn area(size: Option<(u32, u32)>) -> int {
    match size {
        Some((w, h)) => w * h,
        None => 0,
    }
}

/// The image size is given and refused.
pub open spec fn refused(size: Option<(u32, u32)>) -> bool {
    size matches Some((w, h)) && !size_ok(w, h)
}

/// Why a given image size is refused.
pub open spec fn refusal(size: Option<(u32, u32)>) -> SizeError {
    match size {
        Some((w, h)) => asset_size_error(w, h),
        None => SizeError::Dimensions,
    }
}

/// The size error for a refused image of `width` x `height`.
pub open spec fn asset_size_error(width: u32, height: u32) -> SizeError {
    if side_ok(width) && side_ok(height) {
        SizeError::TooManyPixels
    } else {
        SizeError::Dimensions
    }
}

/// The first error among the layers from `i` up, given their assets
/// `infos` and the image and mask pixels `pixels` and `masks` counted below
/// `i`. Each layer is checked in turn: its name, that a group or an
/// adjustment holds no pixels, the sizes of its image and its mask, its
/// group ancestry and its clipping chain. The totals are judged after every
/// layer has passed.
pub open spec fn load_check_from<P>(
    layers: Seq<Layer<P>>,
    infos: Seq<Assets>,
    i: int,
    pixels: int,
    masks: int,
) -> Result<(), DocumentError>
    decreases layers.len() - i,
{
    if i < 0 || i >= layers.len() {
        if pixels > MAX_PIXELS || masks > MAX_PIXELS {
            Err(DocumentError::AssetBudget)
        } else {
            Ok(())
        }
    } else {
        let l = layers[i];
        let a = infos[i];
        if !name_ok(l.name@) {
            Err(DocumentError::InvalidName)
        } else if (l.group || a.adjustment) && a.pixels is Some {
            Err(DocumentError::GroupPixels)
        } else if refused(a.pixels) {
            Err(DocumentError::Size(refusal(a.pixels)))
        } else if refused(a.mask) {
            Err(DocumentError::Size(refusal(a.mask)))
        } else if parent_walk(layers, seq![l.id], l.parent) is Err {
            parent_walk(layers, seq![l.id], l.parent)
        } else if clip_walk(layers, l.group, seq![l.id], l.clip_to) is Err {
            clip_walk(layers, l.group, seq![l.id], l.clip_to)
        } else {
            load_check_from(layers, infos, i + 1, pixels + area(a.pixels), masks + area(a.mask))
        }
    }
}

/// A document that passes the checks from layer `i` up passes the
/// structural checks of those layers.
pub proof fn lemma_load_check_structure<P>(layers: Seq<Layer<P>>, infos: Seq<Assets>, i: int, pixels: int, masks: int)
    requires
        0 <= i,
        load_check_from(layers, infos, i, pixels, masks) is Ok,
    ensures
        layers_check_from(layers, i) is Ok,
    decreases layers.len() - i,
{
    if i < layers.len() {
        let a = infos[i];
        lemma_load_check_structure(layers, infos, i + 1, pixels + area(a.pixels), masks + area(a.mask));
    }
}

/// A running total capped just above the limit: the verdict on the final
/// total is the same, and the count cannot overflow.
pub open spec fn capped(total: int) -> int {
    if total > MAX_PIXELS { MAX_PIXELS + 1 } else { total }
}

/// Capping the running totals does not change the verdict.
proof fn lemma_capped_verdict<P>(layers: Seq<Layer<P>>, infos: Seq<Assets>, i: int, pixels: int, masks: int)
    requires
        0 <= i,
        0 <= pixels,
        0 <= masks,
        forall|k: int| 0 <= k < infos.len() ==> 0 <= #[trigger] area(infos[k].pixels) && 0 <= area(infos[k].mask),
    ensures
        load_check_from(layers, infos, i, pixels, masks) == load_check_from(
            layers,
            infos,
            i,
            capped(pixels),
            capped(masks),
        ),
    decreases layers.len() - i,
{
    if i < layers.len() {
        let a = infos[i];
        if i < infos.len() {
            assert(0 <= area(a.pixels) && 0 <= area(a.mask));
        }
        lemma_capped_verdict(layers, infos, i + 1, pixels + area(a.pixels), masks + area(a.mask));
        lemma_capped_verdict(layers, infos, i + 1, capped(pixels) + area(a.pixels), capped(masks) + area(a.mask));
    }
}

/// The pixels of an accepted image size, counted in 64 bits.
fn area_of(size: Option<(u32, u32)>) -> (n: u64)
    requires
        size matches Some((w, h)) ==> size_ok(w, h),
    ensures
        n == area(size),
        n <= MAX_PIXELS,
{
    match size {
        Some((w, h)) => (w as u64) * (h as u64),
        None => 0,
    }
}

impl<P> Document<P> {
    /// Check the document as `validate` does, together with its pixel
    /// assets, as `assets` reads them from each layer's content: no group or
    /// adjustment layer holds pixels, each image and mask has an accepted
    /// size, and the images, like the masks, hold at most `MAX_PIXELS`
    /// pixels together. The document-wide checks come first, then each layer
    /// in turn: the first layer that fails decides the error, and the totals
    /// are judged once every layer has passed.
    pub fn validate_with<F: Fn(&P) -> Assets>(&self, assets: F) -> (result: Result<(), DocumentError>)
        requires
            forall|c: &P| #[trigger] assets.requires((c,)),
        ensures
            frame_check(*self) is Err ==> result == frame_check(*self),
            frame_check(*self) is Ok ==> exists|infos: Seq<Assets>|
                #![trigger infos.len()]
                infos.len() == self.layers@.len() && (forall|k: int|
                    0 <= k < infos.len() ==> assets.ensures((&self.layers@[k].content,), #[trigger] infos[k]))
                    && result == load_check_from(self.layers@, infos, 0, 0, 0),
            result is Ok ==> structure_check(*self) is Ok,
    {
        match self.check_frame() {
            Err(e) => return Err(e),
            Ok(()) => {},
        }
        let ghost layers = self.layers@;
        let n = self.layers.len();
        let mut infos: Vec<Assets> = Vec::new();
        for k in 0..n
            invariant
                layers == self.layers@,
                n == layers.len(),
                infos@.len() == k,
                forall|c: &P| #[trigger] assets.requires((c,)),
                forall|j: int| 0 <= j < k ==> assets.ensures((&layers[j].content,), #[trigger] infos@[j]),
        {
            let a = assets(&self.layers[k].content);
            infos.push(a);
        }
        let mut pixels: u64 = 0;
        let mut masks: u64 = 0;
        let ghost mut spec_pixels: int = 0;
        let ghost mut spec_masks: int = 0;
        let ghost all = infos@;
        assert(load_check_from(layers, all, 0, 0, 0) == load_check_from(layers, all, 0, capped(0), capped(0)));
        let mut i: usize = 0;
        while i < n
            invariant
                layers == self.layers@,
                n == layers.len(),
                all == infos@,
                all.len() == n,
                frame_check(*self) is Ok,
                forall|j: int| 0 <= j < n ==> assets.ensures((&layers[j].content,), #[trigger] all[j]),
                i <= n,
                0 <= spec_pixels,
                0 <= spec_masks,
                pixels == capped(spec_pixels),
                masks == capped(spec_masks),
                load_check_from(layers, all, 0, 0, 0) == load_check_from(layers, all, i as int, spec_pixels, spec_masks),
            decreases n - i,
        {
            let a = infos[i];
            let layer = &self.layers[i];
            if !check_name(layer.name.as_str()) {
                return Err(DocumentError::InvalidName);
            }
            let group = layer.group;
            let group_pixels = match a.pixels {
                Some(_) => group || a.adjustment,
                None => false,
            };
            if group_pixels {
                return Err(DocumentError::GroupPixels);
            }
            match a.pixels {
                Some((w, h)) => {
                    if let Err(e) = crate::document::validate_size(w, h) {
                        return Err(DocumentError::Size(e));
                    }
                },
                None => {},
            }
            match a.mask {
                Some((w, h)) => {
                    if let Err(e) = crate::document::validate_size(w, h) {
                        return Err(DocumentError::Size(e));
                    }
                },
                None => {},
            }
            match check_parents(&self.layers, layer.id, layer.parent) {
                Err(e) => return Err(e),
                Ok(()) => {},
            }
            match check_clipping(&self.layers, layer.id, group, layer.clip_to) {
                Err(e) => return Err(e),
                Ok(()) => {},
            }
            let more = area_of(a.pixels);
            let more_masks = area_of(a.mask);
            proof {
                lemma_capped_step(spec_pixels, area(a.pixels));
                lemma_capped_step(spec_masks, area(a.mask));
                lemma_capped_verdict(layers, all, i + 1, spec_pixels + area(a.pixels), spec_masks + area(a.mask));
                lemma_capped_verdict(layers, all, i + 1, capped(spec_pixels) + area(a.pixels), capped(spec_masks) + area(a.mask));
                spec_pixels = capped(spec_pixels) + area(a.pixels);
                spec_masks = capped(spec_masks) + area(a.mask);
            }
            pixels = if pixels + more > MAX_PIXELS { MAX_PIXELS + 1 } else { pixels + more };
            masks = if masks + more_masks > MAX_PIXELS { MAX_PIXELS + 1 } else { masks + more_masks };
            proof {
                spec_pixels = capped(spec_pixels);
                spec_masks = capped(spec_masks);
            }
            i = i + 1;
        }
        if pixels > MAX_PIXELS || masks > MAX_PIXELS {
            Err(DocumentError::AssetBudget)
        } else {
            proof {
                lemma_load_check_structure(layers, all, 0, 0, 0);
            }
            Ok(())
        }
    }
}

/// Capping a running total before or after adding to it ends the same.
proof fn lemma_capped_step(total: int, more: int)
    requires
        0 <= total,
        0 <= more,
    ensures
        capped(capped(total) + more) == capped(total + more),
{
}

} // verus!
