use std::sync::atomic::AtomicBool;

use xuan::document::{Document, Layer};
use xuan::retouch::edge_matte;
use xuan::targets::{fill_layer, matte_layer, paint_layer, retouch_layer, PaintError, TargetError};

// Content: (develops a RAW file, is an adjustment, holds pixels).
type Content = (bool, bool, bool);

fn raw(c: &Content) -> bool {
    c.0
}

fn adjustment(c: &Content) -> bool {
    c.1
}

fn pixels(c: &Content) -> bool {
    c.2
}

fn doc(content: Content) -> Document<Content> {
    Document::new(8, 8, content).unwrap()
}

#[test]
fn retouching_needs_an_unlocked_pixel_layer() {
    let mut d = doc((false, false, true));
    assert_eq!(retouch_layer(&d, raw, adjustment), Ok(0));
    d.layers[0].content = (true, false, true);
    assert_eq!(retouch_layer(&d, raw, adjustment), Err(TargetError::RawLayer));
    d.layers[0].content = (false, true, false);
    assert_eq!(retouch_layer(&d, raw, adjustment), Err(TargetError::LockedPixelLayer));
    d.layers[0].content = (false, false, true);
    d.layers[0].locked = true;
    assert_eq!(retouch_layer(&d, raw, adjustment), Err(TargetError::LockedPixelLayer));
    d.active = None;
    assert_eq!(retouch_layer(&d, raw, adjustment), Err(TargetError::NoPixelLayer));
    assert_eq!(TargetError::RawLayer.message(), "Rasterize the RAW layer before applying a pixel retouch operation");
}

#[test]
fn filling_needs_a_selection_first() {
    let mut d = doc((false, false, true));
    d.active = None;
    assert_eq!(fill_layer(&d, false, raw, adjustment), Err(TargetError::NoSelection));
    assert_eq!(fill_layer(&d, true, raw, adjustment), Err(TargetError::NoPixelLayer));
    d.insert(Layer::blank("Paint".to_string(), (false, false, true)));
    assert_eq!(fill_layer(&d, true, raw, adjustment), Ok(1));
    assert_eq!(TargetError::NoSelection.message(), "Select the area to fill first");
}

#[test]
fn background_removal_needs_an_unlocked_layer_with_pixels() {
    let mut d = doc((false, false, true));
    assert_eq!(matte_layer(&d, pixels), Ok(0));
    d.layers[0].content = (false, false, false);
    assert_eq!(matte_layer(&d, pixels), Err(TargetError::EmptyLayer));
    d.layers[0].group = true;
    assert_eq!(matte_layer(&d, pixels), Err(TargetError::LockedImageLayer));
    d.active = None;
    assert_eq!(matte_layer(&d, pixels), Err(TargetError::NoImageLayer));
    assert_eq!(TargetError::EmptyLayer.message(), "The selected layer is empty");
}

#[test]
fn background_removal_creates_an_editable_mask() {
    // Content: the layer's RGBA pixels, if it has any.
    let mut doc: Document<Option<Vec<u8>>> = Document::new(20, 20, None).unwrap();
    let mut image = Vec::new();
    for y in 0..20u32 {
        for x in 0..20u32 {
            if (5..15).contains(&x) && (5..15).contains(&y) {
                image.extend_from_slice(&[50, 80, 130, 255]);
            } else {
                image.extend_from_slice(&[255; 4]);
            }
        }
    }
    doc.layers[0].content = Some(image);
    let at = matte_layer(&doc, |c: &Option<Vec<u8>>| c.is_some()).unwrap();
    let pixels = doc.layers[at].content.as_ref().unwrap();
    let mask = edge_matte(pixels, 20, 20, 20, &AtomicBool::new(false)).unwrap();
    assert_eq!(mask[0], 0);
    assert_eq!(mask[10 * 20 + 10], 255);
    assert_eq!(doc.layers[0].content.as_ref().unwrap()[3], 255);
}

#[test]
fn painting_and_filters_need_an_active_unlocked_layer() {
    let mut d = doc((false, false, true));
    assert_eq!(paint_layer(&d, false, adjustment), Ok(0));
    assert_eq!(paint_layer(&d, true, adjustment), Ok(0));
    // An adjustment or a group has no pixels to paint, but its mask can be painted.
    d.layers[0].content = (false, true, false);
    assert_eq!(paint_layer(&d, false, adjustment), Err(PaintError::LockedPixels));
    assert_eq!(paint_layer(&d, true, adjustment), Ok(0));
    d.layers[0].content = (false, false, true);
    d.layers[0].group = true;
    assert_eq!(paint_layer(&d, false, adjustment), Err(PaintError::LockedPixels));
    assert_eq!(paint_layer(&d, true, adjustment), Ok(0));
    d.layers[0].group = false;
    d.layers[0].locked = true;
    assert_eq!(paint_layer(&d, false, adjustment), Err(PaintError::LockedPixels));
    assert_eq!(paint_layer(&d, true, adjustment), Err(PaintError::LockedLayer));
    d.active = None;
    assert_eq!(paint_layer(&d, false, adjustment), Err(PaintError::NoLayer));
    assert_eq!(paint_layer(&d, true, adjustment), Err(PaintError::NoLayer));
    assert_eq!(PaintError::NoLayer.message(), "Select a layer first");
    assert_eq!(PaintError::LockedLayer.message(), "The layer is locked");
    assert_eq!(PaintError::LockedPixels.message(), "Select an unlocked pixel layer to paint");
}
