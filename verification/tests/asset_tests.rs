use xuan::assets::Assets;
use xuan::document::{Document, DocumentError, Layer, SizeError};

// Content: (is an adjustment, image size, mask size).
type Content = (bool, Option<(u32, u32)>, Option<(u32, u32)>);

fn read(c: &Content) -> Assets {
    Assets { adjustment: c.0, pixels: c.1, mask: c.2 }
}

fn doc(content: Content) -> Document<Content> {
    Document::new(64, 64, content).unwrap()
}

#[test]
fn assets_pass_within_their_limits() {
    let mut d = doc((false, Some((64, 64)), Some((64, 64))));
    d.layers.push(Layer::blank("Adjust".to_string(), (true, None, None)));
    assert_eq!(d.validate_with(read), Ok(()));
}

#[test]
fn groups_and_adjustments_cannot_hold_pixels() {
    let mut d = doc((false, Some((8, 8)), None));
    d.layers[0].group = true;
    assert_eq!(d.validate_with(read), Err(DocumentError::GroupPixels));
    let d = doc((true, Some((8, 8)), None));
    assert_eq!(d.validate_with(read), Err(DocumentError::GroupPixels));
    assert_eq!(DocumentError::GroupPixels.message(), "Group/adjustment cannot contain pixels");
}

#[test]
fn images_and_masks_need_accepted_sizes() {
    let d = doc((false, Some((30_001, 1)), None));
    assert_eq!(d.validate_with(read), Err(DocumentError::Size(SizeError::Dimensions)));
    let d = doc((false, Some((8, 8)), Some((20_000, 20_000))));
    assert_eq!(d.validate_with(read), Err(DocumentError::Size(SizeError::TooManyPixels)));
}

#[test]
fn images_and_masks_share_the_pixel_limit() {
    let mut d = doc((false, Some((10_000, 6_000)), None));
    assert_eq!(d.validate_with(read), Ok(()));
    d.layers.push(Layer::blank("More".to_string(), (false, Some((10_000, 5_000)), None)));
    assert_eq!(d.validate_with(read), Err(DocumentError::AssetBudget));
    d.layers[1].content = (false, Some((10_000, 4_000)), Some((10_000, 10_000)));
    assert_eq!(d.validate_with(read), Ok(()));
    // A later layer's own error comes before the totals are judged.
    d.layers[1].content = (false, Some((10_000, 5_000)), None);
    d.layers.push(Layer::blank("Bad".to_string(), (false, Some((0, 1)), None)));
    assert_eq!(d.validate_with(read), Err(DocumentError::Size(SizeError::Dimensions)));
    assert_eq!(DocumentError::AssetBudget.message(), "Project exceeds the 100 megapixel asset limit");
}

#[test]
fn each_layer_is_checked_in_turn() {
    // On one layer the name comes first, then its pixels, then its ancestry.
    let mut d = doc((false, Some((8, 8)), None));
    d.layers[0].group = true;
    d.layers[0].name = " ".to_string();
    assert_eq!(d.validate_with(read), Err(DocumentError::InvalidName));
    d.layers[0].name = "Group".to_string();
    d.layers[0].parent = Some(12_345);
    assert_eq!(d.validate_with(read), Err(DocumentError::GroupPixels));
    d.layers[0].group = false;
    assert_eq!(d.validate_with(read), Err(DocumentError::MissingParent));
    // An earlier layer's asset error comes before a later layer's name.
    let mut d = doc((false, Some((8, 8)), Some((0, 8))));
    d.layers.push(Layer::blank(" ".to_string(), (false, None, None)));
    assert_eq!(d.validate_with(read), Err(DocumentError::Size(SizeError::Dimensions)));
    // The document-wide checks come before any layer.
    let mut d = doc((true, Some((8, 8)), None));
    d.active = Some(12_345);
    assert_eq!(d.validate_with(read), Err(DocumentError::MissingActive));
}
