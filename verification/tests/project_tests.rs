use std::collections::HashSet;

use xuan::document::{Document, DocumentError, Layer, SizeError};
use xuan::assets::Assets;
use xuan::project::{charge_pixels, check_header, finish_load, ProjectError};

fn doc(width: u32, height: u32) -> Document<()> {
    Document::new(width, height, ()).unwrap()
}

fn no_assets<T>(_: &T) -> Assets {
    Assets { adjustment: false, pixels: None, mask: None }
}

fn format() -> String {
    "org.xuan.project".to_string()
}

#[test]
fn header_accepts_the_current_format() {
    let doc = doc(64, 48);
    assert_eq!(check_header(2, &format(), 1, &doc), Ok(()));
    assert_eq!(check_header(20_001, &format(), 1, &doc), Ok(()));
}

#[test]
fn header_refuses_each_fault_in_order() {
    let mut doc = doc(64, 48);
    assert_eq!(check_header(20_002, &"other".to_string(), 2, &doc), Err(ProjectError::TooManyAssets));
    assert_eq!(check_header(2, &"org.xuan.projects".to_string(), 1, &doc), Err(ProjectError::UnsupportedVersion));
    assert_eq!(check_header(2, &format(), 2, &doc), Err(ProjectError::UnsupportedVersion));
    doc.width = 0;
    assert_eq!(check_header(2, &format(), 1, &doc), Err(ProjectError::Size(SizeError::Dimensions)));
    doc.width = 20_000;
    doc.height = 20_000;
    assert_eq!(check_header(2, &format(), 1, &doc), Err(ProjectError::Size(SizeError::TooManyPixels)));
    for k in 0..10_000 {
        doc.layers.push(Layer::blank(format!("Layer {}", k + 2), ()));
    }
    assert_eq!(check_header(2, &format(), 1, &doc), Err(ProjectError::TooManyLayers));
}

#[test]
fn pixel_budget_adds_up_the_images() {
    assert_eq!(charge_pixels(0, 100, 100), Ok(10_000));
    assert_eq!(charge_pixels(10_000, 30, 2), Ok(10_060));
    assert_eq!(charge_pixels(99_990_000, 100, 100), Ok(100_000_000));
    assert_eq!(charge_pixels(99_990_001, 100, 100), Err(ProjectError::PixelBudget));
    assert_eq!(charge_pixels(0, 30_001, 1), Err(ProjectError::Size(SizeError::Dimensions)));
    assert_eq!(charge_pixels(0, 20_000, 20_000), Err(ProjectError::Size(SizeError::TooManyPixels)));
    assert_eq!(charge_pixels(u64::MAX, 1, 1), Err(ProjectError::PixelBudget));
}

#[test]
fn finishing_a_load_selects_the_active_layer_alone() {
    let mut doc = doc(16, 16);
    doc.insert(Layer::blank("Second".to_string(), ()));
    let first = doc.layers[0].id;
    doc.select(first, true);
    assert_eq!(doc.selected.len(), 2);
    let listed: HashSet<u128> = [first].into_iter().collect();
    let opened = finish_load(doc, &listed, no_assets).unwrap();
    assert_eq!(opened.active, Some(first));
    assert_eq!(opened.selected, [first].into_iter().collect::<HashSet<u128>>());
    assert_eq!(opened.layers.len(), 2);
}

#[test]
fn finishing_a_load_refuses_unknown_pixels_and_broken_structure() {
    let doc = doc(16, 16);
    let stray = Layer::blank("Stray".to_string(), ()).id;
    let listed: HashSet<u128> = [doc.layers[0].id, stray].into_iter().collect();
    assert_eq!(finish_load(doc, &listed, no_assets).err(), Some(ProjectError::UnreferencedPixels));
    let mut broken = Document::new(16, 16, ()).unwrap();
    broken.layers[0].name = "   ".to_string();
    assert_eq!(finish_load(broken, &HashSet::new(), no_assets).err(), Some(ProjectError::Document(DocumentError::InvalidName)));
}

#[test]
fn project_errors_read_as_the_editor_shows_them() {
    assert_eq!(ProjectError::TooManyAssets.message(), "Too many project assets");
    assert_eq!(ProjectError::UnsupportedVersion.message(), "Unsupported xuan project version");
    assert_eq!(ProjectError::PixelBudget.message(), "Project exceeds 100 megapixels of source images");
    assert_eq!(ProjectError::UnreferencedPixels.message(), "Unreferenced pixel layer metadata");
    assert_eq!(ProjectError::Size(SizeError::Dimensions).message(), "Dimensions must be between 1 and 30000 pixels");
    assert_eq!(ProjectError::Document(DocumentError::TooManyLayers).message(), "Too many layers");
}

#[test]
fn finishing_a_load_checks_the_pixel_assets() {
    // Content: the size of the layer's image.
    let mut doc: Document<Option<(u32, u32)>> = Document::new(16, 16, Some((16, 16))).unwrap();
    let image = |c: &Option<(u32, u32)>| Assets { adjustment: false, pixels: *c, mask: None };
    let id = doc.layers[0].id;
    let listed: HashSet<u128> = [id].into_iter().collect();
    let opened = finish_load(doc, &listed, image).unwrap();
    doc = opened;
    doc.layers[0].content = Some((0, 4));
    assert_eq!(
        finish_load(doc, &listed, image).err(),
        Some(ProjectError::Document(DocumentError::Size(SizeError::Dimensions)))
    );
}
