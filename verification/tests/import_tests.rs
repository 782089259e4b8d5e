use std::io::Cursor;

use image::{DynamicImage, ImageFormat, Rgba, RgbaImage};
use xuan::document::SizeError;
use xuan::import::{import_image, ImportError};

fn png(width: u32, height: u32) -> Vec<u8> {
    let image = RgbaImage::from_fn(width, height, |x, y| Rgba([x as u8, y as u8, 7, 255]));
    let mut bytes = Vec::new();
    DynamicImage::ImageRgba8(image).write_to(&mut Cursor::new(&mut bytes), ImageFormat::Png).unwrap();
    bytes
}

#[test]
fn importing_decodes_and_counts_the_pixels() {
    let (width, height, pixels, used) = import_image(&png(2, 3), 10).unwrap();
    assert_eq!((width, height, used), (2, 3, 16));
    assert_eq!(pixels.len(), 24);
    assert_eq!(&pixels[4..8], &[1, 0, 7, 255]);
    assert_eq!(&pixels[20..24], &[1, 2, 7, 255]);
}

#[test]
fn importing_refuses_sizes_and_the_budget_before_decoding() {
    // The decoder's limits refuse a side over 30000 pixels while reading the header.
    assert_eq!(import_image(&png(30_001, 1), 0).err(), Some(ImportError::OverLimit));
    assert_eq!(ImportError::OverLimit.message(), "Image size exceeds limit");
    assert_eq!(ImportError::Size(SizeError::Dimensions).message(), SizeError::Dimensions.message());
    assert_eq!(import_image(&png(4, 4), 99_999_990).err(), Some(ImportError::PixelBudget));
    assert_eq!(import_image(&png(4, 4), 99_999_984).map(|r| r.3), Ok(100_000_000));
}

#[test]
fn importing_refuses_what_is_no_image() {
    assert_eq!(import_image(b"not an image at all", 0).err(), Some(ImportError::Undecodable));
    assert_eq!(import_image(&[], 0).err(), Some(ImportError::Undecodable));
    assert_eq!(ImportError::TooLarge.message(), "Image file is too large");
    assert_eq!(ImportError::PixelBudget.message(), "Project exceeds 100 megapixels of source images");
}
