use xuan::blend::BlendMode;
use xuan::buffers::{count, padded};
use xuan::effects::{device_can_blur, AdjustmentKind, FilterKind, GpuLimits};
use xuan::grain::{lattice_bits, mix32, noise_bits};
use xuan::export::{export_format, jpeg_quality, ExportError, ExportFormat};
use xuan::paint::{PaintMode, ShapeKind};
use xuan::pixels::{auto_levels, flatten_white, histogram, mask_alpha, premultiply, unpremultiply, LevelPoints};
use xuan::document::SizeError;
use xuan::raw::{check_source, is_raw, OverlayKind, RawError, WhiteBalance};
use xuan::retouch::{neighbors, random};
use xuan::text::not_blank;
use xuan::widgets::Slider;

#[test]
fn blend_modes_have_names_positions_and_a_default() {
    assert_eq!(BlendMode::ColorDodge.name(), "Color Dodge");
    assert_eq!(BlendMode::Normal.name(), "Normal");
    assert_eq!(BlendMode::default(), BlendMode::Normal);
    assert_eq!(BlendMode::Luminosity.index(), 12);
    assert_eq!(BlendMode::all()[3], BlendMode::Overlay);
    for (i, mode) in BlendMode::all().into_iter().enumerate() {
        assert_eq!(mode.index() as usize, i);
        assert_eq!(BlendMode::from_name(mode.name()), Some(mode));
    }
    assert_eq!(BlendMode::from_name("Color Burn"), Some(BlendMode::ColorBurn));
    assert_eq!(BlendMode::from_name("color burn"), None);
    assert_eq!(BlendMode::from_name("Dissolve"), None);
}

#[test]
fn raw_files_are_recognised_by_extension() {
    assert!(is_raw("photo.NEF"));
    assert!(is_raw("photo.nrw"));
    assert!(is_raw("/a/b/c.Nef"));
    assert!(is_raw("shots/dir.nef/"));
    assert!(is_raw("a.NEF/."));
    assert!(!is_raw(".nef"));
    assert!(!is_raw("nef"));
    assert!(!is_raw("a.nef.jpg"));
    assert!(!is_raw("a.nefx"));
    assert!(!is_raw("a.nef/.."));
    assert!(!is_raw(""));
    assert!(!is_raw("/"));
}

#[test]
fn export_format_follows_the_extension() {
    assert_eq!(export_format("out.jpg"), Ok(ExportFormat::Jpeg));
    assert_eq!(export_format("out.JPEG"), Ok(ExportFormat::Jpeg));
    assert_eq!(export_format("dir/out"), Ok(ExportFormat::Png));
    assert_eq!(export_format(".png"), Ok(ExportFormat::Png));
    assert_eq!(export_format("x.Png"), Ok(ExportFormat::Png));
    assert_eq!(export_format("x.tif"), Ok(ExportFormat::Tiff));
    assert_eq!(export_format("x.TIFF"), Ok(ExportFormat::Tiff));
    assert_eq!(export_format("x.webp"), Ok(ExportFormat::WebP));
    assert_eq!(export_format("x.bmp"), Err(ExportError::UnsupportedFormat));
    assert_eq!(export_format("x."), Err(ExportError::UnsupportedFormat));
    assert_eq!(ExportError::UnsupportedFormat.message(), "Export as PNG, JPEG, TIFF or WebP");
    assert_eq!(jpeg_quality(0), 1);
    assert_eq!(jpeg_quality(90), 90);
    assert_eq!(jpeg_quality(200), 100);
}

#[test]
fn device_buffers_are_counted_and_padded() {
    assert_eq!(count([3, 4]), 12);
    assert_eq!(count([u32::MAX, 2]), 8_589_934_590);
    let short = padded(&[1, 2, 3]);
    assert_eq!(short.len(), 16);
    assert_eq!(&short[..3], &[1, 2, 3]);
    assert!(short[3..].iter().all(|b| *b == 0));
    assert_eq!(padded(&[]).len(), 16);
    assert_eq!(padded(&[7; 17]).len(), 20);
    assert_eq!(padded(&[9; 20]), vec![9; 20]);
}

#[test]
fn xorshift_steps_and_neighbors() {
    let mut state = 1u32;
    assert_eq!(random(&mut state), 270_369);
    assert_eq!(state, 270_369);
    let mut seeded = 0x7d41_397b_u32;
    let first = random(&mut seeded);
    let second = random(&mut seeded);
    assert_ne!(first, second);
    assert_eq!(neighbors(0, 0, 3, 3), vec![(1, 0), (0, 1)]);
    assert_eq!(neighbors(1, 1, 3, 3), vec![(0, 1), (2, 1), (1, 0), (1, 2)]);
    assert_eq!(neighbors(2, 2, 3, 3), vec![(1, 2), (2, 1)]);
    assert_eq!(neighbors(0, 0, 1, 1), Vec::<(u32, u32)>::new());
}

#[test]
fn histogram_counts_visible_pixels_by_luma() {
    let mut pixels = Vec::new();
    for _ in 0..10 {
        pixels.extend_from_slice(&[100, 100, 100, 255]);
    }
    pixels.extend_from_slice(&[255, 255, 255, 0]);
    pixels.extend_from_slice(&[255, 255, 255, 1]);
    pixels.extend_from_slice(&[0, 0, 0]);
    let bins = histogram(&pixels);
    assert_eq!(bins[100], 10);
    assert_eq!(bins[255], 1);
    assert_eq!(bins.iter().sum::<u32>(), 11);
    assert_eq!(histogram(&[10, 20, 30, 255])[19], 1);
}

#[test]
fn auto_levels_clips_the_ends_of_the_histogram() {
    let mut flat = Vec::new();
    for _ in 0..10 {
        flat.extend_from_slice(&[100, 100, 100, 255]);
    }
    assert_eq!(auto_levels(&flat), LevelPoints { black: 100, white: 101 });
    assert_eq!(auto_levels(&[]), LevelPoints { black: 0, white: 255 });
    let mut ramp = Vec::new();
    for v in 0..=255u8 {
        ramp.extend_from_slice(&[v, v, v, 255]);
    }
    assert_eq!(auto_levels(&ramp), LevelPoints { black: 1, white: 254 });
    assert_eq!(auto_levels(&[255, 255, 255, 255]), LevelPoints { black: 254, white: 256 });
}

#[test]
fn flattening_and_premultiplying_pixels() {
    assert_eq!(flatten_white(&[10, 20, 30, 128, 0, 0, 0, 0, 9]), vec![132, 137, 142, 255, 255, 255]);
    assert_eq!(flatten_white(&[1, 2, 3, 255]), vec![1, 2, 3]);
    assert_eq!(premultiply(&[200, 100, 50, 128, 7, 7, 7, 0]), vec![100, 50, 25, 128, 0, 0, 0, 0]);
    let mut pixels = vec![100, 50, 25, 128, 9, 9, 9, 0, 200, 0, 0, 100, 5];
    unpremultiply(&mut pixels);
    assert_eq!(pixels, vec![199, 99, 49, 128, 9, 9, 9, 0, 255, 0, 0, 100, 5]);
}

#[test]
fn names_need_a_visible_character() {
    assert!(!not_blank(""));
    assert!(!not_blank("  \t\n"));
    assert!(!not_blank("\u{3000}\u{a0}"));
    assert!(not_blank(" a "));
    assert!(not_blank("\u{200b}"));
}

#[test]
fn slider_builders_record_their_settings() {
    let mut value = 5i32;
    let slider = Slider::new(&mut value, 0..=10);
    assert_eq!(slider.label_text(), "");
    assert_eq!(slider.suffix_text(), "");
    assert!(!slider.is_logarithmic() && !slider.is_percentage());
    let slider = slider.text("Size").suffix(" px").logarithmic(true);
    assert_eq!(slider.label_text(), "Size");
    assert_eq!(slider.suffix_text(), " px");
    assert!(slider.is_logarithmic());
    let slider = slider.percentage();
    assert!(slider.is_percentage());
    assert_eq!(slider.suffix_text(), "%");
}

#[test]
fn tool_and_setting_choices() {
    assert_ne!(PaintMode::Paint, PaintMode::Erase);
    assert_eq!(ShapeKind::Ellipse, ShapeKind::Ellipse);
    assert_eq!(WhiteBalance::default(), WhiteBalance::AsShot);
    assert_eq!(OverlayKind::default(), OverlayKind::Linear);
}

#[test]
fn selection_scales_the_coverage_of_a_copied_region() {
    // A 2 x 1 region cut at (1, 1) from a 3 x 2 canvas.
    let mut image = vec![10, 20, 30, 255, 40, 50, 60, 200];
    let mask = [0, 0, 0, 0, 255, 128];
    mask_alpha(&mut image, 2, 1, &mask, 3, 1, 1);
    assert_eq!(image, vec![10, 20, 30, 255, 40, 50, 60, 100]);
    let mut empty: Vec<u8> = Vec::new();
    mask_alpha(&mut empty, 0, 5, &[], 0, 0, 0);
    assert!(empty.is_empty());
}

#[test]
fn raw_sources_need_a_name_bytes_and_a_valid_size() {
    assert_eq!(check_source("DSC_0001.NEF", 25_000_000, 6048, 4024), Ok(()));
    assert_eq!(check_source("", 25_000_000, 6048, 4024), Err(RawError::InvalidFilename));
    assert_eq!(check_source(&"n".repeat(16_385), 1, 10, 10), Err(RawError::InvalidFilename));
    assert_eq!(check_source(&"n".repeat(16_384), 1, 10, 10), Ok(()));
    assert_eq!(check_source("a.nef", 0, 10, 10), Err(RawError::MissingSource));
    assert_eq!(check_source("a.nef", 536_870_913, 10, 10), Err(RawError::MissingSource));
    assert_eq!(check_source("a.nef", 536_870_912, 10, 10), Ok(()));
    assert_eq!(check_source("a.nef", 1, 0, 10), Err(RawError::Size(SizeError::Dimensions)));
    assert_eq!(check_source("a.nef", 1, 20_000, 20_000), Err(RawError::Size(SizeError::TooManyPixels)));
    assert_eq!(RawError::MissingSource.message(), "Missing or oversized RAW source");
    assert_eq!(RawError::InvalidFilename.message(), "Invalid RAW filename");
}

#[test]
fn grain_hashes_match_their_reference_values() {
    assert_eq!(mix32(0), 0);
    assert_eq!(mix32(1), 1_753_845_952);
    assert_eq!(mix32(0xdead_beef), 3_861_431_939);
    assert_eq!(noise_bits(0, 0, 0), 0);
    assert_eq!(noise_bits(1, 2, 3), 1_573_486_586);
    assert_eq!(noise_bits(4000, 3000, u32::MAX), 3_205_903_088);
    assert_eq!(lattice_bits(0, 0, 0), 0);
    assert_eq!(lattice_bits(-1, 2, 7), 758_966_958);
    assert_eq!(lattice_bits(5, -3, 0x1234_5678), 143_785_425);
}

#[test]
fn adjustment_and_filter_kinds_have_menu_names() {
    assert_eq!(AdjustmentKind::HueSaturation.name(), "Hue/Saturation");
    assert_eq!(AdjustmentKind::GradientMap.name(), "Gradient Map");
    assert_eq!(AdjustmentKind::Invert.name(), "Invert");
    assert_eq!(FilterKind::GaussianBlur.name(), "Gaussian Blur");
    assert_eq!(FilterKind::Noise.name(), "Add Noise");
    assert_eq!(FilterKind::LensCorrection.name(), "Lens Correction");
}

#[test]
fn motion_blur_runs_on_the_device_only_within_its_limits() {
    let limits = GpuLimits { max_texture_side: 8192, max_workgroups: 65_535, max_buffer: 268_435_456, max_uniform: 65_536 };
    assert!(device_can_blur(100, 50, 3, limits, 32));
    assert!(!device_can_blur(0, 50, 3, limits, 32));
    assert!(!device_can_blur(100, 0, 0, limits, 32));
    // The padded side must fit a texture.
    assert!(device_can_blur(8190, 10, 1, limits, 32));
    assert!(!device_can_blur(8191, 10, 1, limits, 32));
    // One workgroup covers eight pixels of the longer side.
    let groups = GpuLimits { max_workgroups: 10, ..limits };
    assert!(device_can_blur(80, 1, 0, groups, 32));
    assert!(!device_can_blur(81, 1, 0, groups, 32));
    // A row of 64 pixels takes 256 bytes; four rows take 1024.
    let buffer = GpuLimits { max_buffer: 1024, ..limits };
    assert!(device_can_blur(64, 4, 0, buffer, 32));
    assert!(!device_can_blur(65, 4, 0, buffer, 32));
    assert!(!device_can_blur(64, 4, 0, GpuLimits { max_buffer: 1023, ..limits }, 32));
    // The parameters must fit a uniform binding.
    assert!(!device_can_blur(100, 50, 3, GpuLimits { max_uniform: 16, ..limits }, 32));
    // Padding that overflows the side is refused.
    assert!(!device_can_blur(100, 50, u32::MAX / 2 + 1, limits, 32));
    assert!(!device_can_blur(u32::MAX, 50, 1, limits, 32));
}
