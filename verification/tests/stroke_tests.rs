use xuan::paint::PaintMode;
use xuan::stroke::Stroke;

fn reading(x: u32, y: u32) -> u32 {
    x * 1000 + y
}

#[test]
fn snapshot_reads_whole_blocks_around_the_first_segment() {
    let mut stroke: Stroke<u32> = Stroke::default();
    stroke.prepare([10, 5, 20, 8], 100, 50, reading);
    assert_eq!(stroke.row(10, 13, 5), &[10_005, 11_005, 12_005]);
    assert_eq!(stroke.row(0, 2, 49), &[49, 1_049]);
    assert_eq!(stroke.row(62, 64, 0), &[62_000, 63_000]);
}

#[test]
fn snapshot_keeps_touched_pixels_when_it_grows() {
    let mut stroke: Stroke<u32> = Stroke::default();
    stroke.prepare([10, 5, 20, 8], 100, 50, reading);
    *stroke.pixel_mut(15, 6) = 7;
    // Already held: nothing is read again.
    stroke.prepare([12, 6, 30, 7], 100, 50, |_, _| 0);
    assert_eq!(stroke.row(14, 17, 6), &[14_006, 7, 16_006]);
    // Beyond the held blocks: the snapshot grows to the layer's right edge.
    stroke.prepare([60, 40, 70, 45], 100, 50, reading);
    assert_eq!(stroke.row(14, 17, 6), &[14_006, 7, 16_006]);
    assert_eq!(stroke.row(98, 100, 49), &[98_049, 99_049]);
}

#[test]
fn shifting_moves_the_snapshot_with_the_layer() {
    let mut empty: Stroke<u32> = Stroke::default();
    empty.shift([5, 5]);
    empty.prepare([0, 0, 1, 1], 2, 2, reading);
    assert_eq!(empty.row(0, 2, 1), &[1, 1_001]);
    let mut stroke: Stroke<u32> = Stroke::default();
    stroke.prepare([0, 0, 4, 4], 8, 8, reading);
    *stroke.pixel_mut(2, 3) = 9;
    stroke.shift([3, 4]);
    assert_eq!(stroke.row(4, 7, 7), &[1_003, 9, 3_003]);
}

#[test]
fn only_painting_erasing_and_masks_keep_one_snapshot_per_gesture() {
    assert!(PaintMode::Paint.accumulates(false));
    assert!(PaintMode::Erase.accumulates(false));
    assert!(!PaintMode::Heal.accumulates(false));
    assert!(!PaintMode::Smudge.accumulates(false));
    assert!(PaintMode::Blur.accumulates(true));
    assert!(PaintMode::Paint.grows_layer(false));
    assert!(PaintMode::Clone.grows_layer(false));
    assert!(!PaintMode::Paint.grows_layer(true));
    assert!(!PaintMode::Erase.grows_layer(false));
}
