use std::collections::HashSet;

use xuan::document::{Document, DocumentError, Layer};
use xuan::operations::{can_preview_motion_blur, copy_layers, duplicate, finish_merge, group, merge_plan, ungroup, CopyError, MergeError};

fn doc(width: u32, height: u32) -> Document<()> {
    Document::new(width, height, ()).unwrap()
}

#[test]
fn duplicate_folder_remaps_child_and_clipping_references() {
    let mut doc = doc(2, 2);
    doc.layers[0].group = true;
    let parent = doc.layers[0].id;
    doc.insert(Layer::blank("Child".to_string(), ()));
    doc.select(parent, false);
    duplicate(&mut doc);
    doc.validate().unwrap();
    assert_eq!(doc.layers.len(), 4);
    assert_ne!(doc.active, Some(parent));
    assert_eq!(doc.descendants(doc.active.unwrap()).len(), 2);
}

#[test]
fn duplicate_names_copies_and_points_links_at_copies() {
    let mut doc = doc(2, 2);
    let base = doc.layers[0].id;
    let mut clipped = Layer::blank("Clipped".to_string(), ());
    clipped.clip_to = Some(base);
    doc.layers.push(clipped);
    let outside = Layer::blank("Outside".to_string(), ());
    doc.layers.push(outside);
    doc.select(base, false);
    let clipped_id = doc.layers[1].id;
    doc.select(clipped_id, true);
    duplicate(&mut doc);
    assert_eq!(doc.layers.len(), 5);
    assert_eq!(doc.layers[2].name, "Layer 1 copy");
    assert_eq!(doc.layers[3].name, "Clipped copy");
    assert_eq!(doc.layers[3].clip_to, Some(doc.layers[2].id));
    assert_eq!(doc.layers[4].name, "Outside");
    assert_eq!(doc.selected, HashSet::from([doc.layers[2].id, doc.layers[3].id]));
    assert_eq!(doc.active, Some(doc.layers[3].id));
    assert_eq!(doc.validate(), Ok(()));
}

#[test]
fn duplicate_without_selection_changes_nothing() {
    let mut doc = doc(2, 2);
    doc.selected.clear();
    let before = doc.layers[0].id;
    duplicate(&mut doc);
    assert_eq!(doc.layers.len(), 1);
    assert_eq!(doc.layers[0].id, before);
}

#[test]
fn group_wraps_selected_siblings_and_ungroup_restores_them() {
    let mut doc = doc(4, 4);
    let first = doc.layers[0].id;
    let second = Layer::blank("Second".to_string(), ());
    let second_id = second.id;
    doc.insert(second);
    let third = Layer::blank("Third".to_string(), ());
    doc.insert(third);
    doc.select(first, false);
    doc.select(second_id, true);
    group(&mut doc, ());
    let g = doc.active.unwrap();
    assert_eq!(doc.layers.len(), 4);
    assert_eq!(doc.layers[2].id, g);
    assert_eq!(doc.layers[2].name, "Group");
    assert!(doc.layers[2].group);
    assert_eq!(doc.layers[0].parent, Some(g));
    assert_eq!(doc.layers[1].parent, Some(g));
    assert_eq!(doc.layers[3].parent, None);
    assert_eq!(doc.selected, HashSet::from([g]));
    assert_eq!(doc.validate(), Ok(()));
    ungroup(&mut doc);
    assert_eq!(doc.layers.len(), 3);
    assert!(doc.layers.iter().all(|l| l.parent.is_none()));
    assert_eq!(doc.active, Some(doc.layers[2].id));
    assert_eq!(doc.validate(), Ok(()));
}

#[test]
fn ungroup_of_a_plain_layer_does_nothing() {
    let mut doc = doc(4, 4);
    let id = doc.layers[0].id;
    ungroup(&mut doc);
    assert_eq!(doc.layers.len(), 1);
    assert_eq!(doc.active, Some(id));
}

#[test]
fn merge_needs_two_layers_or_a_group() {
    let doc = doc(4, 4);
    assert_eq!(merge_plan(&doc, false).err(), Some(MergeError::NothingToMerge));
    assert_eq!(merge_plan(&doc, true).err(), Some(MergeError::NothingToMerge));
}

#[test]
fn merge_down_takes_the_sibling_below_and_inherits_links() {
    let mut doc = doc(4, 4);
    let bottom = doc.layers[0].id;
    let top = Layer::blank("Top".to_string(), ());
    let top_id = top.id;
    doc.insert(top);
    let mut above = Layer::blank("Above".to_string(), ());
    above.clip_to = Some(top_id);
    doc.layers.push(above);
    doc.select(top_id, false);
    let plan = merge_plan(&doc, true).unwrap();
    assert_eq!(plan.targets, HashSet::from([bottom, top_id]));
    assert_eq!(plan.parent, None);
    finish_merge(&mut doc, plan, ());
    assert_eq!(doc.layers.len(), 2);
    let merged = doc.active.unwrap();
    assert_eq!(doc.layers[0].id, merged);
    assert_eq!(doc.layers[0].name, "Top");
    assert_eq!(doc.layers[1].clip_to, Some(merged));
    assert_eq!(doc.validate(), Ok(()));
}

#[test]
fn copy_layers_brings_a_family_into_another_document() {
    let mut source = doc(4, 4);
    source.layers[0].group = true;
    let folder = source.layers[0].id;
    source.insert(Layer::blank("Child".to_string(), ()));
    let child = source.active.unwrap();
    let mut stray = Layer::blank("Stray".to_string(), ());
    stray.clip_to = Some(child);
    source.layers.push(stray);
    let mut destination = doc(8, 8);
    let result = copy_layers(&source, &mut destination, folder, |layer: &Layer<()>| layer.content);
    assert_eq!(result, Ok(()));
    assert_eq!(destination.layers.len(), 3);
    let copied_folder = destination.layers[1].id;
    assert_ne!(copied_folder, folder);
    assert_eq!(destination.layers[1].name, "Layer 1");
    assert_eq!(destination.layers[2].name, "Child");
    assert_eq!(destination.layers[2].parent, Some(copied_folder));
    assert_eq!(destination.active, Some(copied_folder));
    assert_eq!(destination.selected, HashSet::from([copied_folder]));
}

#[test]
fn copy_layers_refuses_a_missing_layer_and_reports_a_broken_result() {
    let source = doc(4, 4);
    let mut destination = doc(4, 4);
    let missing = Layer::blank("Missing".to_string(), ()).id;
    assert_eq!(copy_layers(&source, &mut destination, missing, |_: &Layer<()>| ()), Err(CopyError::MissingLayer));
    assert_eq!(destination.layers.len(), 1);
    let mut source = doc(4, 4);
    let outside = Layer::blank("Outside".to_string(), ()).id;
    source.layers[0].clip_to = Some(outside);
    let root = source.layers[0].id;
    assert_eq!(
        copy_layers(&source, &mut destination, root, |_: &Layer<()>| ()),
        Ok(())
    );
    assert_eq!(destination.layers[1].clip_to, None);
    destination.layers[1].name = " ".to_string();
    let again = destination.layers[1].id;
    let copy_source = destination.clone();
    assert_eq!(
        copy_layers(&copy_source, &mut destination, again, |_: &Layer<()>| ()),
        Err(CopyError::Invalid(DocumentError::InvalidName))
    );
}

#[test]
fn motion_blur_preview_needs_a_plain_unclipped_active_layer() {
    // Content: whether the layer is a plain raster layer.
    let mut doc: Document<bool> = Document::new(8, 8, true).unwrap();
    let plain = |c: &bool| *c;
    assert!(can_preview_motion_blur(&doc, false, plain));
    assert!(!can_preview_motion_blur(&doc, true, plain));
    doc.layers[0].locked = true;
    assert!(!can_preview_motion_blur(&doc, false, plain));
    doc.layers[0].locked = false;
    doc.layers[0].content = false;
    assert!(!can_preview_motion_blur(&doc, false, plain));
    doc.layers[0].content = true;
    let base = doc.layers[0].id;
    let mut clipped = Layer::blank("Clipped".to_string(), true);
    clipped.clip_to = Some(base);
    doc.layers.push(clipped);
    assert!(!can_preview_motion_blur(&doc, false, plain));
    doc.layers[1].clip_to = None;
    assert!(can_preview_motion_blur(&doc, false, plain));
    doc.active = None;
    assert!(!can_preview_motion_blur(&doc, false, plain));
}

/// What the motion-blur preview looks at in a layer's content.
#[derive(Clone, Copy)]
struct Raster {
    pixels: bool,
    adjustment: bool,
    raw: bool,
}

fn plain_raster(c: &Raster) -> bool {
    c.pixels && !c.adjustment && !c.raw
}

#[test]
fn motion_blur_preview_rejects_edits_that_need_cpu_coverage() {
    let blank = Raster { pixels: false, adjustment: false, raw: false };
    let mut document = Document::new(8, 8, blank).unwrap();
    document.insert(Layer::blank("Pixels".to_string(), Raster { pixels: true, ..blank }));
    let mut selection = false;
    assert!(can_preview_motion_blur(&document, selection, plain_raster));
    document.active_mut().unwrap().locked = true;
    assert!(!can_preview_motion_blur(&document, selection, plain_raster));
    document.active_mut().unwrap().locked = false;
    selection = true;
    assert!(!can_preview_motion_blur(&document, selection, plain_raster));
    selection = false;
    let mut clipped = Layer::blank("Clipped".to_string(), blank);
    clipped.clip_to = document.active;
    document.layers.push(clipped);
    assert!(!can_preview_motion_blur(&document, selection, plain_raster));
}

#[test]
fn duplicates_carry_copies_of_their_contents() {
    let mut doc: Document<String> = Document::new(4, 4, "base".to_string()).unwrap();
    doc.layers.push(Layer::blank("Top".to_string(), "top pixels".to_string()));
    let top = doc.layers[1].id;
    doc.select(top, false);
    duplicate(&mut doc);
    assert_eq!(doc.layers.len(), 3);
    assert_eq!(doc.layers[2].content, "top pixels");
    assert_eq!(doc.layers[2].name, "Top copy");
    assert_eq!(doc.layers[0].content, "base");
}
