use std::collections::HashSet;

use xuan::document::{validate_size, Document, DocumentError, Layer, SizeError};

fn doc(width: u32, height: u32) -> Document<()> {
    Document::new(width, height, ()).unwrap()
}

#[test]
fn rejects_invalid_hierarchy_and_clipping_cycles() {
    let mut doc = doc(8, 8);
    doc.layers[0].clip_to = Some(doc.layers[0].id);
    assert!(doc.validate().is_err());
    doc.layers[0].clip_to = None;
    doc.layers[0].parent = Some(Layer::blank("Elsewhere".to_string(), ()).id);
    assert!(doc.validate().is_err());
}

#[test]
fn deleting_group_removes_descendants_and_stale_links() {
    let mut doc = doc(8, 8);
    doc.layers[0].group = true;
    let group = doc.layers[0].id;
    doc.insert(Layer::blank("Child".to_string(), ()));
    let child = doc.active.unwrap();
    let mut outside = Layer::blank("Outside".to_string(), ());
    outside.clip_to = Some(child);
    doc.layers.push(outside);
    doc.select(group, false);
    doc.delete_selected();
    assert_eq!(doc.layers.len(), 1);
    assert_eq!(doc.layers[0].clip_to, None);
    doc.validate().unwrap();
}

#[test]
fn validate_size_limits_each_side_and_the_area() {
    assert_eq!(validate_size(1, 1), Ok(()));
    assert_eq!(validate_size(30_000, 3_333), Ok(()));
    assert_eq!(validate_size(10_000, 10_000), Ok(()));
    assert_eq!(validate_size(0, 10), Err(SizeError::Dimensions));
    assert_eq!(validate_size(10, 0), Err(SizeError::Dimensions));
    assert_eq!(validate_size(30_001, 1), Err(SizeError::Dimensions));
    assert_eq!(validate_size(10_001, 10_000), Err(SizeError::TooManyPixels));
    assert!(Document::new(0, 5, ()).is_err());
}

#[test]
fn new_document_has_one_active_selected_layer() {
    let doc = doc(3, 2);
    assert_eq!(doc.width, 3);
    assert_eq!(doc.height, 2);
    assert_eq!(doc.layers.len(), 1);
    assert_eq!(doc.layers[0].name, "Layer 1");
    assert!(doc.layers[0].visible && !doc.layers[0].locked && !doc.layers[0].group);
    assert_eq!(doc.active, Some(doc.layers[0].id));
    assert_eq!(doc.selected, HashSet::from([doc.layers[0].id]));
    assert_eq!(doc.validate(), Ok(()));
}

#[test]
fn fresh_identifiers_are_version_four_and_distinct() {
    let a = doc(2, 2);
    let b = doc(2, 2);
    for id in [a.id, a.layers[0].id, b.id, b.layers[0].id] {
        assert_eq!((id >> 76) & 0xF, 4);
        assert_eq!((id >> 62) & 0x3, 2);
    }
    assert_ne!(a.id, b.id);
    assert_ne!(a.layers[0].id, b.layers[0].id);
    assert_ne!(a.id, a.layers[0].id);
}

#[test]
fn insert_places_above_the_active_layer_inside_its_group() {
    let mut doc = doc(4, 4);
    let first = doc.layers[0].id;
    let second = Layer::blank("Second".to_string(), ());
    let second_id = second.id;
    doc.insert(second);
    assert_eq!(doc.layers[1].id, second_id);
    assert_eq!(doc.layers[1].parent, None);
    doc.layers[1].group = true;
    let third = Layer::blank("Third".to_string(), ());
    let third_id = third.id;
    doc.insert(third);
    assert_eq!(doc.layers[2].id, third_id);
    assert_eq!(doc.layers[2].parent, Some(second_id));
    doc.select(first, false);
    let fourth = Layer::blank("Fourth".to_string(), ());
    let fourth_id = fourth.id;
    doc.insert(fourth);
    assert_eq!(doc.layers[1].id, fourth_id);
    assert_eq!(doc.active, Some(fourth_id));
    assert_eq!(doc.selected, HashSet::from([fourth_id]));
    assert_eq!(doc.validate(), Ok(()));
}

#[test]
fn extending_a_selection_twice_toggles_back() {
    let mut doc = doc(4, 4);
    let first = doc.layers[0].id;
    let other = Layer::blank("Other".to_string(), ());
    let other_id = other.id;
    doc.insert(other);
    doc.select(first, true);
    assert_eq!(doc.selected, HashSet::from([first, other_id]));
    doc.select(first, true);
    assert_eq!(doc.selected, HashSet::from([other_id]));
    assert_eq!(doc.active, Some(first));
}

#[test]
fn descendants_and_targets_follow_nesting() {
    let mut doc = doc(4, 4);
    doc.layers[0].group = true;
    let outer = doc.layers[0].id;
    let mut inner = Layer::blank("Inner".to_string(), ());
    inner.group = true;
    let inner_id = inner.id;
    doc.insert(inner);
    let leaf = Layer::blank("Leaf".to_string(), ());
    let leaf_id = leaf.id;
    doc.insert(leaf);
    let side = Layer::blank("Side".to_string(), ());
    let side_id = side.id;
    doc.layers.push(side);
    assert_eq!(doc.descendants(outer), HashSet::from([outer, inner_id, leaf_id]));
    assert_eq!(doc.descendants(leaf_id), HashSet::from([leaf_id]));
    doc.select(inner_id, false);
    doc.select(side_id, true);
    assert_eq!(doc.transform_targets(), HashSet::from([inner_id, leaf_id, side_id]));
    assert_eq!(doc.validate(), Ok(()));
}

#[test]
fn validate_reports_each_structural_error() {
    let mut d = doc(4, 4);
    d.layers[0].name = "   ".to_string();
    assert_eq!(d.validate(), Err(DocumentError::InvalidName));
    d.layers[0].name = "x".repeat(16_385);
    assert_eq!(d.validate(), Err(DocumentError::InvalidName));
    d.layers[0].name = "x".repeat(16_384);
    assert_eq!(d.validate(), Ok(()));

    let mut d = doc(4, 4);
    let copy = d.layers[0].clone();
    d.layers.push(copy);
    assert_eq!(d.validate(), Err(DocumentError::DuplicateIds));

    let mut d = doc(4, 4);
    d.active = Some(Layer::blank("Gone".to_string(), ()).id);
    assert_eq!(d.validate(), Err(DocumentError::MissingActive));
    d.active = None;
    assert_eq!(d.validate(), Ok(()));

    let mut d = doc(4, 4);
    let plain = Layer::blank("Plain".to_string(), ());
    let plain_id = plain.id;
    d.layers.push(plain);
    d.layers[0].parent = Some(plain_id);
    assert_eq!(d.validate(), Err(DocumentError::MissingParent));

    let mut d = doc(4, 4);
    d.layers[0].group = true;
    let g = d.layers[0].id;
    d.layers[0].parent = Some(g);
    assert_eq!(d.validate(), Err(DocumentError::CyclicGroups));

    let mut d = doc(4, 4);
    d.layers[0].group = true;
    let g = d.layers[0].id;
    let mut clipped = Layer::blank("Clipped".to_string(), ());
    clipped.clip_to = Some(g);
    d.layers.push(clipped);
    assert_eq!(d.validate(), Err(DocumentError::MissingClipSource));

    let mut d = doc(4, 4);
    d.layers[0].group = true;
    let base = Layer::blank("Base".to_string(), ());
    d.layers[0].clip_to = Some(base.id);
    d.layers.push(base);
    assert_eq!(d.validate(), Err(DocumentError::InvalidClipping));

    let mut d = doc(4, 4);
    d.width = 0;
    assert_eq!(d.validate(), Err(DocumentError::Size(SizeError::Dimensions)));
}

#[test]
fn deep_nesting_is_refused() {
    let mut d = doc(4, 4);
    d.layers[0].group = true;
    let mut parent = d.layers[0].id;
    for i in 0..70 {
        let mut layer = Layer::blank(format!("Level {i}"), ());
        layer.group = true;
        layer.parent = Some(parent);
        parent = layer.id;
        d.layers.push(layer);
    }
    assert_eq!(d.validate(), Err(DocumentError::CyclicGroups));
}

#[test]
fn paint_order_walks_groups_depth_first_and_skips_them() {
    let mut d = doc(4, 4);
    let bottom = d.layers[0].id;
    let mut group = Layer::blank("Group".to_string(), ());
    group.group = true;
    let group_id = group.id;
    d.layers.push(group);
    let top = Layer::blank("Top".to_string(), ());
    let top_id = top.id;
    d.layers.push(top);
    let mut inside = Layer::blank("Inside".to_string(), ());
    inside.parent = Some(group_id);
    let inside_id = inside.id;
    d.layers.push(inside);
    let order: Vec<u128> = d.paint_order().iter().map(|l| l.id).collect();
    assert_eq!(order, vec![bottom, inside_id, top_id]);
}

#[test]
fn active_finds_the_active_layer() {
    let mut d = doc(4, 4);
    assert_eq!(d.active().map(|l| l.name.clone()), Some("Layer 1".to_string()));
    assert_eq!(d.active_index(), Some(0));
    d.active = None;
    assert!(d.active().is_none());
}

#[test]
fn active_layer_can_be_changed_in_place() {
    let mut doc = doc(8, 8);
    doc.insert(Layer::blank("Top".to_string(), ()));
    let top = doc.active.unwrap();
    doc.active_mut().unwrap().visible = false;
    assert!(!doc.layers[1].visible);
    assert!(doc.layers[0].visible);
    assert_eq!(doc.active, Some(top));
    doc.active = Some(Layer::blank("Gone".to_string(), ()).id);
    assert!(doc.active_mut().is_none());
}

#[test]
fn replacing_a_layer_keeps_the_document_sound() {
    let mut doc = doc(8, 8);
    let mut renamed = doc.layers[0].clone();
    renamed.name = "Title".to_string();
    assert_eq!(doc.replace_layer(renamed), Ok(()));
    assert_eq!(doc.layers[0].name, "Title");
    let mut blank = doc.layers[0].clone();
    blank.name = " \t".to_string();
    assert_eq!(doc.replace_layer(blank), Err(DocumentError::InvalidName));
    assert_eq!(doc.layers[0].name, "Title");
    let mut looped = doc.layers[0].clone();
    looped.clip_to = Some(looped.id);
    assert_eq!(doc.replace_layer(looped), Err(DocumentError::InvalidClipping));
    assert_eq!(doc.layers[0].clip_to, None);
}

#[test]
fn cloning_a_document_copies_every_layer() {
    let mut doc: Document<u32> = Document::new(8, 8, 7).unwrap();
    doc.insert(Layer::blank("Second".to_string(), 9));
    doc.layers[1].locked = true;
    let copy = doc.clone();
    assert_eq!(copy.layers.len(), 2);
    for (a, b) in doc.layers.iter().zip(copy.layers.iter()) {
        assert_eq!((a.id, &a.name, a.locked, a.parent, a.content), (b.id, &b.name, b.locked, b.parent, b.content));
    }
    assert_eq!(copy.selected, doc.selected);
}
