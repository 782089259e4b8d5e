use xuan::document::{Document, Layer};
use xuan::picking::{hit_test, hit_test_bounds};

// Content: whether the pointer is over the layer.
fn doc_with(under: &[bool]) -> Document<bool> {
    let mut doc = Document::new(8, 8, under[0]).unwrap();
    for (k, over) in under.iter().enumerate().skip(1) {
        doc.layers.push(Layer::blank(format!("Layer {}", k + 1), *over));
    }
    doc
}

#[test]
fn picking_takes_the_topmost_layer_under_the_pointer() {
    let doc = doc_with(&[true, true, false]);
    let under = |l: &Layer<bool>| l.content;
    assert_eq!(hit_test_bounds(&doc, under), Some(doc.layers[1].id));
    assert_eq!(hit_test(&doc, under), Some(doc.layers[1].id));
    let empty = doc_with(&[false, false]);
    assert_eq!(hit_test_bounds(&empty, under), None);
    assert_eq!(hit_test(&empty, under), None);
}

#[test]
fn picking_skips_locked_hidden_and_hidden_group_layers() {
    let mut doc = doc_with(&[true, true, true]);
    let under = |l: &Layer<bool>| l.content;
    doc.layers[2].locked = true;
    assert_eq!(hit_test_bounds(&doc, under), Some(doc.layers[1].id));
    assert_eq!(hit_test(&doc, under), Some(doc.layers[1].id));
    doc.layers[1].visible = false;
    assert_eq!(hit_test_bounds(&doc, under), Some(doc.layers[0].id));
    // The pixel test weighs visibility in with the coverage it is given.
    assert_eq!(hit_test(&doc, under), Some(doc.layers[1].id));
    assert_eq!(hit_test(&doc, |l: &Layer<bool>| l.content && l.visible), Some(doc.layers[0].id));
    // A layer inside a hidden group is not picked by bounds.
    let mut grouped = doc_with(&[false, true]);
    grouped.layers[0].group = true;
    grouped.layers[0].visible = false;
    grouped.layers[1].parent = Some(grouped.layers[0].id);
    assert_eq!(hit_test_bounds(&grouped, under), None);
    grouped.layers[0].visible = true;
    assert_eq!(hit_test_bounds(&grouped, under), Some(grouped.layers[1].id));
}

/// Where a layer lies on the canvas, and whether it is an adjustment.
#[derive(Clone, Copy)]
struct Placement {
    x: f32,
    y: f32,
    width: f32,
    height: f32,
    adjustment: bool,
}

fn full(size: f32) -> Placement {
    Placement { x: 0.0, y: 0.0, width: size, height: size, adjustment: false }
}

#[test]
fn bounds_hit_testing_respects_stacking_visibility_and_locks() {
    let mut document = Document::new(100, 100, full(100.0)).unwrap();
    let bottom = document.layers[0].id;
    let mut folder = Layer::blank("Folder".to_string(), full(100.0));
    folder.group = true;
    let mut top = Layer::blank("Masked".to_string(), full(100.0));
    top.parent = Some(folder.id);
    top.clip_to = Some(bottom);
    let id = top.id;
    document.layers.extend([folder, top]);
    let (px, py) = (50.0_f32, 50.0_f32);
    let holds = |l: &Layer<Placement>| {
        let p = l.content;
        let (u, v) = ((px - p.x) / p.width, (py - p.y) / p.height);
        !p.adjustment && (0.0..1.0).contains(&u) && (0.0..1.0).contains(&v)
    };

    assert_eq!(hit_test_bounds(&document, holds), Some(id));
    document.layers[2].locked = true;
    assert_eq!(hit_test_bounds(&document, holds), Some(bottom));
    document.layers[2].locked = false;
    document.layers[2].visible = false;
    assert_eq!(hit_test_bounds(&document, holds), Some(bottom));
    document.layers[2].visible = true;
    document.layers[1].visible = false;
    assert_eq!(hit_test_bounds(&document, holds), Some(bottom));
    document.layers[1].visible = true;
    document.layers[2].content.adjustment = true;
    assert_eq!(hit_test_bounds(&document, holds), Some(bottom));
}
