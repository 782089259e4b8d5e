//! Picking the layer under the pointer: the topmost layer in painting order
//! that may be picked and that the pointer is over.
use vstd::prelude::*;

use crate::document::{find_layer, lemma_paint_upto_bounds, lemma_position, paint_sequence, position, Document, Layer};

verus! {

/// Most group levels looked through when deciding whether a layer is shown.
pub const MAX_SHOWN_DEPTH: usize = 64;

/// Following the parent links from `parent` for at most `steps` groups, no
/// group found is hidden; the walk stops at a link to no layer.
pub open spec fn ancestors_shown<P>(layers: Seq<Layer<P>>, parent: Option<u128>, steps: nat) -> bool
    decreases steps,
{
    if steps == 0 {
        true
    } else {
        match parent {
            None => true,
            Some(id) => {
                if position(layers, id) < 0 {
                    true
                } else if !layers[position(layers, id)].visible {
                    false
                } else {
                    ancestors_shown(layers, layers[position(layers, id)].parent, (steps - 1) as nat)
                }
            },
        }
    }
}

/// The layer at `i` may be picked by its bounds: it is unlocked and visible,
/// and so are the groups it is shown through.
pub open spec fn pickable_by_bounds<P>(layers: Seq<Layer<P>>, i: int) -> bool {
    !layers[i].locked && layers[i].visible && ancestors_shown(layers, layers[i].parent, MAX_SHOWN_DEPTH as nat)
}

/// The layer at `i` may be picked by its pixels: it is unlocked.
pub open spec fn pickable_by_pixels<P>(layers: Seq<Layer<P>>, i: int) -> bool {
    !layers[i].locked
}

/// Whether no group the layer is shown through, within `MAX_SHOWN_DEPTH`
/// levels, is hidden.
fn shown_through_groups<P>(layers: &Vec<Layer<P>>, parent: Option<u128>) -> (shown: bool)
    ensures
        shown == ancestors_shown(layers@, parent, MAX_SHOWN_DEPTH as nat),
{
    let mut cursor = parent;
    let mut steps: usize = MAX_SHOWN_DEPTH;
    while steps > 0
        invariant
            steps <= MAX_SHOWN_DEPTH,
            ancestors_shown(layers@, cursor, steps as nat) == ancestors_shown(
                layers@,
                parent,
                MAX_SHOWN_DEPTH as nat,
            ),
        decreases steps,
    {
        let id = match cursor {
            None => return true,
            Some(id) => id,
        };
        proof {
            lemma_position(layers@, id);
        }
        let g = match find_layer(layers, id) {
            None => return true,
            Some(g) => g,
        };
        if !layers[g].visible {
            return false;
        }
        cursor = layers[g].parent;
        steps = steps - 1;
    }
    true
}

/// The identifier of the topmost layer in painting order that is unlocked
/// and visible, shown through visible groups, and whose placed bounds hold the
/// pointer, as `holds` judges it. Adjustment layers are never picked; `holds`
/// turns them down.
pub fn hit_test_bounds<P, F: Fn(&Layer<P>) -> bool>(document: &Document<P>, holds: F) -> (hit: Option<u128>)
    requires
        forall|l: &Layer<P>| #[trigger] holds.requires((l,)),
    ensures
        ({
            let layers = document.layers@;
            let order = paint_sequence(layers);
            &&& hit matches Some(id) ==> exists|k: int|
                0 <= k < order.len() && #[trigger] layers[order[k]].id == id && pickable_by_bounds(layers, order[k])
                    && holds.ensures((&layers[order[k]],), true) && forall|k2: int|
                    k < k2 < order.len() ==> !pickable_by_bounds(layers, #[trigger] order[k2]) || holds.ensures(
                        (&layers[order[k2]],),
                        false,
                    )
            &&& hit is None ==> forall|k: int|
                0 <= k < order.len() ==> !pickable_by_bounds(layers, #[trigger] order[k]) || holds.ensures(
                    (&layers[order[k]],),
                    false,
                )
        }),
{
    let ghost layers = document.layers@;
    let ghost order = paint_sequence(layers);
    let painted = document.paint_order();
    proof {
        lemma_paint_upto_bounds(layers, None, 0, layers.len() as int);
    }
    let mut k = painted.len();
    while k > 0
        invariant
            layers == document.layers@,
            order == paint_sequence(layers),
            painted@ == order.map_values(|i: int| &layers[i]),
            k <= order.len(),
            forall|j: int| 0 <= j < order.len() ==> 0 <= #[trigger] order[j] < layers.len(),
            forall|l: &Layer<P>| #[trigger] holds.requires((l,)),
            forall|k2: int|
                k <= k2 < order.len() ==> !pickable_by_bounds(layers, #[trigger] order[k2]) || holds.ensures(
                    (&layers[order[k2]],),
                    false,
                ),
        decreases k,
    {
        k = k - 1;
        let layer = painted[k];
        assert(*layer == layers[order[k as int]]);
        if !layer.locked && layer.visible {
            let inside = holds(layer);
            if inside && shown_through_groups(&document.layers, layer.parent) {
                assert(layers[order[k as int]].id == layer.id);
                return Some(layer.id);
            }
        }
    }
    None
}

/// The identifier of the topmost unlocked layer in painting order that
/// covers the pointer, as `covers` judges it (from the layer's coverage and
/// its opacity there).
pub fn hit_test<P, F: Fn(&Layer<P>) -> bool>(document: &Document<P>, covers: F) -> (hit: Option<u128>)
    requires
        forall|l: &Layer<P>| #[trigger] covers.requires((l,)),
    ensures
        ({
            let layers = document.layers@;
            let order = paint_sequence(layers);
            &&& hit matches Some(id) ==> exists|k: int|
                0 <= k < order.len() && #[trigger] layers[order[k]].id == id && pickable_by_pixels(layers, order[k])
                    && covers.ensures((&layers[order[k]],), true) && forall|k2: int|
                    k < k2 < order.len() ==> !pickable_by_pixels(layers, #[trigger] order[k2]) || covers.ensures(
                        (&layers[order[k2]],),
                        false,
                    )
            &&& hit is None ==> forall|k: int|
                0 <= k < order.len() ==> !pickable_by_pixels(layers, #[trigger] order[k]) || covers.ensures(
                    (&layers[order[k]],),
                    false,
                )
        }),
{
    let ghost layers = document.layers@;
    let ghost order = paint_sequence(layers);
    let painted = document.paint_order();
    proof {
        lemma_paint_upto_bounds(layers, None, 0, layers.len() as int);
    }
    let mut k = painted.len();
    while k > 0
        invariant
            layers == document.layers@,
            order == paint_sequence(layers),
            painted@ == order.map_values(|i: int| &layers[i]),
            k <= order.len(),
            forall|j: int| 0 <= j < order.len() ==> 0 <= #[trigger] order[j] < layers.len(),
            forall|l: &Layer<P>| #[trigger] covers.requires((l,)),
            forall|k2: int|
                k <= k2 < order.len() ==> !pickable_by_pixels(layers, #[trigger] order[k2]) || covers.ensures(
                    (&layers[order[k2]],),
                    false,
                ),
        decreases k,
    {
        k = k - 1;
        let layer = painted[k];
        assert(*layer == layers[order[k as int]]);
        if !layer.locked && covers(layer) {
            assert(layers[order[k as int]].id == layer.id);
            return Some(layer.id);
        }
    }
    None
}

} // verus!
