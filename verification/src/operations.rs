//! Structural layer commands: grouping, ungrouping and duplication.
use vstd::prelude::*;

use std::collections::{HashMap, HashSet};

use crate::document::{
    closed_under_children, error_text, find_layer, ids, in_family, layer_check, lemma_utf8_len_bound, parent_walk, lemma_position, position, position_opt, set_elements, shape, shapes, structure_check,
    target_set, within_family, Document, DocumentError, Layer, LayerShape, MAX_LAYERS,
};
use crate::ids::new_id;
use crate::integrity::{lemma_dissolving_keeps_structure, lemma_layers_check_all};
use crate::merging::lemma_merge_keeps_structure;
use crate::grouping::{lemma_group_keeps_structure, room_to_nest};
use crate::text::is_white_space;
use crate::duplication::{copy_names_fit, fresh_names, lemma_copies_are_picked, lemma_duplicate_keeps_structure, lemma_duplicated_from_shapes};

verus! {

/// `layer` with its parent set to `parent`.
pub open spec fn with_parent<P>(layer: Layer<P>, parent: Option<u128>) -> Layer<P> {
    Layer { parent, ..layer }
}

/// The parent shared by a new group: that of the active layer, if any.
pub open spec fn active_parent<P>(doc: Document<P>) -> Option<u128> {
    let at = position_opt(doc.layers@, doc.active);
    if at >= 0 { doc.layers@[at].parent } else { None }
}

/// Layers after moving the selected siblings of `parent` into the group `g`.
pub open spec fn regrouped<P>(layers: Seq<Layer<P>>, selected: Set<u128>, parent: Option<u128>, g: u128) -> Seq<Layer<P>> {
    layers.map_values(|l: Layer<P>| if selected.contains(l.id) && l.parent == parent { with_parent(l, Some(g)) } else { l })
}

/// One past the last index before `n` whose layer has `parent`, or -1 past none.
pub open spec fn last_child_end<P>(layers: Seq<Layer<P>>, parent: Option<u128>, n: int) -> int
    decreases n,
{
    if n <= 0 {
        -1
    } else if layers[n - 1].parent == parent {
        n
    } else {
        last_child_end(layers, parent, n - 1)
    }
}

/// Where a new group goes: just above its topmost member, or on top.
pub open spec fn group_slot<P>(layers: Seq<Layer<P>>, g: u128) -> int {
    let end = last_child_end(layers, Some(g), layers.len() as int);
    if end >= 0 { end } else { layers.len() as int }
}

/// Wrap the selected layers that share the active layer's parent in a new
/// group named "Group" (whose content is `content`), placed just above its
/// topmost member, and select the group alone.
pub fn group<P>(document: &mut Document<P>, content: P)
    ensures
        ({
            let g = final(document).active->0;
            let parent = active_parent(*old(document));
            let moved = regrouped(old(document).layers@, old(document).selected@, parent, g);
            &&& final(document).active is Some
            &&& final(document).layers@ == moved.insert(
                group_slot(moved, g),
                Layer {
                    id: g,
                    name: final(document).layers@[group_slot(moved, g)].name,
                    visible: true,
                    locked: false,
                    parent,
                    group: true,
                    clip_to: None,
                    standalone_mask: false,
                    content,
                },
            )
            &&& final(document).layers@[group_slot(moved, g)].name@ == "Group"@
            &&& final(document).selected@ == set![g]
            &&& (structure_check(*old(document)) is Ok && !ids(old(document).layers@).contains(g) && room_to_nest(
                old(document).layers@,
                old(document).selected@,
                parent,
                g,
            ) && final(document).layers@.len() <= MAX_LAYERS) ==> structure_check(*final(document)) is Ok
        }),
        final(document).id == old(document).id,
        final(document).width == old(document).width,
        final(document).height == old(document).height,
{
    proof {
        if document.active is Some {
            lemma_position(document.layers@, document.active->0);
        }
    }
    let parent = match document.active_index() {
        Some(i) => {
            assert(i == position(document.layers@, document.active->0));
            document.layers[i].parent
        },
        None => None,
    };
    let mut layer = Layer::blank(String::from_str("Group"), content);
    layer.group = true;
    layer.parent = parent;
    let id = layer.id;
    let ghost old_layers = document.layers@;
    let ghost moved = regrouped(old_layers, document.selected@, parent, id);
    let n = document.layers.len();
    for i in 0..n
        invariant
            n == document.layers.len(),
            forall|j: int| 0 <= j < i ==> document.layers@[j] == #[trigger] moved[j],
            forall|j: int| i <= j < n ==> document.layers@[j] == #[trigger] old_layers[j],
            moved == regrouped(old_layers, document.selected@, parent, id),
            old_layers.len() == n,
            document.id == old(document).id,
            document.width == old(document).width,
            document.height == old(document).height,
    {
        if document.selected.contains(&document.layers[i].id) && document.layers[i].parent == parent {
            document.layers[i].parent = Some(id);
        }
    }
    assert(document.layers@ =~= moved);
    let mut at = n;
    let mut k = n;
    loop
        invariant_except_break
            at == n,
        invariant
            k <= n,
            n == document.layers.len(),
            document.layers@ == moved,
            last_child_end(moved, Some(id), n as int) == last_child_end(moved, Some(id), k as int),
        ensures
            at <= n,
            n == document.layers.len(),
            document.layers@ == moved,
            at == group_slot(moved, id),
        decreases k,
    {
        if k == 0 {
            break;
        }
        if document.layers[k - 1].parent == Some(id) {
            at = k;
            break;
        }
        k = k - 1;
    }
    let ghost inserted = layer;
    document.layers.insert(at, layer);
    document.select(id, false);
    proof {
        let layers = old(document).layers@;
        if structure_check(*old(document)) is Ok && !ids(layers).contains(id) && room_to_nest(
            layers,
            old(document).selected@,
            parent,
            id,
        ) && document.layers@.len() <= MAX_LAYERS {
            lemma_last_child_end_bound(moved, Some(id), n as int);
            lemma_group_keeps_structure(*old(document), *document, parent, inserted, at as int);
        }
    }
}

/// `last_child_end` is -1 or an index past a layer, at most `n`.
proof fn lemma_last_child_end_bound<P>(layers: Seq<Layer<P>>, parent: Option<u128>, n: int)
    ensures
        last_child_end(layers, parent, n) == -1 || 1 <= last_child_end(layers, parent, n) <= n,
    decreases n,
{
    if n > 0 && layers[n - 1].parent != parent {
        lemma_last_child_end_bound(layers, parent, n - 1);
    }
}

/// The layers without the group `g`, its direct children moved up to `parent`.
pub open spec fn dissolved<P>(layers: Seq<Layer<P>>, g: u128, parent: Option<u128>) -> Seq<Layer<P>>
    decreases layers.len(),
{
    if layers.len() == 0 {
        Seq::empty()
    } else {
        let rest = dissolved(layers.drop_last(), g, parent);
        let l = layers.last();
        if l.id == g {
            rest
        } else if l.parent == Some(g) {
            rest.push(with_parent(l, parent))
        } else {
            rest.push(l)
        }
    }
}

/// Ungrouping the group `g` whose parent is `parent` gives each former
/// direct child of `g` the parent `parent`, and changes nothing else of it.
pub proof fn lemma_ungroup_lifts_children<P>(layers: Seq<Layer<P>>, g: u128, parent: Option<u128>)
    ensures
        forall|i: int|
            #![trigger layers[i]]
            0 <= i < layers.len() && layers[i].id != g && layers[i].parent == Some(g) ==> exists|k: int|
                0 <= k < dissolved(layers, g, parent).len() && dissolved(layers, g, parent)[k] == (Layer {
                    parent,
                    ..layers[i]
                }),
    decreases layers.len(),
{
    if layers.len() > 0 {
        let front = layers.drop_last();
        lemma_ungroup_lifts_children(front, g, parent);
        let rest = dissolved(front, g, parent);
        let d = dissolved(layers, g, parent);
        assert forall|i: int|
            #![trigger layers[i]]
            0 <= i < layers.len() && layers[i].id != g && layers[i].parent == Some(g) implies exists|k: int|
                0 <= k < d.len() && d[k] == (Layer { parent, ..layers[i] }) by {
            if i < layers.len() - 1 {
                assert(front[i] == layers[i]);
                let k = choose|k: int| 0 <= k < rest.len() && rest[k] == (Layer { parent, ..front[i] });
                assert(d[k] == rest[k]);
            } else {
                assert(d[rest.len() as int] == (Layer { parent, ..layers[i] }));
            }
        }
    }
}

/// Ungrouping the group `g` keeps every layer that is neither `g` nor a
/// direct child of it unchanged.
pub proof fn lemma_ungroup_keeps_others<P>(layers: Seq<Layer<P>>, g: u128, parent: Option<u128>)
    ensures
        forall|i: int|
            #![trigger layers[i]]
            0 <= i < layers.len() && layers[i].id != g && layers[i].parent != Some(g) ==> exists|k: int|
                0 <= k < dissolved(layers, g, parent).len() && dissolved(layers, g, parent)[k] == layers[i],
    decreases layers.len(),
{
    if layers.len() > 0 {
        let front = layers.drop_last();
        lemma_ungroup_keeps_others(front, g, parent);
        let rest = dissolved(front, g, parent);
        let d = dissolved(layers, g, parent);
        assert forall|i: int|
            #![trigger layers[i]]
            0 <= i < layers.len() && layers[i].id != g && layers[i].parent != Some(g) implies exists|k: int|
                0 <= k < d.len() && d[k] == layers[i] by {
            if i < layers.len() - 1 {
                assert(front[i] == layers[i]);
                let k = choose|k: int| 0 <= k < rest.len() && rest[k] == front[i];
                assert(d[k] == rest[k]);
            } else {
                assert(d[rest.len() as int] == layers[i]);
            }
        }
    }
}

/// Every layer left after ungrouping the group `g` whose parent is `parent`
/// is a layer other than `g` from before: a former direct child of `g` now
/// under `parent`, or any other layer unchanged.
pub proof fn lemma_ungroup_adds_nothing<P>(layers: Seq<Layer<P>>, g: u128, parent: Option<u128>)
    ensures
        forall|k: int|
            #![trigger dissolved(layers, g, parent)[k]]
            0 <= k < dissolved(layers, g, parent).len() ==> dissolved(layers, g, parent)[k].id != g && exists|i: int|
                0 <= i < layers.len() && ((layers[i].parent == Some(g) && dissolved(layers, g, parent)[k] == (Layer {
                    parent,
                    ..layers[i]
                })) || (layers[i].parent != Some(g) && dissolved(layers, g, parent)[k] == layers[i])),
    decreases layers.len(),
{
    if layers.len() > 0 {
        let front = layers.drop_last();
        lemma_ungroup_adds_nothing(front, g, parent);
        let rest = dissolved(front, g, parent);
        let d = dissolved(layers, g, parent);
        assert forall|k: int|
            #![trigger d[k]]
            0 <= k < d.len() implies d[k].id != g && exists|i: int|
                0 <= i < layers.len() && ((layers[i].parent == Some(g) && d[k] == (Layer { parent, ..layers[i] })) || (
                layers[i].parent != Some(g) && d[k] == layers[i])) by {
            if k < rest.len() {
                assert(d[k] == rest[k]);
                let i = choose|i: int|
                    0 <= i < front.len() && ((front[i].parent == Some(g) && rest[k] == (Layer { parent, ..front[i] }))
                        || (front[i].parent != Some(g) && rest[k] == front[i]));
                assert(layers[i] == front[i]);
            } else {
                assert(layers[layers.len() - 1] == layers.last());
            }
        }
    }
}

/// If the active layer is a group, move its direct children to its parent,
/// remove it, and make the top layer active and alone selected.
pub fn ungroup<P>(document: &mut Document<P>)
    ensures
        ({
            let at = position_opt(old(document).layers@, old(document).active);
            if at < 0 || !old(document).layers@[at].group {
                *final(document) == *old(document)
            } else {
                let g = old(document).layers@[at];
                &&& final(document).layers@ == dissolved(old(document).layers@, g.id, g.parent)
                &&& forall|i: int|
                    #![trigger old(document).layers@[i]]
                    0 <= i < old(document).layers@.len() && old(document).layers@[i].id != g.id
                        && old(document).layers@[i].parent == Some(g.id) ==> exists|k: int|
                        0 <= k < final(document).layers@.len() && final(document).layers@[k] == (Layer {
                            parent: g.parent,
                            ..old(document).layers@[i]
                        })
                &&& forall|i: int|
                    #![trigger old(document).layers@[i]]
                    0 <= i < old(document).layers@.len() && old(document).layers@[i].id != g.id
                        && old(document).layers@[i].parent != Some(g.id) ==> exists|k: int|
                        0 <= k < final(document).layers@.len() && final(document).layers@[k] == old(document).layers@[i]
                &&& forall|k: int|
                    0 <= k < final(document).layers@.len() ==> (#[trigger] final(document).layers@[k]).id != g.id
                &&& final(document).layers@.len() == 0 ==> final(document).active is None
                    && final(document).selected@ == Set::<u128>::empty()
                &&& final(document).layers@.len() > 0 ==> final(document).active == Some(
                    final(document).layers@.last().id,
                ) && final(document).selected@ == set![final(document).layers@.last().id]
                &&& final(document).id == old(document).id
                &&& final(document).width == old(document).width
                &&& final(document).height == old(document).height
            }
        }),
        structure_check(*old(document)) is Ok ==> structure_check(*final(document)) is Ok,
{
    proof {
        if document.active is Some {
            lemma_position(document.layers@, document.active->0);
        }
    }
    let (g, parent) = match document.active_index() {
        Some(i) => {
            assert(i == position(document.layers@, document.active->0));
            if !document.layers[i].group {
                return;
            }
            (document.layers[i].id, document.layers[i].parent)
        },
        None => return,
    };
    let mut rest: Vec<Layer<P>> = Vec::new();
    std::mem::swap(&mut rest, &mut document.layers);
    let ghost orig = rest@;
    let ghost mut taken: int = 0;
    while rest.len() > 0
        invariant
            document.id == old(document).id,
            document.width == old(document).width,
            document.height == old(document).height,
            0 <= taken <= orig.len(),
            rest@ == orig.subrange(taken, orig.len() as int),
            document.layers@ == dissolved(orig.subrange(0, taken), g, parent),
        decreases rest.len(),
    {
        let mut layer = rest.remove(0);
        proof {
            assert(orig.subrange(0, taken + 1).drop_last() =~= orig.subrange(0, taken));
            assert(orig.subrange(0, taken + 1).last() == layer);
        }
        if layer.id != g {
            if layer.parent == Some(g) {
                layer.parent = parent;
            }
            document.layers.push(layer);
        }
        proof {
            taken = taken + 1;
            assert(rest@ =~= orig.subrange(taken, orig.len() as int));
        }
    }
    assert(orig.subrange(0, orig.len() as int) =~= orig);
    document.selected.clear();
    if document.layers.len() > 0 {
        let top = document.layers[document.layers.len() - 1].id;
        document.active = Some(top);
        document.selected.insert(top);
    } else {
        document.active = None;
    }
    proof {
        lemma_ungroup_lifts_children(old(document).layers@, g, parent);
        lemma_ungroup_keeps_others(old(document).layers@, g, parent);
        lemma_ungroup_adds_nothing(old(document).layers@, g, parent);
        if structure_check(*old(document)) is Ok {
            lemma_dissolving_keeps_structure(*old(document), *document, g);
        }
    }
}

/// `x` with its identifier replaced through `m` where `m` has it.
pub open spec fn remap(m: Map<u128, u128>, x: Option<u128>) -> Option<u128> {
    match x {
        Some(i) => Some(if m.contains_key(i) { m[i] } else { i }),
        None => None,
    }
}

/// The structures of the copies of the layers that `m` renames, in order:
/// renamed, called "<name> copy", with parent and clipping links that point
/// at copies where those were copied too.
pub open spec fn copies<P>(layers: Seq<Layer<P>>, m: Map<u128, u128>) -> Seq<LayerShape>
    decreases layers.len(),
{
    if layers.len() == 0 {
        Seq::empty()
    } else {
        let rest = copies(layers.drop_last(), m);
        let l = layers.last();
        if m.contains_key(l.id) {
            rest.push(LayerShape {
                id: m[l.id],
                name: l.name@ + " copy"@,
                parent: remap(m, l.parent),
                clip_to: remap(m, l.clip_to),
                ..shape(l)
            })
        } else {
            rest
        }
    }
}

/// One past the last index before `n` whose layer `t` holds, or -1 past none.
pub open spec fn last_in_end<P>(layers: Seq<Layer<P>>, t: Set<u128>, n: int) -> int
    decreases n,
{
    if n <= 0 {
        -1
    } else if t.contains(layers[n - 1].id) {
        n
    } else {
        last_in_end(layers, t, n - 1)
    }
}

/// `x` renamed through `m`, or nothing where `m` lacks it.
pub open spec fn renamed(m: Map<u128, u128>, x: Option<u128>) -> Option<u128> {
    match x {
        Some(i) => if m.contains_key(i) { Some(m[i]) } else { None },
        None => None,
    }
}

/// Copy the selected layers with everything nested below them, with fresh
/// identifiers, just above the topmost of them; links between copied layers
/// point at the copies, and the copies take over the selection.
pub fn duplicate<P: Clone>(document: &mut Document<P>)
    ensures
        ({
            let old_layers = old(document).layers@;
            let t = target_set(old_layers, old(document).selected@);
            let end = last_in_end(old_layers, t, old_layers.len() as int);
            if end < 0 {
                *final(document) == *old(document)
            } else {
                exists|m: Map<u128, u128>|
                    #![trigger copies(old_layers, m)]
                    {
                        &&& m.dom() == t
                        &&& shapes(final(document).layers@) == shapes(old_layers.take(end)) + copies(old_layers, m)
                            + shapes(old_layers.skip(end))
                        &&& final(document).layers@.take(end) == old_layers.take(end)
                        &&& final(document).layers@.skip(end + copies(old_layers, m).len()) == old_layers.skip(end)
                        &&& forall|k: int|
                            0 <= k < copies(old_layers, m).len() ==> cloned::<P>(
                                picked(old_layers, t)[k].content,
                                #[trigger] final(document).layers@[end + k].content,
                            )
                        &&& final(document).active == renamed(m, old(document).active)
                        &&& final(document).selected@ == Set::new(|y: u128| exists|x: u128|
                            old(document).selected@.contains(x) && m.contains_key(x) && m[x] == y)
                        &&& final(document).id == old(document).id
                        &&& final(document).width == old(document).width
                        &&& final(document).height == old(document).height
                        &&& (structure_check(*old(document)) is Ok && fresh_names(old_layers, m)
                            && final(document).layers@.len() <= MAX_LAYERS && copy_names_fit(old_layers, m))
                            ==> structure_check(*final(document)) is Ok
                    }
            }
        }),
{
    let targets = document.transform_targets();
    let ghost t = target_set(document.layers@, document.selected@);
    assert(targets@ =~= t);
    let keys = set_elements(&targets);
    let mut names: HashMap<u128, u128> = HashMap::new();
    for k in 0..keys.len()
        invariant
            names@.dom() == keys@.take(k as int).to_set(),
    {
        names.insert(keys[k], new_id());
        assert(keys@.take(k + 1) =~= keys@.take(k as int).push(keys@[k as int]));
        proof {
            keys@.take(k as int).lemma_push_to_set_commute(keys@[k as int]);
        }
    }
    assert(keys@.take(keys.len() as int) =~= keys@);
    assert(names@.dom() =~= t);
    let ghost m = names@;
    let ghost old_layers = document.layers@;
    let n = document.layers.len();
    let mut made: Vec<Layer<P>> = Vec::new();
    for i in 0..n
        invariant
            n == document.layers.len(),
            document.layers@ == old_layers,
            names@ == m,
            m.dom() == targets@,
            shapes(made@) == copies(old_layers.take(i as int), m),
            made@.len() == picked(old_layers.take(i as int), m.dom()).len(),
            forall|k: int|
                0 <= k < made@.len() ==> cloned::<P>(
                    picked(old_layers.take(i as int), m.dom())[k].content,
                    #[trigger] made@[k].content,
                ),
    {
        assert(old_layers.take(i + 1).drop_last() =~= old_layers.take(i as int));
        let layer = &document.layers[i];
        let ghost before = made@;
        assert(old_layers.take(i + 1).last() == *layer);
        if targets.contains(&layer.id) {
            let id = *names.get(&layer.id).unwrap();
            let parent = match layer.parent {
                Some(p) => match names.get(&p) {
                    Some(q) => Some(*q),
                    None => Some(p),
                },
                None => None,
            };
            let clip_to = match layer.clip_to {
                Some(c) => match names.get(&c) {
                    Some(q) => Some(*q),
                    None => Some(c),
                },
                None => None,
            };
            let name = layer.name.clone().concat(" copy");
            made.push(Layer {
                id,
                name,
                visible: layer.visible,
                locked: layer.locked,
                parent,
                group: layer.group,
                clip_to,
                standalone_mask: layer.standalone_mask,
                content: layer.content.clone(),
            });
            assert(shapes(made@) =~= shapes(made@.drop_last()).push(shape(made@.last())));
            assert forall|k: int| 0 <= k < made@.len() implies cloned::<P>(
                picked(old_layers.take(i + 1), m.dom())[k].content,
                #[trigger] made@[k].content,
            ) by {
                if k < before.len() {
                    assert(made@[k] == before[k]);
                }
            }
        }
    }
    assert(old_layers.take(n as int) =~= old_layers);
    let mut end = n;
    loop
        invariant_except_break
            end <= n,
            last_in_end(old_layers, t, n as int) == last_in_end(old_layers, t, end as int),
        invariant
            n == document.layers.len(),
            document.layers@ == old_layers,
            targets@ == t,
        ensures
            end as int == last_in_end(old_layers, t, n as int) || (end == 0 && last_in_end(old_layers, t, n as int) == -1),
            end <= n,
        decreases end,
    {
        if end == 0 {
            break;
        }
        if targets.contains(&document.layers[end - 1].id) {
            break;
        }
        end = end - 1;
    }
    proof {
        lemma_copies_empty(old_layers, m, n as int);
    }
    if made.len() == 0 {
        return;
    }
    let ghost c = copies(old_layers, m);
    let active = match document.active {
        Some(a) => match names.get(&a) {
            Some(b) => Some(*b),
            None => None,
        },
        None => None,
    };
    let chosen = set_elements(&document.selected);
    let mut selected: HashSet<u128> = HashSet::new();
    let ghost old_selected = document.selected@;
    for k in 0..chosen.len()
        invariant
            names@ == m,
            chosen@.to_set() == old_selected,
            forall|y: u128| #[trigger] selected@.contains(y) <==> exists|j: int|
                0 <= j < k && m.contains_key(chosen@[j]) && m[chosen@[j]] == y,
    {
        match names.get(&chosen[k]) {
            Some(b) => {
                selected.insert(*b);
            },
            None => {},
        }
    }
    assert forall|y: u128| selected@.contains(y) <==> exists|x: u128|
        old_selected.contains(x) && m.contains_key(x) && m[x] == y by {
        if selected@.contains(y) {
            let j = choose|j: int| 0 <= j < chosen.len() && m.contains_key(chosen@[j]) && m[chosen@[j]] == y;
            assert(chosen@.to_set().contains(chosen@[j]));
        }
        if exists|x: u128| old_selected.contains(x) && m.contains_key(x) && m[x] == y {
            let x = choose|x: u128| old_selected.contains(x) && m.contains_key(x) && m[x] == y;
            assert(chosen@.to_set().contains(x));
            let j = choose|j: int| 0 <= j < chosen@.len() && chosen@[j] == x;
        }
    }
    let ghost made_before = made@;
    let mut tail = document.layers.split_off(end);
    document.layers.append(&mut made);
    document.layers.append(&mut tail);
    document.active = active;
    document.selected = selected;
    proof {
        let f = document.layers@;
        assert(f.take(end as int) =~= old_layers.take(end as int));
        assert forall|k: int| 0 <= k < c.len() implies cloned::<P>(
            picked(old_layers, t)[k].content,
            #[trigger] f[end + k].content,
        ) by {
            lemma_copies_are_picked(old_layers, m);
            assert(f[end + k] == made_before[k]);
        }
        assert(f.skip(end + c.len()) =~= old_layers.skip(end as int));
        assert(shapes(f) =~= shapes(old_layers.take(end as int)) + c + shapes(old_layers.skip(end as int)));
        assert(document.selected@ =~= Set::new(|y: u128| exists|x: u128|
            old_selected.contains(x) && m.contains_key(x) && m[x] == y));
        lemma_duplicated_from_shapes(old_layers, f, m, end as int);
        if structure_check(*old(document)) is Ok && fresh_names(old_layers, m) && f.len() <= MAX_LAYERS
            && copy_names_fit(old_layers, m) {
            lemma_duplicate_keeps_structure(*old(document), *document, m, end as int);
        }
    }
}

/// No layer is copied exactly when no layer is among the targets.
pub proof fn lemma_copies_empty<P>(layers: Seq<Layer<P>>, m: Map<u128, u128>, n: int)
    requires
        0 <= n <= layers.len(),
    ensures
        copies(layers.take(n), m).len() == 0 <==> last_in_end(layers, m.dom(), n) == -1,
        last_in_end(layers, m.dom(), n) == -1 || (1 <= last_in_end(layers, m.dom(), n) <= n),
    decreases n,
{
    if n > 0 {
        assert(layers.take(n).drop_last() =~= layers.take(n - 1));
        lemma_copies_empty(layers, m, n - 1);
    }
}

/// Why a layer could not be copied into another document.
#[derive(Clone, Copy, Debug, PartialEq, Eq)]
pub enum CopyError {
    /// The layer to copy is not in the source document.
    MissingLayer,
    /// The destination's structure is refused once the copies are in.
    Invalid(DocumentError),
}

impl CopyError {
    /// The message shown for the error.
    pub fn message(&self) -> (text: &'static str)
        ensures
            self is MissingLayer ==> text@ == "The dragged layer no longer exists"@,
            self matches CopyError::Invalid(e) ==> text@ == error_text(*e),
    {
        match self {
            CopyError::MissingLayer => "The dragged layer no longer exists",
            CopyError::Invalid(e) => e.message(),
        }
    }
}

/// The layers of `layers` whose identifiers `t` holds, in order.
pub open spec fn picked<P>(layers: Seq<Layer<P>>, t: Set<u128>) -> Seq<Layer<P>>
    decreases layers.len(),
{
    if layers.len() == 0 {
        Seq::empty()
    } else {
        let rest = picked(layers.drop_last(), t);
        if t.contains(layers.last().id) {
            rest.push(layers.last())
        } else {
            rest
        }
    }
}

/// The structure of the copy of `l` in another document: renamed through
/// `m`, with parent and clipping links to copies, or to nothing where the
/// layer linked to was not copied.
pub open spec fn transplant<P>(l: Layer<P>, m: Map<u128, u128>) -> LayerShape {
    LayerShape { id: m[l.id], parent: renamed(m, l.parent), clip_to: renamed(m, l.clip_to), ..shape(l) }
}

/// The outcome of checking a document after a copy.
pub open spec fn copy_verdict<P>(doc: Document<P>) -> Result<(), CopyError> {
    match structure_check(doc) {
        Ok(()) => Ok(()),
        Err(e) => Err(CopyError::Invalid(e)),
    }
}

/// Copy the layer `root` of `source`, with everything nested below it, on
/// top of `destination` with fresh identifiers, select the copy of `root`
/// and check the destination. `adapt` gives each copy its content from the
/// layer it copies (the editor recentres it on the new canvas and bakes in a
/// clipping source that is not copied along).
pub fn copy_layers<P, F: Fn(&Layer<P>) -> P>(
    source: &Document<P>,
    destination: &mut Document<P>,
    root: u128,
    adapt: F,
) -> (result: Result<(), CopyError>)
    requires
        forall|l: &Layer<P>| #[trigger] adapt.requires((l,)),
    ensures
        position(source.layers@, root) == -1 ==> result == Err::<(), CopyError>(CopyError::MissingLayer)
            && *final(destination) == *old(destination),
        position(source.layers@, root) >= 0 ==> exists|m: Map<u128, u128>|
            #![trigger m.dom()]
            {
                let t = Set::new(|x: u128| in_family(source.layers@, root, x));
                let chosen = picked(source.layers@, t);
                let before = old(destination).layers@.len();
                &&& m.dom() == t
                &&& final(destination).layers@.len() == before + chosen.len()
                &&& final(destination).layers@.take(before as int) == old(destination).layers@
                &&& forall|k: int| 0 <= k < chosen.len() ==> {
                    &&& shape(#[trigger] final(destination).layers@[before + k]) == transplant(chosen[k], m)
                    &&& adapt.ensures((&chosen[k],), final(destination).layers@[before + k].content)
                }
                &&& final(destination).active == Some(m[root])
                &&& final(destination).selected@ == set![m[root]]
                &&& final(destination).id == old(destination).id
                &&& final(destination).width == old(destination).width
                &&& final(destination).height == old(destination).height
                &&& result == copy_verdict(*final(destination))
            },
{
    let targets = source.descendants(root);
    let ghost t = Set::new(|x: u128| in_family(source.layers@, root, x));
    assert(targets@ =~= t);
    proof {
        lemma_position(source.layers@, root);
    }
    if find_layer(&source.layers, root).is_none() {
        return Err(CopyError::MissingLayer);
    }
    let keys = set_elements(&targets);
    let mut names: HashMap<u128, u128> = HashMap::new();
    for k in 0..keys.len()
        invariant
            names@.dom() == keys@.take(k as int).to_set(),
    {
        names.insert(keys[k], new_id());
        assert(keys@.take(k + 1) =~= keys@.take(k as int).push(keys@[k as int]));
        proof {
            keys@.take(k as int).lemma_push_to_set_commute(keys@[k as int]);
        }
    }
    assert(keys@.take(keys.len() as int) =~= keys@);
    assert(names@.dom() =~= t);
    let ghost m = names@;
    let ghost layers = source.layers@;
    let n = source.layers.len();
    let mut made: Vec<Layer<P>> = Vec::new();
    for i in 0..n
        invariant
            n == source.layers.len(),
            source.layers@ == layers,
            names@ == m,
            m.dom() == targets@,
            forall|l: &Layer<P>| #[trigger] adapt.requires((l,)),
            made@.len() == picked(layers.take(i as int), m.dom()).len(),
            forall|k: int| 0 <= k < made@.len() ==> {
                &&& shape(#[trigger] made@[k]) == transplant(picked(layers.take(i as int), m.dom())[k], m)
                &&& adapt.ensures((&picked(layers.take(i as int), m.dom())[k],), made@[k].content)
            },
    {
        assert(layers.take(i + 1).drop_last() =~= layers.take(i as int));
        let layer = &source.layers[i];
        if targets.contains(&layer.id) {
            let id = *names.get(&layer.id).unwrap();
            let parent = match layer.parent {
                Some(p) => match names.get(&p) {
                    Some(q) => Some(*q),
                    None => None,
                },
                None => None,
            };
            let clip_to = match layer.clip_to {
                Some(c) => match names.get(&c) {
                    Some(q) => Some(*q),
                    None => None,
                },
                None => None,
            };
            let content = adapt(layer);
            made.push(Layer {
                id,
                name: layer.name.clone(),
                visible: layer.visible,
                locked: layer.locked,
                parent,
                group: layer.group,
                clip_to,
                standalone_mask: layer.standalone_mask,
                content,
            });
        }
    }
    assert(layers.take(n as int) =~= layers);
    let ghost chosen = picked(layers, t);
    let ghost before = destination.layers@;
    assert(t.contains(root)) by {
        assert(within_family(layers, root, root, 0));
    }
    let top = *names.get(&root).unwrap();
    let ghost copies_made = made@;
    destination.layers.append(&mut made);
    destination.select(top, false);
    proof {
        assert(destination.layers@.take(before.len() as int) =~= before);
        assert forall|k: int| 0 <= k < chosen.len() implies {
            &&& shape(#[trigger] destination.layers@[before.len() + k]) == transplant(chosen[k], m)
            &&& adapt.ensures((&chosen[k],), destination.layers@[before.len() + k].content)
        } by {
            assert(destination.layers@[before.len() + k] == copies_made[k]);
        }
    }
    match destination.validate() {
        Ok(()) => Ok(()),
        Err(e) => Err(CopyError::Invalid(e)),
    }
}

/// Why layers cannot be merged.
#[derive(Clone, Copy, Debug, PartialEq, Eq)]
pub enum MergeError {
    /// Fewer than two layers take part and the active layer is not a group.
    NothingToMerge,
}

impl MergeError {
    /// The message shown for the error.
    pub fn message(&self) -> (text: &'static str)
        ensures
            text@ == "Select at least two layers, or a layer above another"@,
    {
        "Select at least two layers, or a layer above another"
    }
}

/// The layers that a merge combines and the parent the merged layer gets.
pub struct MergePlan {
    pub targets: HashSet<u128>,
    pub parent: Option<u128>,
}

/// `t` with the families of the layers below index `below` whose parent is `parent`.
pub open spec fn with_lower_siblings<P>(layers: Seq<Layer<P>>, t: Set<u128>, parent: Option<u128>, below: int) -> Set<u128> {
    Set::new(|x: u128| t.contains(x) || exists|j: int|
        0 <= j < below && #[trigger] layers[j].parent == parent && in_family(layers, layers[j].id, x))
}

/// Index of the highest layer below `below` whose parent is `parent`, or -1.
pub open spec fn sibling_below<P>(layers: Seq<Layer<P>>, parent: Option<u128>, below: int) -> int
    decreases below,
{
    if below <= 0 {
        -1
    } else if layers[below - 1].parent == parent {
        below - 1
    } else {
        sibling_below(layers, parent, below - 1)
    }
}

/// Targets after walking the layers below index `i` from the top down: a
/// standalone mask among the targets adds the families of all lower
/// layers that share its parent, so baking it keeps what it covered.
pub open spec fn with_masked<P>(layers: Seq<Layer<P>>, t: Set<u128>, i: int) -> Set<u128>
    decreases i,
{
    if i <= 0 || i > layers.len() {
        t
    } else {
        let mask = layers[i - 1];
        let grown = if mask.standalone_mask && t.contains(mask.id) {
            with_lower_siblings(layers, t, mask.parent, i - 1)
        } else {
            t
        };
        with_masked(layers, grown, i - 1)
    }
}

/// Targets of a merge before the standalone-mask expansion: the selected
/// layers and their descendants, and with `down` and a single target, the
/// family of the nearest lower sibling of the active layer.
pub open spec fn merge_seed<P>(doc: Document<P>, down: bool) -> Set<u128> {
    let layers = doc.layers@;
    let t = target_set(layers, doc.selected@);
    let at = position_opt(layers, doc.active);
    let index = if at >= 0 { at } else { 0 };
    if down && t.len() == 1 && index > 0 && sibling_below(layers, layers[index].parent, index) >= 0 {
        let j = sibling_below(layers, layers[index].parent, index);
        Set::new(|x: u128| t.contains(x) || in_family(layers, layers[j].id, x))
    } else {
        t
    }
}

/// All layers a merge combines.
pub open spec fn merge_targets<P>(doc: Document<P>, down: bool) -> Set<u128> {
    with_masked(doc.layers@, merge_seed(doc, down), doc.layers@.len() as int)
}

/// Parents of the targeted layers that are not targets themselves.
pub open spec fn outer_parents<P>(layers: Seq<Layer<P>>, t: Set<u128>) -> Set<Option<u128>> {
    Set::new(|p: Option<u128>| exists|i: int|
        0 <= i < layers.len() && t.contains(#[trigger] layers[i].id) && !(layers[i].parent matches Some(q)
            && t.contains(q)) && layers[i].parent == p)
}

/// Add every element of `more` to `target`.
fn extend(target: &mut HashSet<u128>, more: &HashSet<u128>)
    ensures
        final(target)@ == old(target)@.union(more@),
{
    let items = set_elements(more);
    let ghost start = target@;
    for k in 0..items.len()
        invariant
            target@ == start.union(items@.take(k as int).to_set()),
    {
        target.insert(items[k]);
        assert(items@.take(k + 1) =~= items@.take(k as int).push(items@[k as int]));
        proof {
            items@.take(k as int).lemma_push_to_set_commute(items@[k as int]);
        }
        assert(target@ =~= start.union(items@.take(k + 1).to_set()));
    }
    assert(items@.take(items.len() as int) =~= items@);
    assert(target@ =~= start.union(more@));
}

/// Whether `v` holds `x`.
fn holds_parent(v: &Vec<Option<u128>>, x: Option<u128>) -> (result: bool)
    ensures
        result == v@.contains(x),
{
    let mut i: usize = 0;
    while i < v.len()
        invariant
            i <= v.len(),
            forall|j: int| 0 <= j < i ==> v@[j] != x,
        decreases v.len() - i,
    {
        if v[i] == x {
            return true;
        }
        i = i + 1;
    }
    false
}

/// Decide which layers a merge combines: the selected layers with their
/// descendants; with `down` and a single target, also the nearest lower
/// sibling of the active layer; and for each targeted standalone mask, the
/// lower layers beside it. At least two layers must take part unless the
/// active layer is a group. The merged layer goes into the one parent that
/// all outermost targets share, or to the top level.
pub fn merge_plan<P>(document: &Document<P>, down: bool) -> (result: Result<MergePlan, MergeError>)
    ensures
        ({
            let t = merge_targets(*document, down);
            let at = position_opt(document.layers@, document.active);
            let active_group = at >= 0 && document.layers@[at].group;
            &&& result is Err <==> !(t.len() >= 2 || active_group)
            &&& result matches Ok(plan) ==> {
                &&& plan.targets@ == t
                &&& plan.parent == if outer_parents(document.layers@, t).len() == 1 {
                    outer_parents(document.layers@, t).choose()
                } else {
                    None
                }
            }
        }),
{
    let ghost layers = document.layers@;
    let n = document.layers.len();
    let mut targets = document.transform_targets();
    assert(targets@ =~= target_set(layers, document.selected@));
    proof {
        if document.active is Some {
            lemma_position(layers, document.active->0);
        }
    }
    if down && targets.len() == 1 {
        let index = match document.active_index() {
            Some(i) => {
                assert(i == position(layers, document.active->0));
                i
            },
            None => 0,
        };
        if index > 0 {
            let parent = document.layers[index].parent;
            let mut j = index;
            loop
                invariant
                    j <= index < n,
                    n == document.layers.len(),
                    layers == document.layers@,
                    parent == layers[index as int].parent,
                    sibling_below(layers, parent, index as int) == sibling_below(layers, parent, j as int),
                ensures
                    j == 0 ==> sibling_below(layers, parent, index as int) == -1,
                    j > 0 ==> sibling_below(layers, parent, index as int) == j - 1,
                    j <= index,
                decreases j,
            {
                if j == 0 {
                    break;
                }
                if document.layers[j - 1].parent == parent {
                    break;
                }
                j = j - 1;
            }
            if j > 0 {
                let family = document.descendants(document.layers[j - 1].id);
                let ghost before = targets@;
                extend(&mut targets, &family);
                assert(targets@ =~= merge_seed(*document, down));
            }
        }
    }
    let ghost seed = targets@;
    assert(seed == merge_seed(*document, down));
    let mut i = n;
    while i > 0
        invariant
            i <= n,
            n == document.layers.len(),
            layers == document.layers@,
            with_masked(layers, targets@, i as int) == with_masked(layers, seed, n as int),
        decreases i,
    {
        let k = i - 1;
        if document.layers[k].standalone_mask && targets.contains(&document.layers[k].id) {
            let parent = document.layers[k].parent;
            let ghost before = targets@;
            for j in 0..k
                invariant
                    k < n,
                    n == document.layers.len(),
                    layers == document.layers@,
                    parent == layers[k as int].parent,
                    targets@ == with_lower_siblings(layers, before, parent, j as int),
            {
                if document.layers[j].parent == parent {
                    let family = document.descendants(document.layers[j].id);
                    extend(&mut targets, &family);
                }
                assert(targets@ =~= with_lower_siblings(layers, before, parent, j + 1));
            }
        }
        i = k;
    }
    assert(targets@ == merge_targets(*document, down));
    let active_group = match document.active_index() {
        Some(a) => {
            assert(a == position(layers, document.active->0));
            document.layers[a].group
        },
        None => false,
    };
    if !(targets.len() >= 2 || active_group) {
        return Err(MergeError::NothingToMerge);
    }
    let ghost t = targets@;
    let mut parents: Vec<Option<u128>> = Vec::new();
    for i in 0..n
        invariant
            n == document.layers.len(),
            layers == document.layers@,
            targets@ == t,
            parents@.no_duplicates(),
            forall|p: Option<u128>| #[trigger] parents@.contains(p) <==> exists|j: int|
                0 <= j < i && t.contains(#[trigger] layers[j].id) && !(layers[j].parent matches Some(q)
                    && t.contains(q)) && layers[j].parent == p,
    {
        let layer = &document.layers[i];
        let ghost old_parents = parents@;
        if targets.contains(&layer.id) {
            let outer = match layer.parent {
                Some(q) => !targets.contains(&q),
                None => true,
            };
            if outer && !holds_parent(&parents, layer.parent) {
                parents.push(layer.parent);
            }
        }
        proof {
            assert forall|p: Option<u128>| #[trigger] parents@.contains(p) <==> exists|j: int|
                0 <= j < i + 1 && t.contains(#[trigger] layers[j].id) && !(layers[j].parent matches Some(q)
                    && t.contains(q)) && layers[j].parent == p by {
                if exists|j: int|
                    0 <= j < i + 1 && t.contains(#[trigger] layers[j].id) && !(layers[j].parent matches Some(q)
                        && t.contains(q)) && layers[j].parent == p {
                    let j = choose|j: int|
                        0 <= j < i + 1 && t.contains(#[trigger] layers[j].id) && !(layers[j].parent matches Some(q)
                            && t.contains(q)) && layers[j].parent == p;
                    if j < i {
                        assert(exists|j: int|
                            0 <= j < i && t.contains(#[trigger] layers[j].id) && !(layers[j].parent matches Some(q)
                                && t.contains(q)) && layers[j].parent == p);
                        assert(old_parents.contains(p));
                        assert(parents@.contains(p)) by {
                            let w = choose|w: int| 0 <= w < old_parents.len() && old_parents[w] == p;
                            assert(parents@[w] == p);
                        }
                    } else {
                        assert(j == i);
                        if !old_parents.contains(p) {
                            assert(parents@ == old_parents.push(p));
                            assert(parents@[old_parents.len() as int] == p);
                        } else {
                            let w = choose|w: int| 0 <= w < old_parents.len() && old_parents[w] == p;
                            assert(parents@[w] == p);
                        }
                    }
                }
                if parents@.contains(p) {
                    if !old_parents.contains(p) {
                        assert(parents@ == old_parents.push(layers[i as int].parent));
                        let w = choose|w: int| 0 <= w < parents@.len() && parents@[w] == p;
                        assert(w == old_parents.len());
                        assert(layers[i as int].parent == p);
                    }
                }
            }
        }
    }
    proof {
        assert(parents@.to_set() =~= outer_parents(layers, t));
        parents@.unique_seq_to_set();
    }
    let parent = if parents.len() == 1 {
        proof {
            assert(outer_parents(layers, t) =~= set![parents@[0]]);
            assert(outer_parents(layers, t).contains(outer_parents(layers, t).choose()));
        }
        parents[0]
    } else {
        None
    };
    Ok(MergePlan { targets, parent })
}

/// The layers outside `t`, in order, with clipping links into `t` redirected
/// to the merged layer `g`.
pub open spec fn outside<P>(layers: Seq<Layer<P>>, t: Set<u128>, g: u128) -> Seq<Layer<P>>
    decreases layers.len(),
{
    if layers.len() == 0 {
        Seq::empty()
    } else {
        let rest = outside(layers.drop_last(), t, g);
        let l = layers.last();
        if t.contains(l.id) {
            rest
        } else if l.clip_to matches Some(c) && t.contains(c) {
            rest.push(Layer { clip_to: Some(g), ..l })
        } else {
            rest.push(l)
        }
    }
}

/// How many of the first `n` layers lie outside `t`.
pub open spec fn count_outside<P>(layers: Seq<Layer<P>>, t: Set<u128>, n: int) -> int
    decreases n,
{
    if n <= 0 {
        0
    } else {
        count_outside(layers, t, n - 1) + if t.contains(layers[n - 1].id) { 0int } else { 1int }
    }
}

/// Replace the planned targets by one merged layer whose content is
/// `content`: it takes the active layer's name (or "Merged") and the planned
/// parent, sits where the topmost target was among the remaining layers,
/// receives the clipping links of the targets, and is selected alone.
pub fn finish_merge<P>(document: &mut Document<P>, plan: MergePlan, content: P)
    ensures
        ({
            let layers = old(document).layers@;
            let t = plan.targets@;
            let g = final(document).active->0;
            let end = last_in_end(layers, t, layers.len() as int);
            let top = if end >= 0 { end - 1 } else { 0 };
            let kept = outside(layers, t, g);
            let below = count_outside(layers, t, top);
            let slot = if below < kept.len() { below } else { kept.len() as int };
            let at = position_opt(layers, old(document).active);
            let merged = final(document).layers@[slot];
            &&& final(document).active is Some
            &&& final(document).layers@ == kept.insert(slot, merged)
            &&& merged.id == g
            &&& merged.name@ == if at >= 0 { layers[at].name@ } else { "Merged"@ }
            &&& merged.parent == plan.parent
            &&& merged.visible && !merged.locked && !merged.group
            &&& merged.clip_to is None && !merged.standalone_mask
            &&& merged.content == content
            &&& final(document).selected@ == set![g]
            &&& final(document).id == old(document).id
            &&& final(document).width == old(document).width
            &&& final(document).height == old(document).height
            &&& (structure_check(*old(document)) is Ok && closed_under_children(layers, t) && !ids(layers).contains(g)
                && parent_walk(layers, seq![g], plan.parent) is Ok && (plan.parent is None || !t.contains(
                plan.parent->0,
            )) && final(document).layers@.len() <= MAX_LAYERS) ==> structure_check(*final(document)) is Ok
        }),
{
    let ghost layers = document.layers@;
    let ghost planned_parent = plan.parent;
    let targets = plan.targets;
    let ghost t = targets@;
    proof {
        if document.active is Some {
            lemma_position(layers, document.active->0);
        }
    }
    let name = match document.active_index() {
        Some(a) => {
            assert(a == position(layers, document.active->0));
            document.layers[a].name.clone()
        },
        None => String::from_str("Merged"),
    };
    let mut merged = Layer::blank(name, content);
    merged.parent = plan.parent;
    let g = merged.id;
    let n = document.layers.len();
    let mut end = n;
    loop
        invariant_except_break
            end <= n,
            last_in_end(layers, t, n as int) == last_in_end(layers, t, end as int),
        invariant
            n == document.layers.len(),
            document.layers@ == layers,
            targets@ == t,
        ensures
            end == 0 ==> last_in_end(layers, t, n as int) == -1,
            end > 0 ==> last_in_end(layers, t, n as int) == end,
            end <= n,
        decreases end,
    {
        if end == 0 {
            break;
        }
        if targets.contains(&document.layers[end - 1].id) {
            break;
        }
        end = end - 1;
    }
    let top = if end > 0 { end - 1 } else { 0 };
    let mut below: usize = 0;
    for j in 0..top
        invariant
            top <= n,
            n == document.layers.len(),
            document.layers@ == layers,
            targets@ == t,
            below == count_outside(layers, t, j as int),
            below <= j,
    {
        if !targets.contains(&document.layers[j].id) {
            below = below + 1;
        }
    }
    let mut rest: Vec<Layer<P>> = Vec::new();
    std::mem::swap(&mut rest, &mut document.layers);
    let ghost mut taken: int = 0;
    while rest.len() > 0
        invariant
            document.id == old(document).id,
            document.width == old(document).width,
            document.height == old(document).height,
            targets@ == t,
            0 <= taken <= layers.len(),
            rest@ == layers.subrange(taken, layers.len() as int),
            document.layers@ == outside(layers.subrange(0, taken), t, g),
        decreases rest.len(),
    {
        let mut layer = rest.remove(0);
        proof {
            assert(layers.subrange(0, taken + 1).drop_last() =~= layers.subrange(0, taken));
            assert(layers.subrange(0, taken + 1).last() == layer);
        }
        if !targets.contains(&layer.id) {
            match layer.clip_to {
                Some(c) => {
                    if targets.contains(&c) {
                        layer.clip_to = Some(g);
                    }
                },
                None => {},
            }
            document.layers.push(layer);
        }
        proof {
            taken = taken + 1;
            assert(rest@ =~= layers.subrange(taken, layers.len() as int));
        }
    }
    assert(layers.subrange(0, layers.len() as int) =~= layers);
    document.select(g, false);
    let slot = if below < document.layers.len() { below } else { document.layers.len() };
    let ghost merged_layer = merged;
    document.layers.insert(slot, merged);
    proof {
        if structure_check(*old(document)) is Ok && closed_under_children(layers, t) && !ids(layers).contains(g)
            && parent_walk(layers, seq![g], planned_parent) is Ok && (planned_parent is None || !t.contains(
            planned_parent->0,
        )) && document.layers@.len() <= MAX_LAYERS {
            lemma_layers_check_all(layers, 0);
            let at = position_opt(layers, old(document).active);
            if at >= 0 {
                assert(layer_check(layers, at) is Ok);
            } else {
                reveal_strlit("Merged");
                lemma_utf8_len_bound("Merged"@);
                assert(!is_white_space("Merged"@[0]));
            }
            lemma_merge_keeps_structure(*old(document), *document, t, merged_layer, slot as int);
        }
    }
}

/// Some layer of `layers` clips to the layer `id`.
pub open spec fn clipped_to<P>(layers: Seq<Layer<P>>, id: u128) -> bool {
    exists|i: int| 0 <= i < layers.len() && #[trigger] layers[i].clip_to == Some(id)
}

/// Whether motion blur can be previewed on the graphics device: there is no
/// selection, and the active layer is an unlocked raster layer (as
/// `plain_raster` judges its content: pixels, no adjustment, no RAW source)
/// that is not a group and that no layer clips to. Other cases need the
/// finished pixels and are blurred on the processor.
pub fn can_preview_motion_blur<P, F: Fn(&P) -> bool>(document: &Document<P>, selection: bool, plain_raster: F) -> (able: bool)
    requires
        forall|c: &P| #[trigger] plain_raster.requires((c,)),
    ensures
        able ==> {
            let at = position_opt(document.layers@, document.active);
            let l = document.layers@[at];
            &&& !selection
            &&& at >= 0
            &&& plain_raster.ensures((&l.content,), true)
            &&& !l.locked
            &&& !l.group
            &&& !clipped_to(document.layers@, l.id)
        },
        !able ==> {
            let at = position_opt(document.layers@, document.active);
            let l = document.layers@[at];
            ||| selection
            ||| at < 0
            ||| plain_raster.ensures((&l.content,), false)
            ||| l.locked
            ||| l.group
            ||| clipped_to(document.layers@, l.id)
        },
{
    if selection {
        return false;
    }
    proof {
        if document.active is Some {
            lemma_position(document.layers@, document.active->0);
        }
    }
    let at = match document.active_index() {
        None => return false,
        Some(i) => i,
    };
    let layer = &document.layers[at];
    if !plain_raster(&layer.content) || layer.locked || layer.group {
        return false;
    }
    let mut i: usize = 0;
    while i < document.layers.len()
        invariant
            i <= document.layers@.len(),
            at == position_opt(document.layers@, document.active),
            at < document.layers@.len(),
            *layer == document.layers@[at as int],
            forall|j: int| 0 <= j < i ==> #[trigger] document.layers@[j].clip_to != Some(layer.id),
        decreases document.layers@.len() - i,
    {
        if document.layers[i].clip_to == Some(layer.id) {
            assert(clipped_to(document.layers@, layer.id)) by {
                assert(document.layers@[i as int].clip_to == Some(layer.id));
            }
            return false;
        }
        i = i + 1;
    }
    true
}

} // verus!
