//! Why deleting layers keeps a document's structure sound: the deleted set
//! is closed under children, so every surviving layer keeps its ancestors,
//! and clipping links into the deleted set are cut.
use vstd::prelude::*;

use crate::operations::{dissolved, with_parent};
use crate::document::{
    clip_walk, closed_under_children, ids, in_family, in_targets, layer_check, layers_check_from, lemma_child_in_family, lemma_position,
    parent_in, parent_walk, position, structure_check, surviving, target_set, Document, Layer, MAX_CLIP_CHAIN,
    MAX_GROUP_CHAIN,
};

verus! {

/// `l` without its clipping link when that link names a layer of `dead`.
pub open spec fn unclipped<P>(l: Layer<P>, dead: Set<u128>) -> Layer<P> {
    if l.clip_to matches Some(c) && dead.contains(c) {
        Layer { clip_to: None, ..l }
    } else {
        l
    }
}

/// No layer of `layers` is in `t`, and none names a layer of `t` as its
/// parent or as its clipping source.
pub open spec fn clear_of<P>(layers: Seq<Layer<P>>, t: Set<u128>) -> bool {
    forall|k: int|
        0 <= k < layers.len() ==> !t.contains((#[trigger] layers[k]).id) && !parent_in(layers[k], t) && !(
        layers[k].clip_to is Some && t.contains(layers[k].clip_to->0))
}

/// The survivors of deleting a set closed under children are clear of it.
pub proof fn lemma_survivors_clear<P>(layers: Seq<Layer<P>>, dead: Set<u128>)
    requires
        closed_under_children(layers, dead),
    ensures
        clear_of(surviving(layers, dead), dead),
{
    let s = surviving(layers, dead);
    lemma_surviving_shape(layers, dead);
    assert forall|k: int| 0 <= k < s.len() implies !dead.contains((#[trigger] s[k]).id) && !parent_in(s[k], dead)
        && !(s[k].clip_to is Some && dead.contains(s[k].clip_to->0)) by {
        let j = choose|j: int| 0 <= j < layers.len() && layers[j].id == s[k].id && s[k] == unclipped(layers[j], dead);
        if parent_in(s[k], dead) {
            assert(parent_in(layers[j], dead));
        }
    }
}

/// The selected layers with their descendants are closed under children.
pub proof fn lemma_targets_closed<P>(layers: Seq<Layer<P>>, selected: Set<u128>)
    ensures
        closed_under_children(layers, target_set(layers, selected)),
{
    let t = target_set(layers, selected);
    assert forall|i: int| 0 <= i < layers.len() && parent_in(#[trigger] layers[i], t) implies t.contains(layers[i].id) by {
        let p = layers[i].parent->0;
        let s = choose|s: u128| selected.contains(s) && in_family(layers, s, p);
        lemma_child_in_family(layers, s, i);
        assert(in_targets(layers, selected, layers[i].id));
    }
}

/// The survivors of a deletion are unclipped copies of layers that were not
/// deleted, they hold exactly the identifiers that were not deleted, and
/// they keep identifiers unique.
pub proof fn lemma_surviving_shape<P>(layers: Seq<Layer<P>>, dead: Set<u128>)
    ensures
        surviving(layers, dead).len() <= layers.len(),
        forall|k: int|
            0 <= k < surviving(layers, dead).len() ==> !dead.contains((#[trigger] surviving(layers, dead)[k]).id)
                && exists|j: int|
                0 <= j < layers.len() && layers[j].id == surviving(layers, dead)[k].id && surviving(layers, dead)[k]
                    == unclipped(layers[j], dead),
        forall|x: u128|
            ids(surviving(layers, dead)).contains(x) <==> ids(layers).contains(x) && !dead.contains(x),
        ids(layers).no_duplicates() ==> ids(surviving(layers, dead)).no_duplicates(),
    decreases layers.len(),
{
    let s = surviving(layers, dead);
    if layers.len() > 0 {
        let rest = layers.drop_last();
        let l = layers.last();
        lemma_surviving_shape(rest, dead);
        let s0 = surviving(rest, dead);
        assert(ids(layers) =~= ids(rest).push(l.id));
        assert forall|x: u128| ids(layers).contains(x) <==> ids(rest).contains(x) || x == l.id by {
            if ids(layers).contains(x) {
                let i = choose|i: int| 0 <= i < ids(layers).len() && ids(layers)[i] == x;
                if i < rest.len() {
                    assert(ids(rest)[i] == x);
                }
            }
            if ids(rest).contains(x) {
                let i = choose|i: int| 0 <= i < ids(rest).len() && ids(rest)[i] == x;
                assert(ids(layers)[i] == x);
            }
            if x == l.id {
                assert(ids(layers)[layers.len() - 1] == x);
            }
        }
        assert forall|k: int| 0 <= k < s0.len() implies exists|j: int|
            0 <= j < layers.len() && layers[j].id == (#[trigger] s0[k]).id && s0[k] == unclipped(layers[j], dead) by {
            let j = choose|j: int| 0 <= j < rest.len() && rest[j].id == s0[k].id && s0[k] == unclipped(rest[j], dead);
            assert(layers[j] == rest[j]);
        }
        if !dead.contains(l.id) {
            let u = unclipped(l, dead);
            assert(s =~= s0.push(u));
            assert(ids(s) =~= ids(s0).push(l.id));
            assert forall|x: u128| ids(s).contains(x) <==> ids(s0).contains(x) || x == l.id by {
                if ids(s).contains(x) {
                    let i = choose|i: int| 0 <= i < ids(s).len() && ids(s)[i] == x;
                    if i < s0.len() {
                        assert(ids(s0)[i] == x);
                    }
                }
                if ids(s0).contains(x) {
                    let i = choose|i: int| 0 <= i < ids(s0).len() && ids(s0)[i] == x;
                    assert(ids(s)[i] == x);
                }
                if x == l.id {
                    assert(ids(s)[s.len() - 1] == x);
                }
            }
            assert forall|k: int| 0 <= k < s.len() implies !dead.contains((#[trigger] s[k]).id) && exists|j: int|
                0 <= j < layers.len() && layers[j].id == s[k].id && s[k] == unclipped(layers[j], dead) by {
                if k == s.len() - 1 {
                    assert(layers[layers.len() - 1] == l);
                } else {
                    assert(s[k] == s0[k]);
                }
            }
            if ids(layers).no_duplicates() {
                assert(ids(rest).no_duplicates()) by {
                    assert forall|i: int, j: int| 0 <= i < ids(rest).len() && 0 <= j < ids(rest).len() && i != j
                        implies ids(rest)[i] != ids(rest)[j] by {
                        assert(ids(layers)[i] == ids(rest)[i]);
                        assert(ids(layers)[j] == ids(rest)[j]);
                    }
                }
                assert(!ids(rest).contains(l.id)) by {
                    if ids(rest).contains(l.id) {
                        let i = choose|i: int| 0 <= i < ids(rest).len() && ids(rest)[i] == l.id;
                        assert(ids(layers)[i] == ids(layers)[layers.len() - 1]);
                    }
                }
                assert forall|i: int, j: int| 0 <= i < ids(s).len() && 0 <= j < ids(s).len() && i != j implies ids(
                    s,
                )[i] != ids(s)[j] by {
                    if i < s0.len() && j < s0.len() {
                        assert(ids(s)[i] == ids(s0)[i]);
                        assert(ids(s)[j] == ids(s0)[j]);
                    } else if i < s0.len() {
                        assert(ids(s)[i] == ids(s0)[i]);
                        assert(ids(s0).contains(ids(s0)[i]));
                    } else if j < s0.len() {
                        assert(ids(s)[j] == ids(s0)[j]);
                        assert(ids(s0).contains(ids(s0)[j]));
                    }
                }
            }
        } else {
            assert(s == s0);
            if ids(layers).no_duplicates() {
                assert(ids(rest).no_duplicates()) by {
                    assert forall|i: int, j: int| 0 <= i < ids(rest).len() && 0 <= j < ids(rest).len() && i != j
                        implies ids(rest)[i] != ids(rest)[j] by {
                        assert(ids(layers)[i] == ids(rest)[i]);
                        assert(ids(layers)[j] == ids(rest)[j]);
                    }
                }
            }
        }
    } else {
        assert(ids(s) =~= Seq::<u128>::empty());
        assert(ids(layers) =~= Seq::<u128>::empty());
    }
}

/// A layer that was not deleted is found among the survivors, unclipped.
pub proof fn lemma_found_after_deletion<P>(layers: Seq<Layer<P>>, dead: Set<u128>, x: u128)
    requires
        ids(layers).no_duplicates(),
        position(layers, x) >= 0,
        !dead.contains(x),
    ensures
        position(surviving(layers, dead), x) >= 0,
        surviving(layers, dead)[position(surviving(layers, dead), x)] == unclipped(
            layers[position(layers, x)],
            dead,
        ),
{
    let s = surviving(layers, dead);
    lemma_surviving_shape(layers, dead);
    lemma_position(layers, x);
    lemma_position(s, x);
    let p = position(layers, x);
    assert(ids(layers)[p] == x);
    assert(ids(s).contains(x));
    let i = choose|i: int| 0 <= i < ids(s).len() && ids(s)[i] == x;
    assert(s[i].id == x);
    let k = position(s, x);
    assert(k >= 0);
    assert(s[k].id == x);
    let j = choose|j: int| 0 <= j < layers.len() && layers[j].id == s[k].id && s[k] == unclipped(layers[j], dead);
    if j != p {
        assert(ids(layers)[j] == ids(layers)[p]);
    }
}

/// Following the parent links of a surviving layer meets only survivors,
/// so a walk that succeeded before the deletion still succeeds.
pub proof fn lemma_parent_walk_kept<P>(layers: Seq<Layer<P>>, dead: Set<u128>, visited: Seq<u128>, parent: Option<u128>)
    requires
        ids(layers).no_duplicates(),
        closed_under_children(layers, dead),
        parent_walk(layers, visited, parent) is Ok,
        parent matches Some(p) ==> !dead.contains(p),
    ensures
        parent_walk(surviving(layers, dead), visited, parent) is Ok,
    decreases MAX_GROUP_CHAIN - visited.len(),
{
    if parent is Some {
        let p = parent->0;
        let s = surviving(layers, dead);
        lemma_position(layers, p);
        let at = position(layers, p);
        lemma_found_after_deletion(layers, dead, p);
        let next = layers[at].parent;
        if next is Some && dead.contains(next->0) {
            assert(parent_in(layers[at], dead));
        }
        lemma_parent_walk_kept(layers, dead, visited.push(p), next);
    }
}

/// Following the clipping links of a surviving layer meets only survivors,
/// or stops early where a link was cut, so a walk that succeeded before the
/// deletion still succeeds.
pub proof fn lemma_clip_walk_kept<P>(
    layers: Seq<Layer<P>>,
    dead: Set<u128>,
    group: bool,
    visited: Seq<u128>,
    source: Option<u128>,
)
    requires
        ids(layers).no_duplicates(),
        clip_walk(layers, group, visited, source) is Ok,
        source matches Some(c) ==> !dead.contains(c),
    ensures
        clip_walk(surviving(layers, dead), group, visited, source) is Ok,
    decreases MAX_CLIP_CHAIN - visited.len(),
{
    if source is Some {
        let c = source->0;
        lemma_position(layers, c);
        let at = position(layers, c);
        lemma_found_after_deletion(layers, dead, c);
        let next = layers[at].clip_to;
        let s = surviving(layers, dead);
        if !(next is Some && dead.contains(next->0)) {
            lemma_clip_walk_kept(layers, dead, group, visited.push(c), next);
        } else {
            assert(s[position(s, c)].clip_to is None);
            assert(clip_walk(s, group, visited.push(c), None) is Ok);
        }
    }
}

/// The checks from `i` up pass exactly when every layer from `i` up passes.
pub proof fn lemma_layers_check_all<P>(layers: Seq<Layer<P>>, i: int)
    requires
        0 <= i,
    ensures
        layers_check_from(layers, i) is Ok <==> forall|k: int| i <= k < layers.len() ==> (#[trigger] layer_check(
            layers,
            k,
        )) is Ok,
    decreases layers.len() - i,
{
    if i < layers.len() {
        lemma_layers_check_all(layers, i + 1);
    }
}

/// Deleting the selected layers with their descendants, and cutting the
/// clipping links into them, leaves a document that passed its structural
/// check passing it still.
pub proof fn lemma_deletion_keeps_structure<P>(before: Document<P>, after: Document<P>)
    requires
        structure_check(before) is Ok,
        after.layers@ == surviving(before.layers@, target_set(before.layers@, before.selected@)),
        after.width == before.width,
        after.height == before.height,
        after.layers@.len() == 0 ==> after.active is None,
        after.layers@.len() > 0 ==> after.active == Some(after.layers@.last().id),
    ensures
        structure_check(after) is Ok,
{
    let layers = before.layers@;
    let dead = target_set(layers, before.selected@);
    let s = after.layers@;
    lemma_targets_closed(layers, before.selected@);
    lemma_surviving_shape(layers, dead);
    if after.layers@.len() > 0 {
        assert(ids(s)[s.len() - 1] == s.last().id);
    }
    lemma_layers_check_all(layers, 0);
    lemma_layers_check_all(s, 0);
    assert forall|k: int| 0 <= k < s.len() implies (#[trigger] layer_check(s, k)) is Ok by {
        let j = choose|j: int| 0 <= j < layers.len() && layers[j].id == s[k].id && s[k] == unclipped(layers[j], dead);
        assert(layer_check(layers, j) is Ok);
        let l = layers[j];
        if l.parent is Some && dead.contains(l.parent->0) {
            assert(parent_in(layers[j], dead));
        }
        lemma_parent_walk_kept(layers, dead, seq![l.id], l.parent);
        if !(l.clip_to is Some && dead.contains(l.clip_to->0)) {
            lemma_clip_walk_kept(layers, dead, l.group, seq![l.id], l.clip_to);
        }
    }
}

/// `l` after dissolving the group `g` into `parent`: moved up when `g` was its parent.
pub open spec fn lifted<P>(l: Layer<P>, g: u128, parent: Option<u128>) -> Layer<P> {
    if l.parent == Some(g) {
        with_parent(l, parent)
    } else {
        l
    }
}

/// Dissolving a group keeps every other layer, lifted, in order, keeps
/// identifiers unique and holds exactly the identifiers other than the group's.
pub proof fn lemma_dissolved_shape<P>(layers: Seq<Layer<P>>, g: u128, parent: Option<u128>)
    ensures
        dissolved(layers, g, parent).len() <= layers.len(),
        forall|k: int|
            0 <= k < dissolved(layers, g, parent).len() ==> exists|j: int|
                0 <= j < layers.len() && layers[j].id == (#[trigger] dissolved(layers, g, parent)[k]).id && layers[j].id
                    != g && dissolved(layers, g, parent)[k] == lifted(layers[j], g, parent),
        forall|x: u128| ids(dissolved(layers, g, parent)).contains(x) <==> ids(layers).contains(x) && x != g,
        ids(layers).no_duplicates() ==> ids(dissolved(layers, g, parent)).no_duplicates(),
    decreases layers.len(),
{
    let s = dissolved(layers, g, parent);
    if layers.len() > 0 {
        let rest = layers.drop_last();
        let l = layers.last();
        lemma_dissolved_shape(rest, g, parent);
        let s0 = dissolved(rest, g, parent);
        assert(ids(layers) =~= ids(rest).push(l.id));
        assert forall|x: u128| ids(layers).contains(x) <==> ids(rest).contains(x) || x == l.id by {
            if ids(layers).contains(x) {
                let i = choose|i: int| 0 <= i < ids(layers).len() && ids(layers)[i] == x;
                if i < rest.len() {
                    assert(ids(rest)[i] == x);
                }
            }
            if ids(rest).contains(x) {
                let i = choose|i: int| 0 <= i < ids(rest).len() && ids(rest)[i] == x;
                assert(ids(layers)[i] == x);
            }
            if x == l.id {
                assert(ids(layers)[layers.len() - 1] == x);
            }
        }
        assert forall|k: int| 0 <= k < s0.len() implies exists|j: int|
            0 <= j < layers.len() && layers[j].id == (#[trigger] s0[k]).id && layers[j].id != g && s0[k] == lifted(
                layers[j],
                g,
                parent,
            ) by {
            let j = choose|j: int|
                0 <= j < rest.len() && rest[j].id == s0[k].id && rest[j].id != g && s0[k] == lifted(rest[j], g, parent);
            assert(layers[j] == rest[j]);
        }
        if ids(layers).no_duplicates() {
            assert(ids(rest).no_duplicates()) by {
                assert forall|i: int, j: int| 0 <= i < ids(rest).len() && 0 <= j < ids(rest).len() && i != j implies ids(
                    rest,
                )[i] != ids(rest)[j] by {
                    assert(ids(layers)[i] == ids(rest)[i]);
                    assert(ids(layers)[j] == ids(rest)[j]);
                }
            }
        }
        if l.id != g {
            let u = lifted(l, g, parent);
            assert(s =~= s0.push(u));
            assert(ids(s) =~= ids(s0).push(l.id));
            assert forall|x: u128| ids(s).contains(x) <==> ids(s0).contains(x) || x == l.id by {
                if ids(s).contains(x) {
                    let i = choose|i: int| 0 <= i < ids(s).len() && ids(s)[i] == x;
                    if i < s0.len() {
                        assert(ids(s0)[i] == x);
                    }
                }
                if ids(s0).contains(x) {
                    let i = choose|i: int| 0 <= i < ids(s0).len() && ids(s0)[i] == x;
                    assert(ids(s)[i] == x);
                }
                if x == l.id {
                    assert(ids(s)[s.len() - 1] == x);
                }
            }
            assert forall|k: int| 0 <= k < s.len() implies exists|j: int|
                0 <= j < layers.len() && layers[j].id == (#[trigger] s[k]).id && layers[j].id != g && s[k] == lifted(
                    layers[j],
                    g,
                    parent,
                ) by {
                if k == s.len() - 1 {
                    assert(layers[layers.len() - 1] == l);
                } else {
                    assert(s[k] == s0[k]);
                }
            }
            if ids(layers).no_duplicates() {
                assert(!ids(rest).contains(l.id)) by {
                    if ids(rest).contains(l.id) {
                        let i = choose|i: int| 0 <= i < ids(rest).len() && ids(rest)[i] == l.id;
                        assert(ids(layers)[i] == ids(layers)[layers.len() - 1]);
                    }
                }
                assert forall|i: int, j: int| 0 <= i < ids(s).len() && 0 <= j < ids(s).len() && i != j implies ids(
                    s,
                )[i] != ids(s)[j] by {
                    if i < s0.len() && j < s0.len() {
                        assert(ids(s)[i] == ids(s0)[i]);
                        assert(ids(s)[j] == ids(s0)[j]);
                    } else if i < s0.len() {
                        assert(ids(s)[i] == ids(s0)[i]);
                        assert(ids(s0).contains(ids(s0)[i]));
                    } else if j < s0.len() {
                        assert(ids(s)[j] == ids(s0)[j]);
                        assert(ids(s0).contains(ids(s0)[j]));
                    }
                }
            }
        } else {
            assert(s == s0);
        }
    } else {
        assert(ids(s) =~= Seq::<u128>::empty());
        assert(ids(layers) =~= Seq::<u128>::empty());
    }
}

/// A layer other than the dissolved group is found after dissolving, lifted.
pub proof fn lemma_found_after_dissolving<P>(layers: Seq<Layer<P>>, g: u128, parent: Option<u128>, x: u128)
    requires
        ids(layers).no_duplicates(),
        position(layers, x) >= 0,
        x != g,
    ensures
        position(dissolved(layers, g, parent), x) >= 0,
        dissolved(layers, g, parent)[position(dissolved(layers, g, parent), x)] == lifted(
            layers[position(layers, x)],
            g,
            parent,
        ),
{
    let s = dissolved(layers, g, parent);
    lemma_dissolved_shape(layers, g, parent);
    lemma_position(layers, x);
    lemma_position(s, x);
    let p = position(layers, x);
    assert(ids(layers)[p] == x);
    assert(ids(layers).contains(x));
    assert(ids(s).contains(x));
    let i = choose|i: int| 0 <= i < ids(s).len() && ids(s)[i] == x;
    assert(s[i].id == x);
    let k = position(s, x);
    assert(s[k].id == x);
    let j = choose|j: int|
        0 <= j < layers.len() && layers[j].id == s[k].id && layers[j].id != g && s[k] == lifted(layers[j], g, parent);
    if j != p {
        assert(ids(layers)[j] == ids(layers)[p]);
    }
}

/// Walking up the parents after dissolving the group passes fewer groups
/// than before, so a walk that succeeded before still succeeds.
pub proof fn lemma_parent_walk_dissolved<P>(
    layers: Seq<Layer<P>>,
    g: u128,
    parent: Option<u128>,
    before: Seq<u128>,
    after: Seq<u128>,
    up: Option<u128>,
)
    requires
        ids(layers).no_duplicates(),
        parent != Some(g),
        position(layers, g) >= 0 ==> layers[position(layers, g)].parent == parent,
        parent_walk(layers, before, up) is Ok,
        up != Some(g),
        after.len() <= before.len(),
        forall|x: u128| after.contains(x) ==> before.contains(x),
    ensures
        parent_walk(dissolved(layers, g, parent), after, up) is Ok,
    decreases MAX_GROUP_CHAIN - before.len(),
{
    if up is Some {
        let p = up->0;
        lemma_position(layers, p);
        let at = position(layers, p);
        lemma_found_after_dissolving(layers, g, parent, p);
        let next = layers[at].parent;
        if next == Some(g) {
            let two = before.push(p);
            lemma_position(layers, g);
            let gat = position(layers, g);
            assert(parent_walk(layers, two, Some(g)) is Ok);
            assert(layers[gat].parent == parent);
            assert forall|x: u128| after.push(p).contains(x) implies two.push(g).contains(x) by {
                let i0 = choose|i0: int| 0 <= i0 < after.push(p).len() && after.push(p)[i0] == x;
                if i0 < after.len() {
                    assert(after[i0] == x);
                    assert(after.contains(x));
                    let i = choose|i: int| 0 <= i < before.len() && before[i] == x;
                    assert(two.push(g)[i] == x);
                } else {
                    assert(two.push(g)[before.len() as int] == x);
                }
            }
            lemma_parent_walk_dissolved(layers, g, parent, two.push(g), after.push(p), parent);
        } else {
            assert forall|x: u128| after.push(p).contains(x) implies before.push(p).contains(x) by {
                let i0 = choose|i0: int| 0 <= i0 < after.push(p).len() && after.push(p)[i0] == x;
                if i0 < after.len() {
                    assert(after[i0] == x);
                    assert(after.contains(x));
                    let i = choose|i: int| 0 <= i < before.len() && before[i] == x;
                    assert(before.push(p)[i] == x);
                } else {
                    assert(before.push(p)[before.len() as int] == x);
                }
            }
            lemma_parent_walk_dissolved(layers, g, parent, before.push(p), after.push(p), next);
        }
    }
}

/// Clipping chains never reach a group in a sound document, so they are the
/// same after dissolving one.
pub proof fn lemma_clip_walk_dissolved<P>(
    layers: Seq<Layer<P>>,
    g: u128,
    parent: Option<u128>,
    group: bool,
    visited: Seq<u128>,
    source: Option<u128>,
)
    requires
        ids(layers).no_duplicates(),
        position(layers, g) >= 0,
        layers[position(layers, g)].group,
        clip_walk(layers, group, visited, source) is Ok,
    ensures
        clip_walk(dissolved(layers, g, parent), group, visited, source) is Ok,
    decreases MAX_CLIP_CHAIN - visited.len(),
{
    if source is Some {
        let c = source->0;
        lemma_position(layers, c);
        let at = position(layers, c);
        lemma_found_after_dissolving(layers, g, parent, c);
        lemma_clip_walk_dissolved(layers, g, parent, group, visited.push(c), layers[at].clip_to);
    }
}

/// Dissolving a group of a sound document, lifting its children into its
/// parent, leaves the document sound.
pub proof fn lemma_dissolving_keeps_structure<P>(before: Document<P>, after: Document<P>, g: u128)
    requires
        structure_check(before) is Ok,
        position(before.layers@, g) >= 0,
        before.layers@[position(before.layers@, g)].group,
        after.layers@ == dissolved(before.layers@, g, before.layers@[position(before.layers@, g)].parent),
        after.width == before.width,
        after.height == before.height,
        after.layers@.len() == 0 ==> after.active is None,
        after.layers@.len() > 0 ==> after.active == Some(after.layers@.last().id),
    ensures
        structure_check(after) is Ok,
{
    let layers = before.layers@;
    let at = position(layers, g);
    let parent = layers[at].parent;
    let s = after.layers@;
    lemma_position(layers, g);
    lemma_dissolved_shape(layers, g, parent);
    if after.layers@.len() > 0 {
        assert(ids(s)[s.len() - 1] == s.last().id);
    }
    lemma_layers_check_all(layers, 0);
    lemma_layers_check_all(s, 0);
    assert(layer_check(layers, at) is Ok);
    assert(layers[at].id == g);
    assert(parent_walk(layers, seq![g], parent) is Ok);
    assert(seq![g][0] == g);
    assert(parent != Some(g));
    assert forall|k: int| 0 <= k < s.len() implies (#[trigger] layer_check(s, k)) is Ok by {
        let j = choose|j: int|
            0 <= j < layers.len() && layers[j].id == s[k].id && layers[j].id != g && s[k] == lifted(layers[j], g, parent);
        assert(layer_check(layers, j) is Ok);
        let l = layers[j];
        if l.parent == Some(g) {
            assert(parent_walk(layers, seq![l.id], Some(g)) is Ok);
            assert(layers[position(layers, g)].parent == parent);
            assert(parent_walk(layers, seq![l.id].push(g), parent) is Ok);
            assert forall|x: u128| seq![l.id].contains(x) implies seq![l.id].push(g).contains(x) by {
                assert(seq![l.id].push(g)[0] == l.id);
            }
            lemma_parent_walk_dissolved(layers, g, parent, seq![l.id].push(g), seq![l.id], parent);
        } else {
            lemma_parent_walk_dissolved(layers, g, parent, seq![l.id], seq![l.id], l.parent);
        }
        lemma_clip_walk_dissolved(layers, g, parent, l.group, seq![l.id], l.clip_to);
    }
}

} // verus!
