//! Why finishing a merge keeps a sound document sound: the merged layers
//! are closed under children, so the remaining layers keep their ancestors,
//! clipping links into the merged layers end at the merged layer, and the
//! merged layer sits under a parent whose chain has room for it.
use vstd::prelude::*;

use crate::document::{
    byte_len, clip_walk, closed_under_children, ids, layer_check, lemma_position, parent_in, parent_walk, position,
    structure_check, Document, Layer, MAX_CLIP_CHAIN, MAX_GROUP_CHAIN, MAX_LAYERS, MAX_NAME_BYTES,
};
use crate::document::{in_family, lemma_child_in_family, position_opt, target_set};
use crate::integrity::{lemma_layers_check_all, lemma_targets_closed};
use crate::operations::{merge_seed, merge_targets, outer_parents, outside, sibling_below, with_lower_siblings, with_masked};
use crate::text::has_visible_char;

verus! {

/// `l` with a clipping link into `t` redirected to `g`.
pub open spec fn redirected<P>(l: Layer<P>, t: Set<u128>, g: u128) -> Layer<P> {
    if l.clip_to matches Some(c) && t.contains(c) {
        Layer { clip_to: Some(g), ..l }
    } else {
        l
    }
}

/// The layers kept by a merge are the layers outside the merged set,
/// redirected, in order, with exactly the identifiers outside the set,
/// each once.
pub proof fn lemma_outside_shape<P>(layers: Seq<Layer<P>>, t: Set<u128>, g: u128)
    ensures
        outside(layers, t, g).len() <= layers.len(),
        forall|k: int|
            #![trigger outside(layers, t, g)[k]]
            0 <= k < outside(layers, t, g).len() ==> exists|j: int|
                #![trigger layers[j]]
                0 <= j < layers.len() && layers[j].id == outside(layers, t, g)[k].id && !t.contains(layers[j].id)
                    && outside(layers, t, g)[k] == redirected(layers[j], t, g),
        forall|x: u128| ids(outside(layers, t, g)).contains(x) <==> ids(layers).contains(x) && !t.contains(x),
        ids(layers).no_duplicates() ==> ids(outside(layers, t, g)).no_duplicates(),
    decreases layers.len(),
{
    let s = outside(layers, t, g);
    if layers.len() > 0 {
        let rest = layers.drop_last();
        let l = layers.last();
        lemma_outside_shape(rest, t, g);
        let s0 = outside(rest, t, g);
        assert(ids(layers) =~= ids(rest).push(l.id));
        assert forall|x: u128| ids(layers).contains(x) <==> ids(rest).contains(x) || x == l.id by {
            if ids(layers).contains(x) {
                let i = choose|i: int| 0 <= i < ids(layers).len() && ids(layers)[i] == x;
                if i < rest.len() {
                    assert(ids(rest)[i] == x);
                }
            }
            if ids(rest).contains(x) {
                let i = choose|i: int| 0 <= i < ids(rest).len() && ids(rest)[i] == x;
                assert(ids(layers)[i] == x);
            }
            if x == l.id {
                assert(ids(layers)[layers.len() - 1] == x);
            }
        }
        if ids(layers).no_duplicates() {
            assert(ids(rest).no_duplicates()) by {
                assert forall|i: int, j: int| 0 <= i < ids(rest).len() && 0 <= j < ids(rest).len() && i != j implies ids(
                    rest,
                )[i] != ids(rest)[j] by {
                    assert(ids(layers)[i] == ids(rest)[i]);
                    assert(ids(layers)[j] == ids(rest)[j]);
                }
            }
        }
        if !t.contains(l.id) {
            let u = redirected(l, t, g);
            assert(s =~= s0.push(u));
            assert(ids(s) =~= ids(s0).push(l.id));
            assert forall|x: u128| ids(s).contains(x) <==> ids(s0).contains(x) || x == l.id by {
                if ids(s).contains(x) {
                    let i = choose|i: int| 0 <= i < ids(s).len() && ids(s)[i] == x;
                    if i < s0.len() {
                        assert(ids(s0)[i] == x);
                    }
                }
                if ids(s0).contains(x) {
                    let i = choose|i: int| 0 <= i < ids(s0).len() && ids(s0)[i] == x;
                    assert(ids(s)[i] == x);
                }
                if x == l.id {
                    assert(ids(s)[s.len() - 1] == x);
                }
            }
            assert forall|k: int| #![trigger s[k]] 0 <= k < s.len() implies exists|j: int|
                #![trigger layers[j]]
                0 <= j < layers.len() && layers[j].id == s[k].id && !t.contains(layers[j].id) && s[k] == redirected(
                    layers[j],
                    t,
                    g,
                ) by {
                if k == s.len() - 1 {
                    assert(layers[layers.len() - 1] == l);
                } else {
                    assert(s[k] == s0[k]);
                    let j = choose|j: int|
                        #![trigger rest[j]]
                        0 <= j < rest.len() && rest[j].id == s0[k].id && !t.contains(rest[j].id) && s0[k] == redirected(
                            rest[j],
                            t,
                            g,
                        );
                    assert(layers[j] == rest[j]);
                }
            }
            if ids(layers).no_duplicates() {
                assert(!ids(rest).contains(l.id)) by {
                    if ids(rest).contains(l.id) {
                        let i = choose|i: int| 0 <= i < ids(rest).len() && ids(rest)[i] == l.id;
                        assert(ids(layers)[i] == ids(layers)[layers.len() - 1]);
                    }
                }
                assert forall|i: int, j: int| 0 <= i < ids(s).len() && 0 <= j < ids(s).len() && i != j implies ids(
                    s,
                )[i] != ids(s)[j] by {
                    if i < s0.len() && j < s0.len() {
                        assert(ids(s)[i] == ids(s0)[i]);
                        assert(ids(s)[j] == ids(s0)[j]);
                    } else if i < s0.len() {
                        assert(ids(s)[i] == ids(s0)[i]);
                        assert(ids(s0).contains(ids(s0)[i]));
                    } else if j < s0.len() {
                        assert(ids(s)[j] == ids(s0)[j]);
                        assert(ids(s0).contains(ids(s0)[j]));
                    }
                }
            }
        } else {
            assert(s == s0);
            assert forall|k: int| #![trigger s[k]] 0 <= k < s.len() implies exists|j: int|
                #![trigger layers[j]]
                0 <= j < layers.len() && layers[j].id == s[k].id && !t.contains(layers[j].id) && s[k] == redirected(
                    layers[j],
                    t,
                    g,
                ) by {
                let j = choose|j: int|
                    #![trigger rest[j]]
                    0 <= j < rest.len() && rest[j].id == s0[k].id && !t.contains(rest[j].id) && s0[k] == redirected(
                        rest[j],
                        t,
                        g,
                    );
                assert(layers[j] == rest[j]);
            }
        }
    } else {
        assert(ids(s) =~= Seq::<u128>::empty());
        assert(ids(layers) =~= Seq::<u128>::empty());
    }
}

/// The merged document's layers hold unique identifiers, each remaining
/// layer is found redirected, and the merged layer is found.
pub proof fn lemma_merged_lookup<P>(
    layers: Seq<Layer<P>>,
    t: Set<u128>,
    merged: Layer<P>,
    slot: int,
    result: Seq<Layer<P>>,
)
    requires
        ids(layers).no_duplicates(),
        !ids(layers).contains(merged.id),
        0 <= slot <= outside(layers, t, merged.id).len(),
        result == outside(layers, t, merged.id).insert(slot, merged),
    ensures
        ids(result).no_duplicates(),
        position(result, merged.id) >= 0,
        result[position(result, merged.id)] == merged,
        forall|x: u128|
            #![trigger position(result, x)]
            position(layers, x) >= 0 && !t.contains(x) ==> position(result, x) >= 0 && result[position(result, x)]
                == redirected(layers[position(layers, x)], t, merged.id),
        result.len() == outside(layers, t, merged.id).len() + 1,
{
    let g = merged.id;
    let kept = outside(layers, t, g);
    lemma_outside_shape(layers, t, g);
    assert(!ids(kept).contains(g));
    assert forall|j: int| 0 <= j < result.len() implies #[trigger] result[j] == if j < slot {
        kept[j]
    } else if j == slot {
        merged
    } else {
        kept[j - 1]
    } by {}
    assert forall|a: int, b: int| 0 <= a < ids(result).len() && 0 <= b < ids(result).len() && a != b implies ids(
        result,
    )[a] != ids(result)[b] by {
        assert(ids(result)[a] == result[a].id);
        assert(ids(result)[b] == result[b].id);
        let ka = if a < slot { a } else { a - 1 };
        let kb = if b < slot { b } else { b - 1 };
        if a != slot && b != slot {
            assert(ids(kept)[ka] == kept[ka].id);
            assert(ids(kept)[kb] == kept[kb].id);
        } else if a == slot {
            assert(ids(kept)[kb] == kept[kb].id);
        } else {
            assert(ids(kept)[ka] == kept[ka].id);
        }
    }
    lemma_unique_index(result, g, slot);
    assert forall|x: u128| #![trigger position(result, x)] position(layers, x) >= 0 && !t.contains(x) implies position(
        result,
        x,
    ) >= 0 && result[position(result, x)] == redirected(layers[position(layers, x)], t, g) by {
        lemma_position(layers, x);
        let i = position(layers, x);
        assert(ids(layers)[i] == x);
        assert(ids(kept).contains(x));
        let k = choose|k: int| 0 <= k < ids(kept).len() && ids(kept)[k] == x;
        assert(kept[k].id == x);
        let j = choose|j: int|
            #![trigger layers[j]]
            0 <= j < layers.len() && layers[j].id == kept[k].id && !t.contains(layers[j].id) && kept[k] == redirected(
                layers[j],
                t,
                g,
            );
        if j != i {
            assert(ids(layers)[j] == ids(layers)[i]);
        }
        let at = if k < slot { k } else { k + 1 };
        assert(result[at] == kept[k]);
        lemma_unique_index(result, x, at);
    }
}

/// In layers with unique identifiers, an index holding `x` is where `x` is found.
pub proof fn lemma_unique_index<P>(layers: Seq<Layer<P>>, x: u128, j: int)
    requires
        ids(layers).no_duplicates(),
        0 <= j < layers.len(),
        layers[j].id == x,
    ensures
        position(layers, x) == j,
{
    lemma_position(layers, x);
    let p = position(layers, x);
    if p != j {
        assert(ids(layers)[p] == ids(layers)[j]);
    }
}

/// Walking up the parents of a remaining layer meets only remaining layers,
/// so a walk that succeeded before the merge still succeeds.
pub proof fn lemma_parent_walk_merged<P>(
    layers: Seq<Layer<P>>,
    t: Set<u128>,
    merged: Layer<P>,
    slot: int,
    result: Seq<Layer<P>>,
    visited: Seq<u128>,
    up: Option<u128>,
)
    requires
        ids(layers).no_duplicates(),
        !ids(layers).contains(merged.id),
        0 <= slot <= outside(layers, t, merged.id).len(),
        result == outside(layers, t, merged.id).insert(slot, merged),
        closed_under_children(layers, t),
        parent_walk(layers, visited, up) is Ok,
        up matches Some(p) ==> !t.contains(p),
    ensures
        parent_walk(result, visited, up) is Ok,
    decreases MAX_GROUP_CHAIN - visited.len(),
{
    if up is Some {
        let p = up->0;
        lemma_position(layers, p);
        let at = position(layers, p);
        lemma_merged_lookup(layers, t, merged, slot, result);
        assert(position(result, p) >= 0);
        let next = layers[at].parent;
        if next is Some && t.contains(next->0) {
            assert(parent_in(layers[at], t));
        }
        lemma_parent_walk_merged(layers, t, merged, slot, result, visited.push(p), next);
    }
}

/// Following the clipping links of a remaining layer meets remaining layers
/// until a link into the merged set, which now ends at the merged layer.
pub proof fn lemma_clip_walk_merged<P>(
    layers: Seq<Layer<P>>,
    t: Set<u128>,
    merged: Layer<P>,
    slot: int,
    result: Seq<Layer<P>>,
    group: bool,
    visited: Seq<u128>,
    source: Option<u128>,
)
    requires
        ids(layers).no_duplicates(),
        !ids(layers).contains(merged.id),
        !merged.group,
        merged.clip_to is None,
        0 <= slot <= outside(layers, t, merged.id).len(),
        result == outside(layers, t, merged.id).insert(slot, merged),
        clip_walk(layers, group, visited, source) is Ok,
        forall|i: int| 0 <= i < visited.len() ==> ids(layers).contains(#[trigger] visited[i]),
    ensures
        clip_walk(result, group, visited, if source matches Some(c) && t.contains(c) { Some(merged.id) } else { source }) is Ok,
    decreases MAX_CLIP_CHAIN - visited.len(),
{
    let g = merged.id;
    if source is Some {
        let c = source->0;
        lemma_position(layers, c);
        let at = position(layers, c);
        lemma_merged_lookup(layers, t, merged, slot, result);
        if t.contains(c) {
            if visited.contains(g) {
                let i = choose|i: int| 0 <= i < visited.len() && visited[i] == g;
                assert(ids(layers).contains(visited[i]));
            }
            assert(clip_walk(result, group, visited.push(g), None) is Ok);
        } else {
            assert(ids(layers)[at] == c);
            let more = visited.push(c);
            assert forall|i: int| 0 <= i < more.len() implies ids(layers).contains(#[trigger] more[i]) by {
                if i < visited.len() {
                    assert(more[i] == visited[i]);
                }
            }
            lemma_clip_walk_merged(layers, t, merged, slot, result, group, more, layers[at].clip_to);
        }
    }
}

/// Finishing a merge of a sound document keeps it sound, provided the merged
/// set is closed under children, the merged layer's identifier is new, its
/// name is valid, its parent lies outside the merged set with room in its
/// chain for one more layer, and the layer count stays within `MAX_LAYERS`.
pub proof fn lemma_merge_keeps_structure<P>(
    before: Document<P>,
    after: Document<P>,
    t: Set<u128>,
    merged: Layer<P>,
    slot: int,
)
    requires
        structure_check(before) is Ok,
        closed_under_children(before.layers@, t),
        !ids(before.layers@).contains(merged.id),
        0 <= slot <= outside(before.layers@, t, merged.id).len(),
        after.layers@ == outside(before.layers@, t, merged.id).insert(slot, merged),
        !merged.group,
        merged.clip_to is None,
        has_visible_char(merged.name@),
        byte_len(merged.name@) <= MAX_NAME_BYTES,
        parent_walk(before.layers@, seq![merged.id], merged.parent) is Ok,
        merged.parent matches Some(p) ==> !t.contains(p),
        after.layers@.len() <= MAX_LAYERS,
        after.active == Some(merged.id),
        after.width == before.width,
        after.height == before.height,
    ensures
        structure_check(after) is Ok,
{
    let layers = before.layers@;
    let result = after.layers@;
    let g = merged.id;
    let kept = outside(layers, t, g);
    lemma_outside_shape(layers, t, g);
    lemma_merged_lookup(layers, t, merged, slot, result);
    lemma_position(result, g);
    assert(ids(result)[position(result, g)] == g);
    lemma_layers_check_all(layers, 0);
    lemma_layers_check_all(result, 0);
    assert forall|j: int| 0 <= j < result.len() implies (#[trigger] layer_check(result, j)) is Ok by {
        if j == slot {
            assert(result[j] == merged);
            lemma_parent_walk_merged(layers, t, merged, slot, result, seq![g], merged.parent);
        } else {
            let k = if j < slot { j } else { j - 1 };
            assert(result[j] == kept[k]);
            let i = choose|i: int|
                #![trigger layers[i]]
                0 <= i < layers.len() && layers[i].id == kept[k].id && !t.contains(layers[i].id) && kept[k] == redirected(
                    layers[i],
                    t,
                    g,
                );
            let l = layers[i];
            assert(layer_check(layers, i) is Ok);
            if l.parent is Some && t.contains(l.parent->0) {
                assert(parent_in(layers[i], t));
            }
            lemma_parent_walk_merged(layers, t, merged, slot, result, seq![l.id], l.parent);
            assert(ids(layers)[i] == l.id);
            assert forall|v: int| 0 <= v < seq![l.id].len() implies ids(layers).contains(#[trigger] seq![l.id][v]) by {}
            lemma_clip_walk_merged(layers, t, merged, slot, result, l.group, seq![l.id], l.clip_to);
        }
    }
}

/// The family of a layer is closed under children.
pub proof fn lemma_family_closed<P>(layers: Seq<Layer<P>>, root: u128)
    ensures
        closed_under_children(layers, Set::new(|x: u128| in_family(layers, root, x))),
{
    let f = Set::new(|x: u128| in_family(layers, root, x));
    assert forall|i: int| 0 <= i < layers.len() && parent_in(#[trigger] layers[i], f) implies f.contains(layers[i].id) by {
        lemma_child_in_family(layers, root, i);
    }
}

/// Adding the families of lower siblings keeps a set closed under children.
pub proof fn lemma_siblings_closed<P>(layers: Seq<Layer<P>>, t: Set<u128>, parent: Option<u128>, below: int)
    requires
        closed_under_children(layers, t),
    ensures
        closed_under_children(layers, with_lower_siblings(layers, t, parent, below)),
{
    let s = with_lower_siblings(layers, t, parent, below);
    assert forall|i: int| 0 <= i < layers.len() && parent_in(#[trigger] layers[i], s) implies s.contains(layers[i].id) by {
        let p = layers[i].parent->0;
        if t.contains(p) {
            assert(parent_in(layers[i], t));
        } else {
            let j = choose|j: int|
                0 <= j < below && #[trigger] layers[j].parent == parent && in_family(layers, layers[j].id, p);
            lemma_child_in_family(layers, layers[j].id, i);
        }
    }
}

/// Growing the targets around standalone masks keeps them closed under children.
pub proof fn lemma_masked_closed<P>(layers: Seq<Layer<P>>, t: Set<u128>, i: int)
    requires
        closed_under_children(layers, t),
    ensures
        closed_under_children(layers, with_masked(layers, t, i)),
    decreases i,
{
    if 0 < i <= layers.len() {
        let mask = layers[i - 1];
        if mask.standalone_mask && t.contains(mask.id) {
            lemma_siblings_closed(layers, t, mask.parent, i - 1);
            lemma_masked_closed(layers, with_lower_siblings(layers, t, mask.parent, i - 1), i - 1);
        } else {
            lemma_masked_closed(layers, t, i - 1);
        }
    }
}

/// A walk that succeeded from one starting identifier succeeds from another
/// that no layer has.
pub proof fn lemma_parent_walk_restart<P>(layers: Seq<Layer<P>>, from: Seq<u128>, to: Seq<u128>, up: Option<u128>)
    requires
        parent_walk(layers, from, up) is Ok,
        to.len() == from.len(),
        forall|x: u128| to.contains(x) && ids(layers).contains(x) ==> from.contains(x),
    ensures
        parent_walk(layers, to, up) is Ok,
    decreases MAX_GROUP_CHAIN - from.len(),
{
    if up is Some {
        let p = up->0;
        lemma_position(layers, p);
        let at = position(layers, p);
        assert(ids(layers)[at] == p);
        assert forall|x: u128| to.push(p).contains(x) && ids(layers).contains(x) implies from.push(p).contains(x) by {
            let k = choose|k: int| 0 <= k < to.push(p).len() && to.push(p)[k] == x;
            if k < to.len() {
                assert(to[k] == x);
                assert(to.contains(x));
                let k2 = choose|k2: int| 0 <= k2 < from.len() && from[k2] == x;
                assert(from.push(p)[k2] == x);
            } else {
                assert(from.push(p)[from.len() as int] == x);
            }
        }
        lemma_parent_walk_restart(layers, from.push(p), to.push(p), layers[at].parent);
    }
}

/// The plan that `merge_plan` makes for a sound document meets what
/// finishing the merge needs: its targets are closed under children, and
/// its parent lies outside them with room in its chain for a new layer.
pub proof fn lemma_merge_plan_ready<P>(doc: Document<P>, down: bool, g: u128)
    requires
        structure_check(doc) is Ok,
        !ids(doc.layers@).contains(g),
    ensures
        ({
            let layers = doc.layers@;
            let t = merge_targets(doc, down);
            let outer = outer_parents(layers, t);
            let parent = if outer.len() == 1 { outer.choose() } else { None };
            &&& closed_under_children(layers, t)
            &&& parent_walk(layers, seq![g], parent) is Ok
            &&& (parent is None || !t.contains(parent->0))
        }),
{
    broadcast use vstd::seq_lib::seq_to_set_is_finite;
    broadcast use vstd::set_lib::lemma_set_subset_finite;
    broadcast use vstd::set::axiom_set_choose_len;

    let layers = doc.layers@;
    let seed = merge_seed(doc, down);
    let t = merge_targets(doc, down);
    lemma_targets_closed(layers, doc.selected@);
    let base = target_set(layers, doc.selected@);
    assert(closed_under_children(layers, seed)) by {
        if seed != base {
            let at = position_opt(layers, doc.active);
            let index = if at >= 0 { at } else { 0 };
            let j = sibling_below(layers, layers[index].parent, index);
            lemma_family_closed(layers, layers[j].id);
            let f = Set::new(|x: u128| in_family(layers, layers[j].id, x));
            assert forall|i: int| 0 <= i < layers.len() && parent_in(#[trigger] layers[i], seed) implies seed.contains(
                layers[i].id,
            ) by {
                if base.contains(layers[i].parent->0) {
                    assert(parent_in(layers[i], base));
                } else {
                    assert(parent_in(layers[i], f));
                }
            }
        }
    }
    lemma_masked_closed(layers, seed, layers.len() as int);
    let outer = outer_parents(layers, t);
    let parents = layers.map_values(|l: Layer<P>| l.parent).to_set();
    assert(outer.subset_of(parents)) by {
        assert forall|p: Option<u128>| outer.contains(p) implies parents.contains(p) by {
            let i = choose|i: int|
                0 <= i < layers.len() && t.contains(#[trigger] layers[i].id) && !(layers[i].parent matches Some(q)
                    && t.contains(q)) && layers[i].parent == p;
            assert(layers.map_values(|l: Layer<P>| l.parent)[i] == p);
        }
    }
    if outer.len() == 1 {
        let p = outer.choose();
        assert(outer.contains(p));
        let i = choose|i: int|
            0 <= i < layers.len() && t.contains(#[trigger] layers[i].id) && !(layers[i].parent matches Some(q)
                && t.contains(q)) && layers[i].parent == p;
        lemma_layers_check_all(layers, 0);
        assert(layer_check(layers, i) is Ok);
        assert forall|x: u128| seq![g].contains(x) && ids(layers).contains(x) implies seq![layers[i].id].contains(x) by {
            assert(seq![g][0] == g);
        }
        lemma_parent_walk_restart(layers, seq![layers[i].id], seq![g], p);
    }
}

} // verus!
