//! Why wrapping layers in a new group keeps a sound document sound: the
//! moved layers gain one level of nesting, which the document must have
//! room for, and nothing else about the hierarchy changes.
use vstd::prelude::*;

use crate::document::{
    clip_walk, ids, in_family, layer_check, lemma_child_in_family, lemma_position, parent_walk, position,
    structure_check, within_family, Document, Layer, MAX_CLIP_CHAIN, MAX_GROUP_CHAIN, MAX_LAYERS,
};
use crate::integrity::lemma_layers_check_all;
use crate::merging::lemma_unique_index;
use crate::operations::{regrouped, with_parent};

verus! {

/// `l` is one of the layers that a new group under `parent` takes in.
pub open spec fn joins_group<P>(l: Layer<P>, selected: Set<u128>, parent: Option<u128>) -> bool {
    selected.contains(l.id) && l.parent == parent
}

/// `l` after grouping: moved into `g` when it joins the group.
pub open spec fn regroup<P>(l: Layer<P>, selected: Set<u128>, parent: Option<u128>, g: u128) -> Layer<P> {
    if joins_group(l, selected, parent) {
        with_parent(l, Some(g))
    } else {
        l
    }
}

/// After grouping, identifiers stay unique, every layer is found regrouped,
/// and the group is found.
pub proof fn lemma_grouped_lookup<P>(
    layers: Seq<Layer<P>>,
    selected: Set<u128>,
    parent: Option<u128>,
    group: Layer<P>,
    slot: int,
    result: Seq<Layer<P>>,
)
    requires
        ids(layers).no_duplicates(),
        !ids(layers).contains(group.id),
        0 <= slot <= layers.len(),
        result == regrouped(layers, selected, parent, group.id).insert(slot, group),
    ensures
        ids(result).no_duplicates(),
        position(result, group.id) >= 0,
        result[position(result, group.id)] == group,
        forall|x: u128|
            #![trigger position(result, x)]
            position(layers, x) >= 0 ==> position(result, x) >= 0 && result[position(result, x)] == regroup(
                layers[position(layers, x)],
                selected,
                parent,
                group.id,
            ),
        result.len() == layers.len() + 1,
{
    let g = group.id;
    let moved = regrouped(layers, selected, parent, g);
    assert forall|k: int| 0 <= k < moved.len() implies #[trigger] moved[k] == regroup(layers[k], selected, parent, g)
        && moved[k].id == layers[k].id by {}
    assert forall|j: int| 0 <= j < result.len() implies #[trigger] result[j] == if j < slot {
        moved[j]
    } else if j == slot {
        group
    } else {
        moved[j - 1]
    } by {}
    assert forall|a: int, b: int| 0 <= a < ids(result).len() && 0 <= b < ids(result).len() && a != b implies ids(
        result,
    )[a] != ids(result)[b] by {
        assert(ids(result)[a] == result[a].id);
        assert(ids(result)[b] == result[b].id);
        let ka = if a < slot { a } else { a - 1 };
        let kb = if b < slot { b } else { b - 1 };
        if a != slot && b != slot {
            assert(ids(layers)[ka] == layers[ka].id);
            assert(ids(layers)[kb] == layers[kb].id);
        } else if a == slot {
            assert(ids(layers)[kb] == layers[kb].id);
        } else {
            assert(ids(layers)[ka] == layers[ka].id);
        }
    }
    lemma_unique_index(result, g, slot);
    assert forall|x: u128| #![trigger position(result, x)] position(layers, x) >= 0 implies position(result, x) >= 0
        && result[position(result, x)] == regroup(layers[position(layers, x)], selected, parent, g) by {
        lemma_position(layers, x);
        let i = position(layers, x);
        let at = if i < slot { i } else { i + 1 };
        assert(result[at] == moved[i]);
        lemma_unique_index(result, x, at);
    }
}

/// A layer whose parent is in the family of `root` is in that family; so
/// the family of a layer contains the families of its children.
pub proof fn lemma_family_up<P>(layers: Seq<Layer<P>>, x: u128, i: int, k: nat)
    requires
        0 <= i < layers.len(),
        layers[i].parent is Some,
        within_family(layers, layers[i].id, x, k),
    ensures
        in_family(layers, layers[i].parent->0, x),
    decreases k,
{
    let p = layers[i].parent->0;
    if x == layers[i].id {
        assert(within_family(layers, p, p, 0));
        assert(within_family(layers, p, x, 1));
    } else {
        let j = choose|j: int|
            0 <= j < layers.len() && #[trigger] layers[j].id == x && (layers[j].parent matches Some(q) && within_family(
                layers,
                layers[i].id,
                q,
                (k - 1) as nat,
            ));
        let q = layers[j].parent->0;
        lemma_family_up(layers, q, i, (k - 1) as nat);
        lemma_child_in_family(layers, p, j);
    }
}

/// Facts about the grouped layers that the walks below rely on.
pub open spec fn grouped_from<P>(
    layers: Seq<Layer<P>>,
    selected: Set<u128>,
    parent: Option<u128>,
    group: Layer<P>,
    slot: int,
    result: Seq<Layer<P>>,
) -> bool {
    &&& ids(layers).no_duplicates()
    &&& !ids(layers).contains(group.id)
    &&& 0 <= slot <= layers.len()
    &&& result == regrouped(layers, selected, parent, group.id).insert(slot, group)
    &&& group.group
    &&& group.parent == parent
    &&& group.clip_to is None
}

/// Walking up from a layer outside every family that the group takes in
/// meets no moved layer, so the walk is the same as before.
pub proof fn lemma_parent_walk_untouched<P>(
    layers: Seq<Layer<P>>,
    selected: Set<u128>,
    parent: Option<u128>,
    group: Layer<P>,
    slot: int,
    result: Seq<Layer<P>>,
    visited: Seq<u128>,
    up: Option<u128>,
    l: u128,
)
    requires
        grouped_from(layers, selected, parent, group, slot, result),
        parent_walk(layers, visited, up) is Ok,
        up is Some ==> in_family(layers, up->0, l),
        forall|j: int|
            0 <= j < layers.len() && joins_group(#[trigger] layers[j], selected, parent) ==> !in_family(
                layers,
                layers[j].id,
                l,
            ),
    ensures
        parent_walk(result, visited, up) is Ok,
    decreases MAX_GROUP_CHAIN - visited.len(),
{
    if up is Some {
        let y = up->0;
        lemma_position(layers, y);
        let at = position(layers, y);
        lemma_grouped_lookup(layers, selected, parent, group, slot, result);
        assert(position(result, y) >= 0);
        assert(!joins_group(layers[at], selected, parent));
        let next = layers[at].parent;
        if next is Some {
            let k = choose|k: nat| within_family(layers, y, l, k);
            lemma_family_up(layers, l, at, k);
        }
        lemma_parent_walk_untouched(layers, selected, parent, group, slot, result, visited.push(y), next, l);
    }
}

/// Walking up from a layer inside a family that the group takes in: the
/// walk before grouping, padded with the group's identifier, bounds the walk
/// after grouping, which passes the group once, right above the moved layer.
pub proof fn lemma_parent_walk_lifted<P>(
    layers: Seq<Layer<P>>,
    selected: Set<u128>,
    parent: Option<u128>,
    group: Layer<P>,
    slot: int,
    result: Seq<Layer<P>>,
    before: Seq<u128>,
    after: Seq<u128>,
    up: Option<u128>,
    passed: bool,
)
    requires
        grouped_from(layers, selected, parent, group, slot, result),
        parent_walk(layers, before, up) is Ok,
        forall|x: u128| x != group.id && after.contains(x) ==> before.contains(x),
        after.len() <= before.len(),
        !passed ==> !after.contains(group.id) && after.len() < before.len(),
        passed ==> (parent is None ==> up is None),
        passed ==> (parent is Some ==> (before.contains(parent->0) || up == parent)),
    ensures
        parent_walk(result, after, up) is Ok,
    decreases MAX_GROUP_CHAIN - before.len(),
{
    let g = group.id;
    if up is Some {
        let y = up->0;
        lemma_position(layers, y);
        let at = position(layers, y);
        assert(ids(layers)[at] == y);
        lemma_grouped_lookup(layers, selected, parent, group, slot, result);
        let found = result[position(result, y)];
        let next = layers[at].parent;
        assert(y != g);
        let b2 = before.push(y);
        let a2 = after.push(y);
        assert forall|x: u128| x != g && a2.contains(x) implies b2.contains(x) by {
            let k = choose|k: int| 0 <= k < a2.len() && a2[k] == x;
            if k < after.len() {
                assert(after[k] == x);
                assert(after.contains(x));
                let k2 = choose|k2: int| 0 <= k2 < before.len() && before[k2] == x;
                assert(b2[k2] == x);
            } else {
                assert(b2[before.len() as int] == x);
            }
        }
        if !joins_group(layers[at], selected, parent) {
            assert(found.parent == next);
            if passed && parent is Some {
                assert(b2[before.len() as int] == y);
                if before.contains(parent->0) {
                    let k = choose|k: int| 0 <= k < before.len() && before[k] == parent->0;
                    assert(b2[k] == parent->0);
                }
            }
            if !passed {
                assert(!a2.contains(g)) by {
                    if a2.contains(g) {
                        let k = choose|k: int| 0 <= k < a2.len() && a2[k] == g;
                        if k < after.len() {
                            assert(after[k] == g);
                        }
                    }
                }
            }
            lemma_parent_walk_lifted(layers, selected, parent, group, slot, result, b2, a2, next, passed);
        } else {
            assert(next == parent);
            if passed {
                if parent is Some {
                    let p = parent->0;
                    if up == parent {
                        assert(b2.contains(y)) by {
                            assert(b2[before.len() as int] == y);
                        }
                    } else {
                        let k = choose|k: int| 0 <= k < before.len() && before[k] == p;
                        assert(b2[k] == p);
                    }
                    assert(b2.contains(p));
                    assert(parent_walk(layers, b2, parent) is Ok);
                    assert(false);
                }
            } else {
                assert(found.parent == Some(g));
                assert(!a2.contains(g)) by {
                    if a2.contains(g) {
                        let k = choose|k: int| 0 <= k < a2.len() && a2[k] == g;
                        if k < after.len() {
                            assert(after[k] == g);
                        }
                    }
                }
                let a3 = a2.push(g);
                assert forall|x: u128| x != g && a3.contains(x) implies b2.contains(x) by {
                    let k = choose|k: int| 0 <= k < a3.len() && a3[k] == x;
                    if k < a2.len() {
                        assert(a2[k] == x);
                    }
                }
                if parent is Some {
                    assert(b2[before.len() as int] == y);
                }
                lemma_parent_walk_lifted(layers, selected, parent, group, slot, result, b2, a3, parent, true);
                assert(result[position(result, g)] == group);
                assert(parent_walk(result, a2, Some(g)) is Ok);
            }
        }
    }
}

/// Grouping changes no clipping link and adds no clipping target, so
/// clipping chains are as before.
pub proof fn lemma_clip_walk_grouped<P>(
    layers: Seq<Layer<P>>,
    selected: Set<u128>,
    parent: Option<u128>,
    group: Layer<P>,
    slot: int,
    result: Seq<Layer<P>>,
    kind: bool,
    visited: Seq<u128>,
    source: Option<u128>,
)
    requires
        grouped_from(layers, selected, parent, group, slot, result),
        clip_walk(layers, kind, visited, source) is Ok,
    ensures
        clip_walk(result, kind, visited, source) is Ok,
    decreases MAX_CLIP_CHAIN - visited.len(),
{
    if source is Some {
        let c = source->0;
        lemma_position(layers, c);
        let at = position(layers, c);
        lemma_grouped_lookup(layers, selected, parent, group, slot, result);
        assert(position(result, c) >= 0);
        lemma_clip_walk_grouped(layers, selected, parent, group, slot, result, kind, visited.push(c), layers[at].clip_to);
    }
}

/// Every layer in a family that the new group takes in has room for one
/// more level of nesting.
pub open spec fn room_to_nest<P>(layers: Seq<Layer<P>>, selected: Set<u128>, parent: Option<u128>, g: u128) -> bool {
    forall|i: int|
        0 <= i < layers.len() && (exists|j: int|
            0 <= j < layers.len() && joins_group(#[trigger] layers[j], selected, parent) && in_family(
                layers,
                layers[j].id,
                layers[i].id,
            )) ==> parent_walk(layers, seq![(#[trigger] layers[i]).id, g], layers[i].parent) is Ok
}

/// Wrapping layers of a sound document in a new group keeps it sound,
/// provided the group's identifier is new, the layers it takes in have room
/// for one more level of nesting, and the layer count stays within
/// `MAX_LAYERS`.
pub proof fn lemma_group_keeps_structure<P>(
    before: Document<P>,
    after: Document<P>,
    parent: Option<u128>,
    group: Layer<P>,
    slot: int,
)
    requires
        structure_check(before) is Ok,
        parent == (if crate::document::position_opt(before.layers@, before.active) >= 0 {
            before.layers@[crate::document::position_opt(before.layers@, before.active)].parent
        } else {
            None
        }),
        !ids(before.layers@).contains(group.id),
        0 <= slot <= before.layers@.len(),
        after.layers@ == regrouped(before.layers@, before.selected@, parent, group.id).insert(slot, group),
        group.group,
        group.parent == parent,
        group.clip_to is None,
        group.name@ == "Group"@,
        room_to_nest(before.layers@, before.selected@, parent, group.id),
        after.layers@.len() <= MAX_LAYERS,
        after.active == Some(group.id),
        after.width == before.width,
        after.height == before.height,
    ensures
        structure_check(after) is Ok,
{
    let layers = before.layers@;
    let selected = before.selected@;
    let result = after.layers@;
    let g = group.id;
    assert(grouped_from(layers, selected, parent, group, slot, result));
    lemma_grouped_lookup(layers, selected, parent, group, slot, result);
    lemma_position(result, g);
    assert(ids(result)[position(result, g)] == g);
    lemma_layers_check_all(layers, 0);
    lemma_layers_check_all(result, 0);
    let moved = regrouped(layers, selected, parent, g);
    assert forall|j: int| 0 <= j < result.len() implies (#[trigger] layer_check(result, j)) is Ok by {
        if j == slot {
            assert(result[j] == group);
            reveal_strlit("Group");
            crate::document::lemma_utf8_len_bound(group.name@);
            assert(!crate::text::is_white_space(group.name@[0]));
            if parent is Some {
                let at = crate::document::position_opt(layers, before.active);
                lemma_position(layers, before.active->0);
                assert(0 <= at < layers.len());
                assert(layer_check(layers, at) is Ok);
                lemma_parent_walk_lifted(layers, selected, parent, group, slot, result, seq![layers[at].id], seq![g], parent, true);
            }
            assert(parent_walk(result, seq![g], parent) is Ok);
            assert(crate::text::has_visible_char(group.name@));
            assert(clip_walk(result, true, seq![g], None) is Ok);
            assert(layer_check(result, j) is Ok);
        } else {
            let i = if j < slot { j } else { j - 1 };
            assert(result[j] == moved[i]);
            let l = layers[i];
            assert(moved[i] == regroup(l, selected, parent, g));
            assert(layer_check(layers, i) is Ok);
            if exists|k: int| 0 <= k < layers.len() && joins_group(#[trigger] layers[k], selected, parent) && in_family(layers, layers[k].id, l.id) {
                assert(parent_walk(layers, seq![l.id, g], l.parent) is Ok);
                if joins_group(l, selected, parent) {
                    let pad = seq![l.id, g];
                    assert(pad[1] == g);
                    assert(seq![l.id].push(g) == pad);
                    lemma_parent_walk_lifted(layers, selected, parent, group, slot, result, pad, pad, parent, true);
                    assert(result[position(result, g)] == group);
                    assert(!seq![l.id].contains(g)) by {
                        assert(seq![l.id][0] == l.id);
                        assert(ids(layers)[i] == l.id);
                    }
                    assert(result[j].parent == Some(g));
                    assert(parent_walk(result, seq![l.id], Some(g)) is Ok);
                } else {
                    assert(!seq![l.id].contains(g)) by {
                        assert(seq![l.id][0] == l.id);
                        assert(ids(layers)[i] == l.id);
                    }
                    assert forall|x: u128| x != g && seq![l.id].contains(x) implies seq![l.id, g].contains(x) by {
                        assert(seq![l.id, g][0] == l.id);
                    }
                    lemma_parent_walk_lifted(layers, selected, parent, group, slot, result, seq![l.id, g], seq![l.id], l.parent, false);
                    assert(result[j].parent == l.parent);
                }
            } else {
                if l.parent is Some {
                    let p = l.parent->0;
                    assert(within_family(layers, p, p, 0));
                    assert(within_family(layers, p, l.id, 1));
                }
                lemma_parent_walk_untouched(layers, selected, parent, group, slot, result, seq![l.id], l.parent, l.id);
                assert(!joins_group(l, selected, parent)) by {
                    if joins_group(l, selected, parent) {
                        assert(within_family(layers, l.id, l.id, 0));
                    }
                }
                assert(result[j].parent == l.parent);
            }
            lemma_clip_walk_grouped(layers, selected, parent, group, slot, result, l.group, seq![l.id], l.clip_to);
            let r = result[j];
            assert(r.name == l.name && r.id == l.id && r.group == l.group && r.clip_to == l.clip_to);
            assert(parent_walk(result, seq![l.id], r.parent) is Ok);
            assert(layer_check(result, j) is Ok);
        }
    }
}

} // verus!
