//! Why duplicating layers keeps a sound document sound when the copies get
//! identifiers of their own: each copy mirrors its original's place in the
//! group and clipping hierarchy, pointing at copies where the original
//! pointed at copied layers.
use vstd::prelude::*;

use crate::document::{
    byte_len, clip_walk, ids, layer_check, lemma_position, parent_walk, position, shape, shapes,
    structure_check, Document, Layer, LayerShape, MAX_CLIP_CHAIN, MAX_GROUP_CHAIN, MAX_LAYERS, MAX_NAME_BYTES,
};
use crate::integrity::lemma_layers_check_all;
use crate::operations::{copies, picked, remap, renamed};
use crate::text::is_white_space;

verus! {

/// The structure of the copy of `l` that `m` renames.
pub open spec fn copy_shape<P>(l: Layer<P>, m: Map<u128, u128>) -> LayerShape {
    LayerShape {
        id: m[l.id],
        name: l.name@ + " copy"@,
        parent: remap(m, l.parent),
        clip_to: remap(m, l.clip_to),
        ..shape(l)
    }
}

/// `copied` is `layers` with the copies of the layers that `m` renames
/// inserted at `end`, in order.
pub open spec fn duplicated<P>(layers: Seq<Layer<P>>, copied: Seq<Layer<P>>, m: Map<u128, u128>, end: int) -> bool {
    let chosen = picked(layers, m.dom());
    let c = chosen.len() as int;
    &&& 0 <= end <= layers.len()
    &&& copied.len() == layers.len() + c
    &&& forall|j: int| 0 <= j < end ==> #[trigger] copied[j] == layers[j]
    &&& forall|j: int| end <= j < layers.len() ==> #[trigger] copied[j + c] == layers[j]
    &&& forall|k: int| 0 <= k < c ==> shape(#[trigger] copied[end + k]) == copy_shape(chosen[k], m)
}

/// `m` gives each renamed layer an identifier that no layer has and that no
/// other renamed layer gets.
pub open spec fn fresh_names<P>(layers: Seq<Layer<P>>, m: Map<u128, u128>) -> bool {
    &&& forall|x: u128| #[trigger] m.contains_key(x) ==> !ids(layers).contains(m[x])
    &&& forall|x: u128, y: u128| #[trigger] m.contains_key(x) && #[trigger] m.contains_key(y) && x != y ==> m[x] != m[y]
}

/// The copies, as structures, are the copies of the picked layers.
pub proof fn lemma_copies_are_picked<P>(layers: Seq<Layer<P>>, m: Map<u128, u128>)
    ensures
        copies(layers, m).len() == picked(layers, m.dom()).len(),
        forall|k: int|
            0 <= k < copies(layers, m).len() ==> #[trigger] copies(layers, m)[k] == copy_shape(
                picked(layers, m.dom())[k],
                m,
            ),
    decreases layers.len(),
{
    if layers.len() > 0 {
        lemma_copies_are_picked(layers.drop_last(), m);
        let c0 = copies(layers.drop_last(), m);
        let p0 = picked(layers.drop_last(), m.dom());
        assert forall|k: int| 0 <= k < copies(layers, m).len() implies #[trigger] copies(layers, m)[k] == copy_shape(
            picked(layers, m.dom())[k],
            m,
        ) by {
            if k < c0.len() {
                assert(copies(layers, m)[k] == c0[k]);
                assert(picked(layers, m.dom())[k] == p0[k]);
            }
        }
    }
}

/// The picked layers are layers whose identifiers the set holds, and every
/// such layer is picked.
pub proof fn lemma_picked<P>(layers: Seq<Layer<P>>, t: Set<u128>)
    ensures
        forall|k: int|
            #![trigger picked(layers, t)[k]]
            0 <= k < picked(layers, t).len() ==> exists|i: int|
                #![trigger layers[i]]
                0 <= i < layers.len() && picked(layers, t)[k] == layers[i] && t.contains(layers[i].id),
        forall|i: int|
            #![trigger layers[i]]
            0 <= i < layers.len() && t.contains(layers[i].id) ==> exists|k: int|
                #![trigger picked(layers, t)[k]]
                0 <= k < picked(layers, t).len() && picked(layers, t)[k] == layers[i],
        picked(layers, t).len() <= layers.len(),
    decreases layers.len(),
{
    if layers.len() > 0 {
        let rest = layers.drop_last();
        let l = layers.last();
        lemma_picked(rest, t);
        let p0 = picked(rest, t);
        let p = picked(layers, t);
        if t.contains(l.id) {
            assert(p == p0.push(l));
        } else {
            assert(p == p0);
        }
        assert forall|k: int| #![trigger p[k]] 0 <= k < p.len() implies exists|i: int|
            #![trigger layers[i]]
            0 <= i < layers.len() && p[k] == layers[i] && t.contains(layers[i].id) by {
            if k < p0.len() {
                assert(p[k] == p0[k]);
                let i = choose|i: int| #![trigger rest[i]] 0 <= i < rest.len() && p0[k] == rest[i] && t.contains(rest[i].id);
                assert(layers[i] == rest[i]);
            } else {
                assert(p[k] == layers[layers.len() - 1]);
            }
        }
        assert forall|i: int| #![trigger layers[i]] 0 <= i < layers.len() && t.contains(layers[i].id) implies exists|k: int|
            #![trigger p[k]]
            0 <= k < p.len() && p[k] == layers[i] by {
            if i < rest.len() {
                assert(rest[i] == layers[i]);
                assert(t.contains(rest[i].id));
                let k = choose|k: int| #![trigger p0[k]] 0 <= k < p0.len() && p0[k] == rest[i];
                assert(p[k] == p0[k]);
            } else {
                assert(p[p.len() - 1] == layers[i]);
            }
        }
    }
}

/// Picking keeps identifiers unique, and keeps the order of the layers.
pub proof fn lemma_picked_distinct<P>(layers: Seq<Layer<P>>, t: Set<u128>)
    requires
        ids(layers).no_duplicates(),
    ensures
        forall|a: int, b: int|
            0 <= a < picked(layers, t).len() && 0 <= b < picked(layers, t).len() && a != b ==> (#[trigger] picked(
                layers,
                t,
            )[a]).id != (#[trigger] picked(layers, t)[b]).id,
    decreases layers.len(),
{
    if layers.len() > 0 {
        let rest = layers.drop_last();
        let l = layers.last();
        assert(ids(rest).no_duplicates()) by {
            assert forall|a: int, b: int| 0 <= a < ids(rest).len() && 0 <= b < ids(rest).len() && a != b implies ids(
                rest,
            )[a] != ids(rest)[b] by {
                assert(ids(layers)[a] == ids(rest)[a]);
                assert(ids(layers)[b] == ids(rest)[b]);
            }
        }
        lemma_picked_distinct(rest, t);
        lemma_picked(rest, t);
        let p0 = picked(rest, t);
        let p = picked(layers, t);
        assert forall|a: int| 0 <= a < p0.len() implies (#[trigger] p0[a]).id != l.id by {
            let i = choose|i: int| 0 <= i < rest.len() && p0[a] == rest[i] && t.contains(rest[i].id);
            assert(ids(layers)[i] == rest[i].id);
            assert(ids(layers)[layers.len() - 1] == l.id);
        }
        assert forall|a: int, b: int| 0 <= a < p.len() && 0 <= b < p.len() && a != b implies (#[trigger] p[a]).id
            != (#[trigger] p[b]).id by {
            if a < p0.len() {
                assert(p[a] == p0[a]);
            }
            if b < p0.len() {
                assert(p[b] == p0[b]);
            }
        }
    }
}

/// Where a layer of `layers` stands after the copies are inserted at `end`.
pub open spec fn moved_index(i: int, end: int, c: int) -> int {
    if i < end {
        i
    } else {
        i + c
    }
}

/// Every index of the result holds an original layer or a copy.
pub proof fn lemma_duplicated_index<P>(layers: Seq<Layer<P>>, copied: Seq<Layer<P>>, m: Map<u128, u128>, end: int, j: int)
    requires
        duplicated(layers, copied, m, end),
        0 <= j < copied.len(),
    ensures
        ({
            let c = picked(layers, m.dom()).len() as int;
            ||| (j < end && copied[j] == layers[j])
            ||| (end + c <= j && copied[j] == layers[j - c])
            ||| (end <= j < end + c && shape(copied[j]) == copy_shape(picked(layers, m.dom())[j - end], m))
        }),
{
    let c = picked(layers, m.dom()).len() as int;
    if j < end {
        assert(copied[j] == layers[j]);
    } else if j >= end + c {
        assert(copied[(j - c) + c] == layers[j - c]);
    } else {
        assert(shape(copied[end + (j - end)]) == copy_shape(picked(layers, m.dom())[j - end], m));
    }
}

/// Inserting copies with fresh, distinct identifiers keeps identifiers unique.
pub proof fn lemma_duplicated_distinct<P>(layers: Seq<Layer<P>>, copied: Seq<Layer<P>>, m: Map<u128, u128>, end: int)
    requires
        duplicated(layers, copied, m, end),
        ids(layers).no_duplicates(),
        fresh_names(layers, m),
    ensures
        ids(copied).no_duplicates(),
{
    let chosen = picked(layers, m.dom());
    let c = chosen.len() as int;
    lemma_picked(layers, m.dom());
    lemma_picked_distinct(layers, m.dom());
    assert forall|a: int, b: int| 0 <= a < ids(copied).len() && 0 <= b < ids(copied).len() && a != b implies ids(
        copied,
    )[a] != ids(copied)[b] by {
        lemma_duplicated_index(layers, copied, m, end, a);
        lemma_duplicated_index(layers, copied, m, end, b);
        assert(ids(copied)[a] == copied[a].id);
        assert(ids(copied)[b] == copied[b].id);
        let a_copy = end <= a < end + c;
        let b_copy = end <= b < end + c;
        if a_copy && b_copy {
            let pa = chosen[a - end];
            let pb = chosen[b - end];
            assert(pa.id != pb.id);
            let i = choose|i: int| #![trigger layers[i]] 0 <= i < layers.len() && chosen[a - end] == layers[i] && m.dom().contains(layers[i].id);
            let i2 = choose|i: int| #![trigger layers[i]] 0 <= i < layers.len() && chosen[b - end] == layers[i] && m.dom().contains(layers[i].id);
            assert(m.contains_key(pa.id) && m.contains_key(pb.id));
        } else if a_copy {
            let pa = chosen[a - end];
            let i = choose|i: int| #![trigger layers[i]] 0 <= i < layers.len() && chosen[a - end] == layers[i] && m.dom().contains(layers[i].id);
            assert(m.contains_key(pa.id));
            let ob = if b < end { b } else { b - c };
            assert(ids(layers)[ob] == copied[b].id);
        } else if b_copy {
            let pb = chosen[b - end];
            let i = choose|i: int| #![trigger layers[i]] 0 <= i < layers.len() && chosen[b - end] == layers[i] && m.dom().contains(layers[i].id);
            assert(m.contains_key(pb.id));
            let oa = if a < end { a } else { a - c };
            assert(ids(layers)[oa] == copied[a].id);
        } else {
            let oa = if a < end { a } else { a - c };
            let ob = if b < end { b } else { b - c };
            assert(ids(layers)[oa] == copied[a].id);
            assert(ids(layers)[ob] == copied[b].id);
        }
    }
}

/// In a sequence with unique identifiers, an index holding `x` is where `x` is found.
pub proof fn lemma_unique_position<P>(layers: Seq<Layer<P>>, x: u128, j: int)
    requires
        ids(layers).no_duplicates(),
        0 <= j < layers.len(),
        layers[j].id == x,
    ensures
        position(layers, x) == j,
{
    lemma_position(layers, x);
    let p = position(layers, x);
    if p != j {
        assert(ids(layers)[p] == ids(layers)[j]);
    }
}

/// After inserting the copies, a layer is found with its structure, and the
/// copy of a copied layer is found with the copy's structure.
pub proof fn lemma_duplicated_lookup<P>(
    layers: Seq<Layer<P>>,
    copied: Seq<Layer<P>>,
    m: Map<u128, u128>,
    end: int,
    x: u128,
)
    requires
        duplicated(layers, copied, m, end),
        ids(layers).no_duplicates(),
        fresh_names(layers, m),
        position(layers, x) >= 0,
    ensures
        position(copied, x) >= 0,
        shape(copied[position(copied, x)]) == shape(layers[position(layers, x)]),
        m.contains_key(x) ==> position(copied, m[x]) >= 0 && shape(copied[position(copied, m[x])]) == copy_shape(
            layers[position(layers, x)],
            m,
        ),
{
    let chosen = picked(layers, m.dom());
    let c = chosen.len() as int;
    lemma_position(layers, x);
    lemma_duplicated_distinct(layers, copied, m, end);
    let i = position(layers, x);
    let at = moved_index(i, end, c);
    if i < end {
        assert(copied[i] == layers[i]);
    } else {
        assert(copied[i + c] == layers[i]);
    }
    lemma_unique_position(copied, x, at);
    if m.contains_key(x) {
        lemma_picked(layers, m.dom());
        assert(m.dom().contains(layers[i].id));
        let k = choose|k: int| #![trigger chosen[k]] 0 <= k < chosen.len() && chosen[k] == layers[i];
        assert(shape(copied[end + k]) == copy_shape(chosen[k], m));
        lemma_unique_position(copied, m[x], end + k);
    }
}

/// `a` stands for `b` after duplication: it is `b` itself, or `b`'s copy.
pub open spec fn stands_for(m: Map<u128, u128>, a: u128, b: u128) -> bool {
    a == b || (m.contains_key(b) && a == m[b])
}

/// The optional identifier `a` stands for `b`.
pub open spec fn stands_for_opt(m: Map<u128, u128>, a: Option<u128>, b: Option<u128>) -> bool {
    match (a, b) {
        (None, None) => true,
        (Some(x), Some(y)) => stands_for(m, x, y),
        _ => false,
    }
}

/// Each entry of `after` stands for the entry of `before` at its place, and
/// those are identifiers of layers.
pub open spec fn mirrors<P>(layers: Seq<Layer<P>>, m: Map<u128, u128>, after: Seq<u128>, before: Seq<u128>) -> bool {
    &&& after.len() == before.len()
    &&& forall|i: int| 0 <= i < before.len() ==> stands_for(m, #[trigger] after[i], before[i])
    &&& forall|i: int| 0 <= i < before.len() ==> ids(layers).contains(#[trigger] before[i])
}

/// With fresh, distinct new identifiers, one identifier stands for at most
/// one layer.
pub proof fn lemma_stands_for_one<P>(layers: Seq<Layer<P>>, m: Map<u128, u128>, z: u128, a: u128, b: u128)
    requires
        fresh_names(layers, m),
        ids(layers).contains(a),
        ids(layers).contains(b),
        stands_for(m, z, a),
        stands_for(m, z, b),
    ensures
        a == b,
{
    if z == a && z != b {
        assert(m.contains_key(b) && !ids(layers).contains(m[b]));
    } else if z != a && z == b {
        assert(m.contains_key(a) && !ids(layers).contains(m[a]));
    } else if z != a && z != b {
        assert(m.contains_key(a) && m.contains_key(b));
    }
}

/// A walk that mirrors one that did not revisit `u` does not revisit what stands for `u`.
pub proof fn lemma_mirror_fresh<P>(layers: Seq<Layer<P>>, m: Map<u128, u128>, after: Seq<u128>, before: Seq<u128>, z: u128, u: u128)
    requires
        fresh_names(layers, m),
        mirrors(layers, m, after, before),
        !before.contains(u),
        ids(layers).contains(u),
        stands_for(m, z, u),
    ensures
        !after.contains(z),
        mirrors(layers, m, after.push(z), before.push(u)),
{
    if after.contains(z) {
        let i = choose|i: int| 0 <= i < after.len() && after[i] == z;
        assert(stands_for(m, after[i], before[i]));
        assert(ids(layers).contains(before[i]));
        lemma_stands_for_one(layers, m, z, before[i], u);
    }
    assert forall|i: int| 0 <= i < before.push(u).len() implies stands_for(m, #[trigger] after.push(z)[i], before.push(u)[i]) by {
        if i < before.len() {
            assert(after.push(z)[i] == after[i]);
            assert(before.push(u)[i] == before[i]);
        }
    }
    assert forall|i: int| 0 <= i < before.push(u).len() implies ids(layers).contains(#[trigger] before.push(u)[i]) by {
        if i < before.len() {
            assert(before.push(u)[i] == before[i]);
        }
    }
}

/// Walking up the parents from a copy follows the walk from its original,
/// through copies as long as the original passes through copied layers.
pub proof fn lemma_parent_walk_copied<P>(
    layers: Seq<Layer<P>>,
    copied: Seq<Layer<P>>,
    m: Map<u128, u128>,
    end: int,
    before: Seq<u128>,
    after: Seq<u128>,
    up: Option<u128>,
    up2: Option<u128>,
)
    requires
        duplicated(layers, copied, m, end),
        ids(layers).no_duplicates(),
        fresh_names(layers, m),
        parent_walk(layers, before, up) is Ok,
        stands_for_opt(m, up2, up),
        mirrors(layers, m, after, before),
    ensures
        parent_walk(copied, after, up2) is Ok,
    decreases MAX_GROUP_CHAIN - before.len(),
{
    if up is Some {
        let u = up->0;
        let z = up2->0;
        lemma_position(layers, u);
        let at = position(layers, u);
        assert(ids(layers)[at] == u);
        lemma_duplicated_lookup(layers, copied, m, end, u);
        lemma_mirror_fresh(layers, m, after, before, z, u);
        let next = layers[at].parent;
        let found = copied[position(copied, z)];
        assert(stands_for_opt(m, found.parent, next));
        lemma_parent_walk_copied(layers, copied, m, end, before.push(u), after.push(z), next, found.parent);
    }
}

/// Following clipping links from a copy follows the links from its original,
/// through copies as long as the original passes through copied layers.
pub proof fn lemma_clip_walk_copied<P>(
    layers: Seq<Layer<P>>,
    copied: Seq<Layer<P>>,
    m: Map<u128, u128>,
    end: int,
    group: bool,
    before: Seq<u128>,
    after: Seq<u128>,
    source: Option<u128>,
    source2: Option<u128>,
)
    requires
        duplicated(layers, copied, m, end),
        ids(layers).no_duplicates(),
        fresh_names(layers, m),
        clip_walk(layers, group, before, source) is Ok,
        stands_for_opt(m, source2, source),
        mirrors(layers, m, after, before),
    ensures
        clip_walk(copied, group, after, source2) is Ok,
    decreases MAX_CLIP_CHAIN - before.len(),
{
    if source is Some {
        let u = source->0;
        let z = source2->0;
        lemma_position(layers, u);
        let at = position(layers, u);
        assert(ids(layers)[at] == u);
        lemma_duplicated_lookup(layers, copied, m, end, u);
        lemma_mirror_fresh(layers, m, after, before, z, u);
        let next = layers[at].clip_to;
        let found = copied[position(copied, z)];
        assert(stands_for_opt(m, found.clip_to, next));
        lemma_clip_walk_copied(layers, copied, m, end, group, before.push(u), after.push(z), next, found.clip_to);
    }
}

/// The name of every copy, with " copy" appended, is short enough.
pub open spec fn copy_names_fit<P>(layers: Seq<Layer<P>>, m: Map<u128, u128>) -> bool {
    forall|i: int|
        0 <= i < layers.len() && m.contains_key(#[trigger] layers[i].id) ==> byte_len(layers[i].name@ + " copy"@)
            <= MAX_NAME_BYTES
}

/// A name with " copy" appended has a visible character.
pub proof fn lemma_copy_name_visible(name: Seq<char>)
    ensures
        crate::text::has_visible_char(name + " copy"@),
{
    reveal_strlit(" copy");
    let s = name + " copy"@;
    assert(s[name.len() + 1int] == 'c');
    assert(!is_white_space(s[name.len() + 1int]));
}

/// Duplicating layers of a sound document keeps it sound, provided the
/// copies' identifiers are new and distinct, the layer count stays within
/// `MAX_LAYERS` and the copies' names stay within `MAX_NAME_BYTES`.
pub proof fn lemma_duplicate_keeps_structure<P>(
    before: Document<P>,
    after: Document<P>,
    m: Map<u128, u128>,
    end: int,
)
    requires
        structure_check(before) is Ok,
        duplicated(before.layers@, after.layers@, m, end),
        fresh_names(before.layers@, m),
        after.layers@.len() <= MAX_LAYERS,
        copy_names_fit(before.layers@, m),
        after.width == before.width,
        after.height == before.height,
        after.active == renamed(m, before.active),
    ensures
        structure_check(after) is Ok,
{
    let layers = before.layers@;
    let copied = after.layers@;
    let chosen = picked(layers, m.dom());
    let c = chosen.len() as int;
    lemma_duplicated_distinct(layers, copied, m, end);
    lemma_picked(layers, m.dom());
    if after.active is Some {
        let a = before.active->0;
        assert(m.contains_key(a));
        lemma_position(layers, a);
        let i = choose|i: int| 0 <= i < ids(layers).len() && ids(layers)[i] == a;
        assert(layers[i].id == a);
        lemma_duplicated_lookup(layers, copied, m, end, a);
        let q = position(copied, m[a]);
        lemma_position(copied, m[a]);
        assert(copied[q].id == m[a]);
        assert(ids(copied)[q] == m[a]);
    }
    lemma_layers_check_all(layers, 0);
    lemma_layers_check_all(copied, 0);
    assert forall|j: int| 0 <= j < copied.len() implies (#[trigger] layer_check(copied, j)) is Ok by {
        lemma_duplicated_index(layers, copied, m, end, j);
        let l = copied[j];
        if end <= j < end + c {
            let k = j - end;
            let i = choose|i: int| #![trigger layers[i]] 0 <= i < layers.len() && chosen[k] == layers[i] && m.dom().contains(layers[i].id);
            let o = layers[i];
            assert(layer_check(layers, i) is Ok);
            assert(ids(layers)[i] == o.id);
            lemma_copy_name_visible(o.name@);
            assert(mirrors(layers, m, seq![l.id], seq![o.id]));
            lemma_parent_walk_copied(layers, copied, m, end, seq![o.id], seq![l.id], o.parent, l.parent);
            lemma_clip_walk_copied(layers, copied, m, end, o.group, seq![o.id], seq![l.id], o.clip_to, l.clip_to);
        } else {
            let i = if j < end { j } else { j - c };
            assert(l == layers[i]);
            assert(layer_check(layers, i) is Ok);
            assert(ids(layers)[i] == l.id);
            assert(mirrors(layers, m, seq![l.id], seq![l.id]));
            lemma_parent_walk_copied(layers, copied, m, end, seq![l.id], seq![l.id], l.parent, l.parent);
            lemma_clip_walk_copied(layers, copied, m, end, l.group, seq![l.id], seq![l.id], l.clip_to, l.clip_to);
        }
    }
}

/// Duplication as `duplicate` states it, by the structures of the layers,
/// is an insertion of the copies in the sense of `duplicated`.
pub proof fn lemma_duplicated_from_shapes<P>(
    layers: Seq<Layer<P>>,
    copied: Seq<Layer<P>>,
    m: Map<u128, u128>,
    end: int,
)
    requires
        0 <= end <= layers.len(),
        shapes(copied) == shapes(layers.take(end)) + copies(layers, m) + shapes(layers.skip(end)),
        copied.take(end) == layers.take(end),
        copied.skip(end + copies(layers, m).len()) == layers.skip(end),
    ensures
        duplicated(layers, copied, m, end),
{
    lemma_copies_are_picked(layers, m);
    let c = copies(layers, m).len() as int;
    assert(copied.len() == shapes(copied).len());
    assert(shapes(copied).len() == end + c + (layers.len() - end));
    assert forall|j: int| 0 <= j < end implies #[trigger] copied[j] == layers[j] by {
        assert(copied.take(end)[j] == copied[j]);
        assert(layers.take(end)[j] == layers[j]);
        assert(copied.take(end)[j] == layers.take(end)[j]);
    }
    assert forall|j: int| end <= j < layers.len() implies #[trigger] copied[j + c] == layers[j] by {
        assert(copied.skip(end + c)[j - end] == copied[j + c]);
        assert(layers.skip(end)[j - end] == layers[j]);
        assert(copied.skip(end + c)[j - end] == layers.skip(end)[j - end]);
    }
    assert forall|k: int| 0 <= k < c implies shape(#[trigger] copied[end + k]) == copy_shape(
        picked(layers, m.dom())[k],
        m,
    ) by {
        assert(shapes(copied)[end + k] == shape(copied[end + k]));
        assert((shapes(layers.take(end)) + copies(layers, m) + shapes(layers.skip(end)))[end + k] == copies(layers, m)[k]);
    }
}

} // verus!
