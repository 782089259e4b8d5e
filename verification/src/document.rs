use std::collections::HashSet;
use vstd::prelude::*;

use crate::ids::new_id;
use crate::integrity::{clear_of, lemma_deletion_keeps_structure, lemma_survivors_clear, lemma_targets_closed};
use crate::text::{has_visible_char, is_white_space, not_blank};

verus! {

/// Largest accepted canvas side, in pixels.
pub const MAX_SIDE: u32 = 30_000;

/// Largest accepted number of pixels in one image or in a whole project.
pub const MAX_PIXELS: u64 = 100_000_000;

/// Largest number of layers a document may hold.
pub const MAX_LAYERS: usize = 10_000;

/// Why a canvas size was refused.
#[derive(Clone, Copy, Debug, PartialEq, Eq)]
pub enum SizeError {
    /// A side is zero or longer than `MAX_SIDE`.
    Dimensions,
    /// The area exceeds `MAX_PIXELS`.
    TooManyPixels,
}

/// The message shown for a refused canvas size.
pub open spec fn size_text(e: SizeError) -> Seq<char> {
    match e {
        SizeError::Dimensions => "Dimensions must be between 1 and 30000 pixels"@,
        SizeError::TooManyPixels => "Images are limited to 100 megapixels"@,
    }
}

impl SizeError {
    /// The message shown for the error.
    pub fn message(&self) -> (text: &'static str)
        ensures
            text@ == size_text(*self),
    {
        match self {
            SizeError::Dimensions => "Dimensions must be between 1 and 30000 pixels",
            SizeError::TooManyPixels => "Images are limited to 100 megapixels",
        }
    }
}

/// A side length lies in `1..=MAX_SIDE`.
pub open spec fn side_ok(side: u32) -> bool {
    1 <= side <= MAX_SIDE
}

/// A canvas of this size is accepted.
pub open spec fn size_ok(width: u32, height: u32) -> bool {
    side_ok(width) && side_ok(height) && width * height <= MAX_PIXELS
}

/// Accept a canvas of `width` x `height` pixels, or say why it is refused.
pub fn validate_size(width: u32, height: u32) -> (result: Result<(), SizeError>)
    ensures
        result is Ok <==> size_ok(width, height),
        result == Err::<(), SizeError>(SizeError::Dimensions) <==> !(side_ok(width) && side_ok(height)),
        result == Err::<(), SizeError>(SizeError::TooManyPixels) <==> (side_ok(width) && side_ok(height)
            && width * height > MAX_PIXELS),
{
    if !(1 <= width && width <= MAX_SIDE && 1 <= height && height <= MAX_SIDE) {
        return Err(SizeError::Dimensions);
    }
    assert(width as u64 * height as u64 <= 900_000_000) by (nonlinear_arith)
        requires
            width <= 30_000,
            height <= 30_000,
    ;
    if (width as u64) * (height as u64) > MAX_PIXELS {
        return Err(SizeError::TooManyPixels);
    }
    Ok(())
}

/// The structure of a layer: identity, name, visibility, locking and its
/// place in the group and clipping hierarchy. `content` carries everything
/// else the editor keeps for the layer (placement, pixels, effects).
#[derive(Debug)]
pub struct Layer<P> {
    pub id: u128,
    pub name: String,
    pub visible: bool,
    pub locked: bool,
    pub parent: Option<u128>,
    pub group: bool,
    pub clip_to: Option<u128>,
    pub standalone_mask: bool,
    pub content: P,
}

impl<P: Clone> Clone for Layer<P> {
    /// A copy with the same structure and a clone of the content.
    fn clone(&self) -> (copy: Self)
        ensures
            copy.id == self.id,
            copy.name == self.name,
            copy.visible == self.visible,
            copy.locked == self.locked,
            copy.parent == self.parent,
            copy.group == self.group,
            copy.clip_to == self.clip_to,
            copy.standalone_mask == self.standalone_mask,
            cloned::<P>(self.content, copy.content),
    {
        Layer {
            id: self.id,
            name: self.name.clone(),
            visible: self.visible,
            locked: self.locked,
            parent: self.parent,
            group: self.group,
            clip_to: self.clip_to,
            standalone_mask: self.standalone_mask,
            content: self.content.clone(),
        }
    }
}

impl<P> Layer<P> {
    /// A visible, unlocked top-level layer with a fresh identifier.
    pub fn blank(name: String, content: P) -> (layer: Self)
        ensures
            layer.name == name,
            layer.visible,
            !layer.locked,
            layer.parent is None,
            !layer.group,
            layer.clip_to is None,
            !layer.standalone_mask,
            layer.content == content,
    {
        Layer {
            id: new_id(),
            name,
            visible: true,
            locked: false,
            parent: None,
            group: false,
            clip_to: None,
            standalone_mask: false,
            content,
        }
    }
}

/// A canvas and its layers, bottom to top, with the active layer and the
/// set of selected layers.
#[derive(Debug)]
pub struct Document<P> {
    pub id: u128,
    pub width: u32,
    pub height: u32,
    pub layers: Vec<Layer<P>>,
    pub active: Option<u128>,
    pub selected: HashSet<u128>,
}

impl<P: Clone> Clone for Document<P> {
    /// A copy with the same canvas, active layer and selection, and copies
    /// of the layers.
    fn clone(&self) -> (copy: Self)
        ensures
            copy.id == self.id,
            copy.width == self.width,
            copy.height == self.height,
            copy.active == self.active,
            copy.selected@ == self.selected@,
            copy.layers@.len() == self.layers@.len(),
            forall|i: int|
                0 <= i < self.layers@.len() ==> shape(#[trigger] copy.layers@[i]) == shape(self.layers@[i])
                    && cloned::<P>(self.layers@[i].content, copy.layers@[i].content),
    {
        let members = set_elements(&self.selected);
        let mut selected: HashSet<u128> = HashSet::new();
        for k in 0..members.len()
            invariant
                selected@ == members@.take(k as int).to_set(),
        {
            selected.insert(members[k]);
            assert(members@.take(k + 1) =~= members@.take(k as int).push(members@[k as int]));
            proof {
                members@.take(k as int).lemma_push_to_set_commute(members@[k as int]);
            }
        }
        assert(members@.take(members.len() as int) =~= members@);
        let mut layers: Vec<Layer<P>> = Vec::new();
        for k in 0..self.layers.len()
            invariant
                layers@.len() == k,
                forall|i: int|
                    0 <= i < k ==> shape(#[trigger] layers@[i]) == shape(self.layers@[i]) && cloned::<P>(
                        self.layers@[i].content,
                        layers@[i].content,
                    ),
        {
            let copy = self.layers[k].clone();
            layers.push(copy);
        }
        Document { id: self.id, width: self.width, height: self.height, layers, active: self.active, selected }
    }
}

/// Index of the first layer at or after `start` whose identifier is `id`, or -1.
pub open spec fn find_from<P>(layers: Seq<Layer<P>>, id: u128, start: int) -> int
    decreases layers.len() - start,
{
    if start < 0 || start >= layers.len() {
        -1
    } else if layers[start].id == id {
        start
    } else {
        find_from(layers, id, start + 1)
    }
}

/// Index of the first layer whose identifier is `id`, or -1.
pub open spec fn position<P>(layers: Seq<Layer<P>>, id: u128) -> int {
    find_from(layers, id, 0)
}

/// Index of the first layer with the optional identifier, or -1.
pub open spec fn position_opt<P>(layers: Seq<Layer<P>>, id: Option<u128>) -> int {
    match id {
        Some(id) => position(layers, id),
        None => -1,
    }
}

/// `find_from` gives the first match at or after `start`, or -1 when there is none.
pub proof fn lemma_find_from<P>(layers: Seq<Layer<P>>, id: u128, start: int)
    requires
        0 <= start,
    ensures
        -1 <= find_from(layers, id, start) < layers.len(),
        find_from(layers, id, start) >= 0 ==> find_from(layers, id, start) >= start
            && layers[find_from(layers, id, start)].id == id && forall|j: int|
            start <= j < find_from(layers, id, start) ==> #[trigger] layers[j].id != id,
        find_from(layers, id, start) == -1 ==> forall|j: int|
            start <= j < layers.len() ==> #[trigger] layers[j].id != id,
    decreases layers.len() - start,
{
    if start < layers.len() && layers[start].id != id {
        lemma_find_from(layers, id, start + 1);
    }
}

/// `position` gives the first layer with the identifier, or -1 when none has it.
pub proof fn lemma_position<P>(layers: Seq<Layer<P>>, id: u128)
    ensures
        -1 <= position(layers, id) < layers.len(),
        position(layers, id) >= 0 ==> layers[position(layers, id)].id == id && forall|j: int|
            0 <= j < position(layers, id) ==> #[trigger] layers[j].id != id,
        position(layers, id) == -1 ==> forall|j: int| 0 <= j < layers.len() ==> #[trigger] layers[j].id != id,
{
    lemma_find_from(layers, id, 0);
}

/// Index of the first layer of `layers` whose identifier is `id`.
pub fn find_layer<P>(layers: &Vec<Layer<P>>, id: u128) -> (index: Option<usize>)
    ensures
        index matches Some(i) ==> i == position(layers@, id),
        index is None ==> position(layers@, id) == -1,
{
    let mut i: usize = 0;
    while i < layers.len()
        invariant
            i <= layers.len(),
            find_from(layers@, id, i as int) == position(layers@, id),
        decreases layers.len() - i,
    {
        if layers[i].id == id {
            return Some(i);
        }
        i = i + 1;
    }
    None
}

/// `selected` with the membership of `id` reversed.
pub open spec fn toggled(selected: Set<u128>, id: u128) -> Set<u128> {
    if selected.contains(id) {
        selected.remove(id)
    } else {
        selected.insert(id)
    }
}

/// Extending the selection with the same layer twice gives the selection back.
pub proof fn lemma_toggle_twice(selected: Set<u128>, id: u128)
    ensures
        toggled(toggled(selected, id), id) == selected,
{
    assert(toggled(toggled(selected, id), id) =~= selected);
}

impl<P> Document<P> {
    /// A document of the given size holding one blank layer named "Layer 1",
    /// which is active and selected; `first` is that layer's content.
    pub fn new(width: u32, height: u32, first: P) -> (result: Result<Self, SizeError>)
        ensures
            result is Ok <==> size_ok(width, height),
            !size_ok(width, height) ==> result == Err::<Self, SizeError>(
                if side_ok(width) && side_ok(height) { SizeError::TooManyPixels } else { SizeError::Dimensions },
            ),
            result matches Ok(doc) ==> {
                &&& doc.width == width
                &&& doc.height == height
                &&& doc.layers@.len() == 1
                &&& doc.layers@[0].name@ == "Layer 1"@
                &&& doc.layers@[0].visible && !doc.layers@[0].locked && !doc.layers@[0].group
                &&& doc.layers@[0].parent is None && doc.layers@[0].clip_to is None
                &&& !doc.layers@[0].standalone_mask
                &&& doc.layers@[0].content == first
                &&& doc.active == Some(doc.layers@[0].id)
                &&& doc.selected@ == set![doc.layers@[0].id]
                &&& structure_check(doc) is Ok
            },
    {
        match validate_size(width, height) {
            Err(e) => Err(e),
            Ok(()) => {
                let layer = Layer::blank(String::from_str("Layer 1"), first);
                let layer_id = layer.id;
                let mut selected = HashSet::new();
                selected.insert(layer_id);
                let mut layers = Vec::new();
                layers.push(layer);
                let doc = Document { id: new_id(), width, height, layers, active: Some(layer_id), selected };
                proof {
                    let l = doc.layers@;
                    reveal_strlit("Layer 1");
                    assert(!is_white_space(l[0].name@[0]));
                    lemma_utf8_len_bound(l[0].name@);
                    assert(ids(l) =~= seq![layer_id]);
                    assert(ids(l)[0] == layer_id);
                    assert(layer_check(l, 0) is Ok);
                    assert(layers_check_from(l, 1) is Ok);
                }
                Ok(doc)
            },
        }
    }

    /// Index of the active layer: the first layer with the active identifier.
    pub fn active_index(&self) -> (index: Option<usize>)
        ensures
            index matches Some(i) ==> i == position_opt(self.layers@, self.active),
            index is None ==> position_opt(self.layers@, self.active) == -1,
    {
        match self.active {
            Some(id) => find_layer(&self.layers, id),
            None => None,
        }
    }

    /// The active layer, if the document holds it.
    pub fn active(&self) -> (layer: Option<&Layer<P>>)
        ensures
            position_opt(self.layers@, self.active) == -1 ==> layer is None,
            position_opt(self.layers@, self.active) >= 0 ==> layer == Some(
                &self.layers@[position_opt(self.layers@, self.active)],
            ),
    {
        proof {
            if self.active is Some {
                lemma_position(self.layers@, self.active->0);
            }
        }
        match self.active_index() {
            Some(i) => Some(&self.layers[i]),
            None => None,
        }
    }

    /// The active layer, to be changed in place, if the document holds it.
    pub fn active_mut(&mut self) -> (layer: Option<&mut Layer<P>>)
        ensures
            position_opt(old(self).layers@, old(self).active) == -1 ==> layer is None && final(self).layers@
                == old(self).layers@,
            position_opt(old(self).layers@, old(self).active) >= 0 ==> ({
                let at = position_opt(old(self).layers@, old(self).active);
                &&& layer matches Some(l)
                &&& *l == old(self).layers@[at]
                &&& final(self).layers@ == old(self).layers@.update(at, *final(l))
            }),
            final(self).id == old(self).id,
            final(self).width == old(self).width,
            final(self).height == old(self).height,
            final(self).active == old(self).active,
            final(self).selected == old(self).selected,
    {
        proof {
            if self.active is Some {
                lemma_position(self.layers@, self.active->0);
            }
        }
        match self.active_index() {
            Some(i) => Some(&mut self.layers[i]),
            None => None,
        }
    }

    /// Make `id` active. Without `extend` it becomes the only selected layer;
    /// with `extend` its selection is toggled.
    pub fn select(&mut self, id: u128, extend: bool)
        ensures
            final(self).active == Some(id),
            final(self).selected@ == if !extend {
                set![id]
            } else {
                toggled(old(self).selected@, id)
            },
            final(self).layers == old(self).layers,
            final(self).id == old(self).id,
            final(self).width == old(self).width,
            final(self).height == old(self).height,
    {
        if !extend {
            self.selected.clear();
        }
        if extend && self.selected.contains(&id) {
            self.selected.remove(&id);
        } else {
            self.selected.insert(id);
        }
        self.active = Some(id);
    }

    /// Insert `layer` above the active layer (on top when there is none),
    /// inside the active group or beside the active layer, and select it alone.
    pub fn insert(&mut self, layer: Layer<P>)
        ensures
            ({
                let at = position_opt(old(self).layers@, old(self).active);
                let placed = if at >= 0 {
                    Layer {
                        parent: if old(self).layers@[at].group {
                            Some(old(self).layers@[at].id)
                        } else {
                            old(self).layers@[at].parent
                        },
                        ..layer
                    }
                } else {
                    layer
                };
                final(self).layers@ == old(self).layers@.insert(
                    if at >= 0 { at + 1 } else { old(self).layers@.len() as int },
                    placed,
                )
            }),
            final(self).active == Some(layer.id),
            final(self).selected@ == set![layer.id],
            final(self).id == old(self).id,
            final(self).width == old(self).width,
            final(self).height == old(self).height,
    {
        let mut layer = layer;
        let index = self.active_index();
        proof {
            if self.active is Some {
                lemma_position(self.layers@, self.active->0);
            }
        }
        match index {
            Some(i) => {
                layer.parent = if self.layers[i].group { Some(self.layers[i].id) } else { self.layers[i].parent };
            },
            None => {},
        }
        let at = match index {
            Some(i) => {
                assert(i == position(self.layers@, self.active->0));
                assert(i < self.layers.len());
                i + 1
            },
            None => self.layers.len(),
        };
        let id = layer.id;
        self.select(id, false);
        self.layers.insert(at, layer);
    }
}

/// `x` is `root`, or the identifier of a layer whose parent is in the family of
/// `root` within `k - 1` generations.
pub open spec fn within_family<P>(layers: Seq<Layer<P>>, root: u128, x: u128, k: nat) -> bool
    decreases k,
{
    x == root || (k > 0 && exists|i: int|
        0 <= i < layers.len() && #[trigger] layers[i].id == x && (layers[i].parent matches Some(p)
            && within_family(layers, root, p, (k - 1) as nat)))
}

/// `x` is `root` or, through any number of parent links, a descendant of it.
pub open spec fn in_family<P>(layers: Seq<Layer<P>>, root: u128, x: u128) -> bool {
    exists|k: nat| within_family(layers, root, x, k)
}

/// The layer at `i` has a parent that `s` holds.
pub open spec fn parent_in<P>(layer: Layer<P>, s: Set<u128>) -> bool {
    layer.parent matches Some(p) && s.contains(p)
}

/// `s` holds every layer whose parent it holds.
pub open spec fn closed_under_children<P>(layers: Seq<Layer<P>>, s: Set<u128>) -> bool {
    forall|i: int| 0 <= i < layers.len() && parent_in(#[trigger] layers[i], s) ==> s.contains(layers[i].id)
}

/// The identifiers of `layers`, bottom to top.
pub open spec fn ids<P>(layers: Seq<Layer<P>>) -> Seq<u128> {
    layers.map_values(|l: Layer<P>| l.id)
}

/// A set that holds `root` and is closed under children holds the whole family.
pub proof fn lemma_closed_holds_family<P>(layers: Seq<Layer<P>>, root: u128, s: Set<u128>, x: u128, k: nat)
    requires
        s.contains(root),
        closed_under_children(layers, s),
        within_family(layers, root, x, k),
    ensures
        s.contains(x),
    decreases k,
{
    if x != root {
        let i = choose|i: int|
            0 <= i < layers.len() && #[trigger] layers[i].id == x && (layers[i].parent matches Some(p)
                && within_family(layers, root, p, (k - 1) as nat));
        let p = layers[i].parent->0;
        lemma_closed_holds_family(layers, root, s, p, (k - 1) as nat);
        assert(parent_in(layers[i], s));
    }
}

/// A layer whose parent is in the family is in the family.
pub proof fn lemma_child_in_family<P>(layers: Seq<Layer<P>>, root: u128, i: int)
    requires
        0 <= i < layers.len(),
        layers[i].parent matches Some(p) && in_family(layers, root, p),
    ensures
        in_family(layers, root, layers[i].id),
{
    let p = layers[i].parent->0;
    let k = choose|k: nat| within_family(layers, root, p, k);
    assert(within_family(layers, root, layers[i].id, k + 1));
}

impl<P> Document<P> {
    /// The layer `id` and all layers nested below it, through any depth of groups.
    pub fn descendants(&self, id: u128) -> (result: HashSet<u128>)
        ensures
            forall|x: u128| result@.contains(x) <==> in_family(self.layers@, id, x),
    {
        let ghost layers = self.layers@;
        let ghost bound = ids(layers).to_set().insert(id);
        proof {
            ids(layers).lemma_cardinality_of_set();
            assert(within_family(layers, id, id, 0));
        }
        let mut result: HashSet<u128> = HashSet::new();
        result.insert(id);
        let n = self.layers.len();
        loop
            invariant
                n == self.layers.len(),
                layers == self.layers@,
                bound == ids(layers).to_set().insert(id),
                bound.len() <= n + 1,
                result@.contains(id),
                result@.subset_of(bound),
                forall|x: u128| result@.contains(x) ==> in_family(layers, id, x),
            ensures
                result@.contains(id),
                closed_under_children(layers, result@),
                forall|x: u128| result@.contains(x) ==> in_family(layers, id, x),
            decreases n + 1 - result@.len(),
        {
            let ghost start = result@;
            let count = result.len();
            proof {
                vstd::set_lib::lemma_len_subset(result@, bound);
            }
            for i in 0..n
                invariant
                    n == self.layers.len(),
                    layers == self.layers@,
                    bound == ids(layers).to_set().insert(id),
                    result@.contains(id),
                    result@.subset_of(bound),
                    result@.finite(),
                    start.finite(),
                    start.subset_of(result@),
                    count == start.len(),
                    result@.len() == count ==> result@ == start,
                    forall|x: u128| result@.contains(x) ==> in_family(layers, id, x),
                    result@ == start ==> forall|j: int|
                        0 <= j < i && parent_in(#[trigger] layers[j], start) ==> start.contains(layers[j].id),
            {
                if let Some(p) = self.layers[i].parent {
                    if result.contains(&p) {
                        proof {
                            lemma_child_in_family(layers, id, i as int);
                            assert(ids(layers)[i as int] == layers[i as int].id);
                            vstd::set_lib::lemma_len_subset(start, result@);
                        }
                        result.insert(self.layers[i].id);
                    }
                }
            }
            if result.len() == count {
                break;
            }
            proof {
                vstd::set_lib::lemma_len_subset(start, result@);
                vstd::set_lib::lemma_len_subset(result@, bound);
            }
        }
        proof {
            assert forall|x: u128| in_family(layers, id, x) implies result@.contains(x) by {
                let k = choose|k: nat| within_family(layers, id, x, k);
                lemma_closed_holds_family(layers, id, result@, x, k);
            }
        }
        result
    }

    /// The selected layers and everything nested below them.
    pub fn transform_targets(&self) -> (result: HashSet<u128>)
        ensures
            forall|x: u128| #[trigger] result@.contains(x) <==> in_targets(self.layers@, self.selected@, x),
    {
        let ghost layers = self.layers@;
        let mut result: HashSet<u128> = HashSet::new();
        let ghost mut done: Set<u128> = Set::empty();
        for s in it: self.selected.iter()
            invariant
                layers == self.layers@,
                it.seq().unref().to_set() == self.selected@,
                forall|k: u128| #[trigger] done.contains(k) <==> exists|j: int| 0 <= j < it.index() && *it.seq()[j] == k,
                it.index() == it.seq().len() ==> done == self.selected@,
                forall|x: u128| #[trigger] result@.contains(x) <==> in_targets(layers, done, x),
        {
            let family = self.descendants(*s);
            let ghost before = result@;
            for x in it2: family.iter()
                invariant
                    it2.seq().unref().to_set() == family@,
                    forall|y: u128| #[trigger] result@.contains(y) <==> (before.contains(y) || exists|j: int|
                        0 <= j < it2.index() && *it2.seq()[j] == y),
                    it2.index() == it2.seq().len() ==> result@ == before.union(family@),
            {
                result.insert(*x);
                assert(it2.index() + 1 == it2.seq().len() ==> result@ == before.union(family@)) by {
                    if it2.index() + 1 == it2.seq().len() {
                        assert forall|y: u128| result@.contains(y) <==> before.union(family@).contains(y) by {
                            if family@.contains(y) {
                                assert(it2.seq().unref().to_set().contains(y));
                                let j = choose|j: int| 0 <= j < it2.seq().unref().len() && it2.seq().unref()[j] == y;
                                assert(*it2.seq()[j] == y);
                            }
                            if result@.contains(y) && !before.contains(y) {
                                let j = choose|j: int| 0 <= j < it2.index() + 1 && *it2.seq()[j] == y;
                                assert(it2.seq().unref()[j] == y);
                                assert(it2.seq().unref().to_set().contains(y));
                            }
                        }
                        assert(result@ =~= before.union(family@));
                    }
                }
            }
            assert(result@ == before.union(family@));
            let ghost next = done.insert(*s);
            proof {
                assert forall|x: u128| #[trigger] result@.contains(x) <==> in_targets(layers, next, x) by {
                    if in_targets(layers, next, x) {
                        let t = choose|t: u128| next.contains(t) && in_family(layers, t, x);
                        if t != *s {
                            assert(done.contains(t));
                            assert(in_targets(layers, done, x));
                            assert(before.contains(x));
                        } else {
                            assert(family@.contains(x));
                        }
                    }
                    if result@.contains(x) {
                        if before.contains(x) {
                            assert(in_targets(layers, done, x));
                            let t = choose|t: u128| done.contains(t) && in_family(layers, t, x);
                            assert(next.contains(t));
                        } else {
                            assert(family@.contains(x));
                            assert(in_family(layers, *s, x));
                            assert(next.contains(*s));
                        }
                    }
                }
            }
            assert forall|k: u128| #[trigger] next.contains(k) <==> exists|j: int|
                0 <= j < it.index() + 1 && *it.seq()[j] == k by {
                if k == *s {
                    assert(*it.seq()[it.index()] == k);
                }
            }
            assert(it.index() + 1 == it.seq().len() ==> next == self.selected@) by {
                if it.index() + 1 == it.seq().len() {
                    assert forall|k: u128| next.contains(k) <==> self.selected@.contains(k) by {
                        if self.selected@.contains(k) {
                            assert(it.seq().unref().to_set().contains(k));
                            let j = choose|j: int| 0 <= j < it.seq().unref().len() && it.seq().unref()[j] == k;
                            assert(*it.seq()[j] == k);
                        }
                        if next.contains(k) {
                            let j = choose|j: int| 0 <= j < it.index() + 1 && *it.seq()[j] == k;
                            assert(it.seq().unref()[j] == k);
                            assert(it.seq().unref().to_set().contains(k));
                        }
                    }
                    assert(next =~= self.selected@);
                }
            }
            proof {
                done = next;
            }
        }
        result
    }
}

/// `x` is a selected layer or nested below one.
pub open spec fn in_targets<P>(layers: Seq<Layer<P>>, selected: Set<u128>, x: u128) -> bool {
    exists|s: u128| selected.contains(s) && in_family(layers, s, x)
}

/// The layers whose identifiers `dead` does not hold, in order, with
/// clipping links to dead layers removed.
pub open spec fn surviving<P>(layers: Seq<Layer<P>>, dead: Set<u128>) -> Seq<Layer<P>>
    decreases layers.len(),
{
    if layers.len() == 0 {
        Seq::empty()
    } else {
        let rest = surviving(layers.drop_last(), dead);
        let l = layers.last();
        if dead.contains(l.id) {
            rest
        } else if l.clip_to matches Some(c) && dead.contains(c) {
            rest.push(Layer { clip_to: None, ..l })
        } else {
            rest.push(l)
        }
    }
}

/// The selected layers and their descendants, as a set.
pub open spec fn target_set<P>(layers: Seq<Layer<P>>, selected: Set<u128>) -> Set<u128> {
    Set::new(|x: u128| in_targets(layers, selected, x))
}

impl<P> Document<P> {
    /// Delete the selected layers with everything nested below them, drop
    /// clipping links to deleted layers, and make the top layer active and
    /// alone selected.
    pub fn delete_selected(&mut self)
        ensures
            final(self).layers@ == surviving(old(self).layers@, target_set(old(self).layers@, old(self).selected@)),
            clear_of(final(self).layers@, target_set(old(self).layers@, old(self).selected@)),
            structure_check(*old(self)) is Ok ==> structure_check(*final(self)) is Ok,
            final(self).layers@.len() == 0 ==> final(self).active is None && final(self).selected@ == Set::<u128>::empty(),
            final(self).layers@.len() > 0 ==> final(self).active == Some(final(self).layers@.last().id)
                && final(self).selected@ == set![final(self).layers@.last().id],
            final(self).id == old(self).id,
            final(self).width == old(self).width,
            final(self).height == old(self).height,
    {
        let deleted = self.transform_targets();
        let ghost dead = target_set(self.layers@, self.selected@);
        assert(deleted@ =~= dead);
        let mut rest: Vec<Layer<P>> = Vec::new();
        std::mem::swap(&mut rest, &mut self.layers);
        let ghost orig = rest@;
        let ghost mut taken: int = 0;
        while rest.len() > 0
            invariant
                self.id == old(self).id,
                self.width == old(self).width,
                self.height == old(self).height,
                deleted@ == dead,
                0 <= taken <= orig.len(),
                rest@ == orig.subrange(taken, orig.len() as int),
                self.layers@ == surviving(orig.subrange(0, taken), dead),
            decreases rest.len(),
        {
            let mut layer = rest.remove(0);
            proof {
                assert(orig.subrange(0, taken + 1).drop_last() =~= orig.subrange(0, taken));
                assert(orig.subrange(0, taken + 1).last() == layer);
            }
            if !deleted.contains(&layer.id) {
                match layer.clip_to {
                    Some(c) => {
                        if deleted.contains(&c) {
                            layer.clip_to = None;
                        }
                    },
                    None => {},
                }
                self.layers.push(layer);
            }
            proof {
                taken = taken + 1;
                assert(rest@ =~= orig.subrange(taken, orig.len() as int));
            }
        }
        assert(orig.subrange(0, orig.len() as int) =~= orig);
        self.selected.clear();
        if self.layers.len() > 0 {
            let top = self.layers[self.layers.len() - 1].id;
            self.active = Some(top);
            self.selected.insert(top);
        } else {
            self.active = None;
        }
        proof {
            lemma_targets_closed(orig, old(self).selected@);
            lemma_survivors_clear(orig, dead);
            if structure_check(*old(self)) is Ok {
                lemma_deletion_keeps_structure(*old(self), *self);
            }
        }
    }
}

/// Longest accepted layer name, in bytes.
pub const MAX_NAME_BYTES: usize = 16_384;

/// Deepest accepted group nesting, counting the layer itself.
pub const MAX_GROUP_CHAIN: usize = 65;

/// Longest accepted chain of clipping links, counting the layer itself.
pub const MAX_CLIP_CHAIN: usize = 257;

/// Why a document's structure was refused.
#[derive(Clone, Copy, Debug, PartialEq, Eq)]
pub enum DocumentError {
    /// The canvas size is refused.
    Size(SizeError),
    /// More than `MAX_LAYERS` layers.
    TooManyLayers,
    /// Two layers share an identifier.
    DuplicateIds,
    /// The active identifier names no layer.
    MissingActive,
    /// A layer name is blank or longer than `MAX_NAME_BYTES`.
    InvalidName,
    /// Group parents form a cycle or nest too deeply.
    CyclicGroups,
    /// A parent names no layer, or a layer that is not a group.
    MissingParent,
    /// A group clips, or clipping links form a cycle or a chain that is too long.
    InvalidClipping,
    /// A clipping link names no layer, or names a group.
    MissingClipSource,
    /// A group or an adjustment layer holds pixels.
    GroupPixels,
    /// The layers' images, or their masks, exceed `MAX_PIXELS` together.
    AssetBudget,
}

/// The message shown for a refused document structure.
pub open spec fn error_text(e: DocumentError) -> Seq<char> {
    match e {
        DocumentError::Size(e) => size_text(e),
        DocumentError::TooManyLayers => "Too many layers"@,
        DocumentError::DuplicateIds => "Duplicate layer identifiers"@,
        DocumentError::MissingActive => "Missing active layer"@,
        DocumentError::InvalidName => "Invalid layer name"@,
        DocumentError::CyclicGroups => "Cyclic or excessively nested groups"@,
        DocumentError::MissingParent => "Missing parent group"@,
        DocumentError::InvalidClipping => "Invalid clipping mask graph"@,
        DocumentError::MissingClipSource => "Missing clipping source"@,
        DocumentError::GroupPixels => "Group/adjustment cannot contain pixels"@,
        DocumentError::AssetBudget => "Project exceeds the 100 megapixel asset limit"@,
    }
}

impl DocumentError {
    /// The message shown for the error.
    pub fn message(&self) -> (text: &'static str)
        ensures
            text@ == error_text(*self),
    {
        match self {
            DocumentError::Size(e) => e.message(),
            DocumentError::TooManyLayers => "Too many layers",
            DocumentError::DuplicateIds => "Duplicate layer identifiers",
            DocumentError::MissingActive => "Missing active layer",
            DocumentError::InvalidName => "Invalid layer name",
            DocumentError::CyclicGroups => "Cyclic or excessively nested groups",
            DocumentError::MissingParent => "Missing parent group",
            DocumentError::InvalidClipping => "Invalid clipping mask graph",
            DocumentError::MissingClipSource => "Missing clipping source",
            DocumentError::GroupPixels => "Group/adjustment cannot contain pixels",
            DocumentError::AssetBudget => "Project exceeds the 100 megapixel asset limit",
        }
    }
}

/// Outcome of following the parent links up from `parent`, where `visited`
/// holds the layer and the groups passed so far.
pub open spec fn parent_walk<P>(layers: Seq<Layer<P>>, visited: Seq<u128>, parent: Option<u128>) -> Result<(), DocumentError>
    decreases MAX_GROUP_CHAIN - visited.len(),
{
    match parent {
        None => Ok(()),
        Some(id) => {
            if visited.contains(id) || visited.len() + 1 > MAX_GROUP_CHAIN {
                Err(DocumentError::CyclicGroups)
            } else if position(layers, id) < 0 || !layers[position(layers, id)].group {
                Err(DocumentError::MissingParent)
            } else {
                parent_walk(layers, visited.push(id), layers[position(layers, id)].parent)
            }
        },
    }
}

/// Outcome of following the clipping links from `source` for a layer that is
/// (`group`) or is not a group, where `visited` holds the layers passed so far.
pub open spec fn clip_walk<P>(layers: Seq<Layer<P>>, group: bool, visited: Seq<u128>, source: Option<u128>) -> Result<(), DocumentError>
    decreases MAX_CLIP_CHAIN - visited.len(),
{
    match source {
        None => Ok(()),
        Some(id) => {
            if group || visited.contains(id) || visited.len() + 1 > MAX_CLIP_CHAIN {
                Err(DocumentError::InvalidClipping)
            } else if position(layers, id) < 0 || layers[position(layers, id)].group {
                Err(DocumentError::MissingClipSource)
            } else {
                clip_walk(layers, group, visited.push(id), layers[position(layers, id)].clip_to)
            }
        },
    }
}

/// The first structural error of the layer at `i`: its name, then its
/// group ancestry, then its clipping chain.
pub open spec fn layer_check<P>(layers: Seq<Layer<P>>, i: int) -> Result<(), DocumentError> {
    let l = layers[i];
    if !has_visible_char(l.name@) || byte_len(l.name@) > MAX_NAME_BYTES {
        Err(DocumentError::InvalidName)
    } else if parent_walk(layers, seq![l.id], l.parent) is Err {
        parent_walk(layers, seq![l.id], l.parent)
    } else {
        clip_walk(layers, l.group, seq![l.id], l.clip_to)
    }
}

/// Length of the text in bytes of UTF-8, as `str::len` reports it.
pub open spec fn byte_len(s: Seq<char>) -> usize {
    vstd::utf8::encode_utf8(s).len() as usize
}

/// UTF-8 takes at most four bytes a character.
pub proof fn lemma_utf8_len_bound(s: Seq<char>)
    ensures
        vstd::utf8::encode_utf8(s).len() <= 4 * s.len(),
    decreases s.len(),
{
    if s.len() > 0 {
        lemma_utf8_len_bound(s.drop_first());
    }
}

/// The first structural error among the layers from `i` up.
pub open spec fn layers_check_from<P>(layers: Seq<Layer<P>>, i: int) -> Result<(), DocumentError>
    decreases layers.len() - i,
{
    if i < 0 || i >= layers.len() {
        Ok(())
    } else if layer_check(layers, i) is Err {
        layer_check(layers, i)
    } else {
        layers_check_from(layers, i + 1)
    }
}

/// The checks on the document as a whole: its size, the number of layers,
/// unique identifiers and an existing active layer.
pub open spec fn frame_check<P>(doc: Document<P>) -> Result<(), DocumentError> {
    if !size_ok(doc.width, doc.height) {
        Err(DocumentError::Size(
            if side_ok(doc.width) && side_ok(doc.height) { SizeError::TooManyPixels } else { SizeError::Dimensions },
        ))
    } else if doc.layers@.len() > MAX_LAYERS {
        Err(DocumentError::TooManyLayers)
    } else if !ids(doc.layers@).no_duplicates() {
        Err(DocumentError::DuplicateIds)
    } else if doc.active matches Some(a) && !ids(doc.layers@).contains(a) {
        Err(DocumentError::MissingActive)
    } else {
        Ok(())
    }
}

/// A layer name is accepted: it has a visible character and at most
/// `MAX_NAME_BYTES` bytes.
pub open spec fn name_ok(name: Seq<char>) -> bool {
    has_visible_char(name) && byte_len(name) <= MAX_NAME_BYTES
}

/// The structural verdict on a document: its size, the number of layers,
/// unique identifiers, an existing active layer, then each layer in turn.
pub open spec fn structure_check<P>(doc: Document<P>) -> Result<(), DocumentError> {
    if !size_ok(doc.width, doc.height) {
        Err(DocumentError::Size(
            if side_ok(doc.width) && side_ok(doc.height) { SizeError::TooManyPixels } else { SizeError::Dimensions },
        ))
    } else if doc.layers@.len() > MAX_LAYERS {
        Err(DocumentError::TooManyLayers)
    } else if !ids(doc.layers@).no_duplicates() {
        Err(DocumentError::DuplicateIds)
    } else if doc.active matches Some(a) && !ids(doc.layers@).contains(a) {
        Err(DocumentError::MissingActive)
    } else {
        layers_check_from(doc.layers@, 0)
    }
}

/// Whether `v` holds `x`.
fn holds(v: &Vec<u128>, x: u128) -> (result: bool)
    ensures
        result == v@.contains(x),
{
    let mut i: usize = 0;
    while i < v.len()
        invariant
            i <= v.len(),
            forall|j: int| 0 <= j < i ==> v@[j] != x,
        decreases v.len() - i,
    {
        if v[i] == x {
            return true;
        }
        i = i + 1;
    }
    false
}

/// Follow the parent links of the layer `id` up from `parent`.
pub(crate) fn check_parents<P>(layers: &Vec<Layer<P>>, id: u128, parent: Option<u128>) -> (result: Result<(), DocumentError>)
    ensures
        result == parent_walk(layers@, seq![id], parent),
{
    let mut visited: Vec<u128> = Vec::new();
    visited.push(id);
    let mut cursor = parent;
    assert(visited@ =~= seq![id]);
    loop
        invariant
            1 <= visited@.len() <= MAX_GROUP_CHAIN,
            parent_walk(layers@, visited@, cursor) == parent_walk(layers@, seq![id], parent),
        decreases MAX_GROUP_CHAIN - visited@.len(),
    {
        match cursor {
            None => return Ok(()),
            Some(p) => {
                if holds(&visited, p) || visited.len() + 1 > MAX_GROUP_CHAIN {
                    return Err(DocumentError::CyclicGroups);
                }
                proof {
                    lemma_position(layers@, p);
                }
                match find_layer(layers, p) {
                    None => return Err(DocumentError::MissingParent),
                    Some(g) => {
                        if !layers[g].group {
                            return Err(DocumentError::MissingParent);
                        }
                        visited.push(p);
                        cursor = layers[g].parent;
                    },
                }
            },
        }
    }
}

/// Follow the clipping links of the layer `id` (a group or not) from `source`.
pub(crate) fn check_clipping<P>(layers: &Vec<Layer<P>>, id: u128, group: bool, source: Option<u128>) -> (result: Result<(), DocumentError>)
    ensures
        result == clip_walk(layers@, group, seq![id], source),
{
    let mut visited: Vec<u128> = Vec::new();
    visited.push(id);
    let mut cursor = source;
    assert(visited@ =~= seq![id]);
    loop
        invariant
            1 <= visited@.len() <= MAX_CLIP_CHAIN,
            clip_walk(layers@, group, visited@, cursor) == clip_walk(layers@, group, seq![id], source),
        decreases MAX_CLIP_CHAIN - visited@.len(),
    {
        match cursor {
            None => return Ok(()),
            Some(c) => {
                if group || holds(&visited, c) || visited.len() + 1 > MAX_CLIP_CHAIN {
                    return Err(DocumentError::InvalidClipping);
                }
                proof {
                    lemma_position(layers@, c);
                }
                match find_layer(layers, c) {
                    None => return Err(DocumentError::MissingClipSource),
                    Some(t) => {
                        if layers[t].group {
                            return Err(DocumentError::MissingClipSource);
                        }
                        visited.push(c);
                        cursor = layers[t].clip_to;
                    },
                }
            },
        }
    }
}

impl<P> Document<P> {
    /// Check the document's structure: canvas size, layer count, unique
    /// identifiers, the active layer, and for each layer its name, its group
    /// ancestry and its clipping chain.
    pub fn validate(&self) -> (result: Result<(), DocumentError>)
        ensures
            result == structure_check(*self),
    {
        match self.check_frame() {
            Err(e) => return Err(e),
            Ok(()) => {},
        }
        let ghost layers = self.layers@;
        let mut i: usize = 0;
        while i < self.layers.len()
            invariant
                layers == self.layers@,
                i <= layers.len(),
                structure_check(*self) == layers_check_from(layers, 0),
                layers_check_from(layers, 0) == layers_check_from(layers, i as int),
            decreases layers.len() - i,
        {
            let layer = &self.layers[i];
            if !check_name(layer.name.as_str()) {
                return Err(DocumentError::InvalidName);
            }
            match check_parents(&self.layers, layer.id, layer.parent) {
                Err(e) => return Err(e),
                Ok(()) => {},
            }
            match check_clipping(&self.layers, layer.id, layer.group, layer.clip_to) {
                Err(e) => return Err(e),
                Ok(()) => {},
            }
            i = i + 1;
        }
        Ok(())
    }

    /// Check the document as a whole: canvas size, layer count, unique
    /// identifiers and the active layer.
    pub(crate) fn check_frame(&self) -> (result: Result<(), DocumentError>)
        ensures
            result == frame_check(*self),
    {
        match validate_size(self.width, self.height) {
            Err(e) => return Err(DocumentError::Size(e)),
            Ok(()) => {},
        }
        if self.layers.len() > MAX_LAYERS {
            return Err(DocumentError::TooManyLayers);
        }
        let ghost layers = self.layers@;
        let mut seen: HashSet<u128> = HashSet::new();
        for i in 0..self.layers.len()
            invariant
                layers == self.layers@,
                seen@ == ids(layers).take(i as int).to_set(),
        {
            seen.insert(self.layers[i].id);
            assert(ids(layers).take(i + 1) =~= ids(layers).take(i as int).push(layers[i as int].id));
            proof {
                ids(layers).take(i as int).lemma_push_to_set_commute(layers[i as int].id);
            }
        }
        assert(ids(layers).take(layers.len() as int) =~= ids(layers));
        proof {
            if ids(layers).no_duplicates() {
                ids(layers).unique_seq_to_set();
            }
            if seen@.len() == layers.len() {
                ids(layers).lemma_no_dup_set_cardinality();
            }
        }
        if seen.len() != self.layers.len() {
            return Err(DocumentError::DuplicateIds);
        }
        match self.active {
            Some(a) => {
                if !seen.contains(&a) {
                    return Err(DocumentError::MissingActive);
                }
            },
            None => {},
        }
        Ok(())
    }
}

/// Whether a layer may carry the name `name`.
pub(crate) fn check_name(name: &str) -> (ok: bool)
    ensures
        ok == name_ok(name@),
{
    let visible = not_blank(name);
    let length = name.len();
    visible && length <= MAX_NAME_BYTES
}

impl<P> Document<P> {
    /// Put `layer` in place of the layer that has its identifier, as long as
    /// the document's structure still passes the check; otherwise keep the old
    /// layer and report why.
    pub fn replace_layer(&mut self, layer: Layer<P>) -> (result: Result<(), DocumentError>)
        requires
            position(old(self).layers@, layer.id) >= 0,
        ensures
            exists|d: Document<P>|
                {
                    &&& d.width == old(self).width
                    &&& d.height == old(self).height
                    &&& d.active == old(self).active
                    &&& d.layers@ == old(self).layers@.update(position(old(self).layers@, layer.id), layer)
                    &&& #[trigger] structure_check(d) == result
                },
            result is Ok ==> final(self).layers@ == old(self).layers@.update(position(old(self).layers@, layer.id), layer),
            result is Err ==> final(self).layers@ == old(self).layers@,
            final(self).id == old(self).id,
            final(self).width == old(self).width,
            final(self).height == old(self).height,
            final(self).active == old(self).active,
            final(self).selected == old(self).selected,
    {
        proof {
            lemma_position(self.layers@, layer.id);
        }
        let index = find_layer(&self.layers, layer.id).unwrap();
        let mut layer = layer;
        std::mem::swap(&mut self.layers[index], &mut layer);
        let ghost candidate = *self;
        let result = self.validate();
        assert(structure_check(candidate) == result);
        if result.is_err() {
            std::mem::swap(&mut self.layers[index], &mut layer);
            assert(self.layers@ =~= old(self).layers@);
        }
        result
    }
}

/// Deepest group level that painting descends into.
pub const MAX_PAINT_DEPTH: usize = 64;

/// Indices of the painted layers among the first `n` layers that sit directly
/// under `parent`, at nesting `depth`, bottom to top: a group contributes its
/// own painted contents in place, other layers themselves.
pub open spec fn paint_upto<P>(layers: Seq<Layer<P>>, parent: Option<u128>, depth: int, n: int) -> Seq<int>
    decreases MAX_PAINT_DEPTH + 1 - depth, n,
{
    if depth > MAX_PAINT_DEPTH || n <= 0 || n > layers.len() {
        Seq::empty()
    } else {
        let before = paint_upto(layers, parent, depth, n - 1);
        let l = layers[n - 1];
        if l.parent != parent {
            before
        } else if l.group {
            before + paint_upto(layers, Some(l.id), depth + 1, layers.len() as int)
        } else {
            before.push(n - 1)
        }
    }
}

/// Indices of the layers in painting order: a depth-first, bottom-to-top walk
/// from the top level that keeps each group's contents together and skips
/// groups nested deeper than `MAX_PAINT_DEPTH`.
pub open spec fn paint_sequence<P>(layers: Seq<Layer<P>>) -> Seq<int> {
    paint_upto(layers, None, 0, layers.len() as int)
}

/// Every index that `paint_upto` yields is a non-group layer.
pub proof fn lemma_paint_upto_bounds<P>(layers: Seq<Layer<P>>, parent: Option<u128>, depth: int, n: int)
    ensures
        forall|k: int| 0 <= k < paint_upto(layers, parent, depth, n).len() ==> {
            let i = #[trigger] paint_upto(layers, parent, depth, n)[k];
            0 <= i < layers.len() && !layers[i].group
        },
    decreases MAX_PAINT_DEPTH + 1 - depth, n,
{
    if !(depth > MAX_PAINT_DEPTH || n <= 0 || n > layers.len()) {
        lemma_paint_upto_bounds(layers, parent, depth, n - 1);
        let l = layers[n - 1];
        if l.parent == parent && l.group {
            lemma_paint_upto_bounds(layers, Some(l.id), depth + 1, layers.len() as int);
        }
    }
}

/// The layer at `i` sits `k` group levels below `parent`: its own parent is
/// `parent` when `k` is zero, and otherwise its parent is a group layer that
/// sits `k - 1` levels below `parent`.
pub open spec fn nested_under<P>(layers: Seq<Layer<P>>, i: int, parent: Option<u128>, k: nat) -> bool
    decreases k,
{
    if k == 0 {
        layers[i].parent == parent
    } else {
        exists|j: int|
            0 <= j < layers.len() && (#[trigger] layers[j]).group && layers[i].parent == Some(layers[j].id) && nested_under(
                layers,
                j,
                parent,
                (k - 1) as nat,
            )
    }
}

/// With unique identifiers, two layers with the same identifier are one.
proof fn lemma_same_id<P>(layers: Seq<Layer<P>>, a: int, b: int)
    requires
        ids(layers).no_duplicates(),
        0 <= a < layers.len(),
        0 <= b < layers.len(),
        layers[a].id == layers[b].id,
    ensures
        a == b,
{
    assert(ids(layers)[a] == ids(layers)[b]);
}

/// With unique identifiers, the group `k` levels above a layer is one:
/// the parent it sits under is determined.
proof fn lemma_nested_parent<P>(layers: Seq<Layer<P>>, j: int, a: Option<u128>, b: Option<u128>, k: nat)
    requires
        ids(layers).no_duplicates(),
        nested_under(layers, j, a, k),
        nested_under(layers, j, b, k),
    ensures
        a == b,
    decreases k,
{
    if k > 0 {
        let j1 = choose|x: int|
            0 <= x < layers.len() && (#[trigger] layers[x]).group && layers[j].parent == Some(layers[x].id) && nested_under(
                layers,
                x,
                a,
                (k - 1) as nat,
            );
        let j2 = choose|x: int|
            0 <= x < layers.len() && (#[trigger] layers[x]).group && layers[j].parent == Some(layers[x].id) && nested_under(
                layers,
                x,
                b,
                (k - 1) as nat,
            );
        lemma_same_id(layers, j1, j2);
        lemma_nested_parent(layers, j1, a, b, (k - 1) as nat);
    }
}

/// With unique identifiers, a layer sits at one depth below the top level.
proof fn lemma_nested_depth<P>(layers: Seq<Layer<P>>, j: int, d1: nat, d2: nat)
    requires
        ids(layers).no_duplicates(),
        nested_under(layers, j, None, d1),
        nested_under(layers, j, None, d2),
    ensures
        d1 == d2,
    decreases d1,
{
    if d1 > 0 && d2 > 0 {
        let j1 = choose|x: int|
            0 <= x < layers.len() && (#[trigger] layers[x]).group && layers[j].parent == Some(layers[x].id) && nested_under(
                layers,
                x,
                None,
                (d1 - 1) as nat,
            );
        let j2 = choose|x: int|
            0 <= x < layers.len() && (#[trigger] layers[x]).group && layers[j].parent == Some(layers[x].id) && nested_under(
                layers,
                x,
                None,
                (d2 - 1) as nat,
            );
        lemma_same_id(layers, j1, j2);
        lemma_nested_depth(layers, j1, (d1 - 1) as nat, (d2 - 1) as nat);
    }
}

/// A layer `k` levels below the group `c`, which sits `m` levels below
/// `parent`, sits `k + m + 1` levels below `parent`.
proof fn lemma_nested_compose<P>(layers: Seq<Layer<P>>, j: int, c: int, parent: Option<u128>, k: nat, m: nat)
    requires
        0 <= c < layers.len(),
        layers[c].group,
        nested_under(layers, j, Some(layers[c].id), k),
        nested_under(layers, c, parent, m),
    ensures
        nested_under(layers, j, parent, k + m + 1),
    decreases k,
{
    if k == 0 {
        assert(nested_under(layers, c, parent, ((k + m + 1) - 1) as nat));
    } else {
        let j1 = choose|x: int|
            0 <= x < layers.len() && (#[trigger] layers[x]).group && layers[j].parent == Some(layers[x].id) && nested_under(
                layers,
                x,
                Some(layers[c].id),
                (k - 1) as nat,
            );
        lemma_nested_compose(layers, j1, c, parent, (k - 1) as nat, m);
        assert(nested_under(layers, j1, parent, ((k + m + 1) - 1) as nat));
    }
}

/// A layer more than zero levels below `parent` sits below a group whose
/// parent is `parent`.
proof fn lemma_nested_top<P>(layers: Seq<Layer<P>>, j: int, parent: Option<u128>, k: nat)
    requires
        k > 0,
        nested_under(layers, j, parent, k),
    ensures
        exists|c: int|
            0 <= c < layers.len() && layers[c].group && layers[c].parent == parent && #[trigger] nested_under(
                layers,
                j,
                Some(layers[c].id),
                (k - 1) as nat,
            ),
    decreases k,
{
    let j1 = choose|x: int|
        0 <= x < layers.len() && (#[trigger] layers[x]).group && layers[j].parent == Some(layers[x].id) && nested_under(
            layers,
            x,
            parent,
            (k - 1) as nat,
        );
    if k == 1 {
        assert(nested_under(layers, j, Some(layers[j1].id), 0));
    } else {
        lemma_nested_top(layers, j1, parent, (k - 1) as nat);
        let c = choose|c: int|
            0 <= c < layers.len() && layers[c].group && layers[c].parent == parent && #[trigger] nested_under(
                layers,
                j1,
                Some(layers[c].id),
                (k - 2) as nat,
            );
        assert(nested_under(layers, j, Some(layers[c].id), (k - 1) as nat));
    }
}

/// The layer `j` is a painted layer reached from `parent` through a layer
/// `c` among the first `n`: `c` sits directly under `parent`, and `j` is `c`
/// itself or lies within the group `c`, `k` levels below `parent` with
/// `d + k` at most `MAX_PAINT_DEPTH`.
spec fn reached_through<P>(layers: Seq<Layer<P>>, parent: Option<u128>, d: int, n: int, j: int, c: int, k: nat) -> bool {
    &&& 0 <= c < n
    &&& c < layers.len()
    &&& layers[c].parent == parent
    &&& d + k <= MAX_PAINT_DEPTH
    &&& nested_under(layers, j, parent, k)
    &&& k == 0 ==> c == j
    &&& k > 0 ==> layers[c].group && nested_under(layers, j, Some(layers[c].id), (k - 1) as nat)
}

/// Every layer that painting from `parent` at nesting `d` yields among the
/// first `n` layers is a non-group layer reached through one of them.
proof fn lemma_paint_sound<P>(layers: Seq<Layer<P>>, parent: Option<u128>, d: int, n: int)
    requires
        0 <= d,
    ensures
        forall|t: int|
            0 <= t < paint_upto(layers, parent, d, n).len() ==> {
                let j = #[trigger] paint_upto(layers, parent, d, n)[t];
                &&& 0 <= j < layers.len()
                &&& !layers[j].group
                &&& exists|c: int, k: nat| #[trigger] reached_through(layers, parent, d, n, j, c, k)
            },
    decreases MAX_PAINT_DEPTH + 1 - d, n,
{
    if !(d > MAX_PAINT_DEPTH || n <= 0 || n > layers.len()) {
        let m = n - 1;
        let deeper = d + 1;
        let len = layers.len() as int;
        let inner = Some(layers[m].id);
        lemma_paint_sound(layers, parent, d, n - 1);
        let before = paint_upto(layers, parent, d, n - 1);
        let all = paint_upto(layers, parent, d, n);
        let l = layers[n - 1];
        assert forall|t: int| #![trigger before[t]] 0 <= t < before.len() implies exists|c: int, k: nat|
            #[trigger] reached_through(layers, parent, d, n, before[t], c, k) by {
            let j = before[t];
            let (c, k) = choose|c: int, k: nat| #[trigger] reached_through(layers, parent, d, m, j, c, k);
            assert(reached_through(layers, parent, d, n, j, c, k));
        }
        if l.parent == parent {
            if l.group {
                let sub = paint_upto(layers, Some(l.id), d + 1, layers.len() as int);
                lemma_paint_sound(layers, Some(l.id), d + 1, layers.len() as int);
                assert forall|t: int| 0 <= t < all.len() implies {
                    let j = #[trigger] all[t];
                    &&& 0 <= j < layers.len()
                    &&& !layers[j].group
                    &&& exists|c: int, k: nat| #[trigger] reached_through(layers, parent, d, n, j, c, k)
                } by {
                    if t >= before.len() {
                        let j = sub[t - before.len()];
                        assert(all[t] == j);
                        let (c2, k2) = choose|c: int, k: nat|
                            #[trigger] reached_through(layers, inner, deeper, len, j, c, k);
                        assert(nested_under(layers, n - 1, parent, 0));
                        lemma_nested_compose(layers, j, n - 1, parent, k2, 0);
                        assert(reached_through(layers, parent, d, n, j, n - 1, k2 + 1));
                    } else {
                        assert(all[t] == before[t]);
                    }
                }
            } else {
                assert forall|t: int| 0 <= t < all.len() implies {
                    let j = #[trigger] all[t];
                    &&& 0 <= j < layers.len()
                    &&& !layers[j].group
                    &&& exists|c: int, k: nat| #[trigger] reached_through(layers, parent, d, n, j, c, k)
                } by {
                    if t == before.len() {
                        assert(all[t] == n - 1);
                        assert(reached_through(layers, parent, d, n, n - 1, n - 1, 0));
                    } else {
                        assert(all[t] == before[t]);
                    }
                }
            }
        }
    }
}

/// Joining two sequences without duplicates that share no element gives a
/// sequence without duplicates.
proof fn lemma_join_distinct(a: Seq<int>, b: Seq<int>)
    requires
        a.no_duplicates(),
        b.no_duplicates(),
        forall|x: int| a.contains(x) ==> !b.contains(x),
    ensures
        (a + b).no_duplicates(),
{
    let ab = a + b;
    assert forall|i: int, j: int| 0 <= i < ab.len() && 0 <= j < ab.len() && i != j implies ab[i] != ab[j] by {
        if i < a.len() && j >= a.len() {
            assert(a.contains(ab[i]));
            assert(b[j - a.len()] == ab[j]);
        } else if j < a.len() && i >= a.len() {
            assert(a.contains(ab[j]));
            assert(b[i - a.len()] == ab[i]);
        } else if i >= a.len() {
            assert(ab[i] == b[i - a.len()] && ab[j] == b[j - a.len()]);
        }
    }
}

/// With unique identifiers, painting from `parent` at nesting `d`, where
/// every layer `k` levels below `parent` sits `d + k` levels below the top,
/// yields no layer twice.
proof fn lemma_paint_distinct<P>(layers: Seq<Layer<P>>, parent: Option<u128>, d: int, n: int)
    requires
        0 <= d,
        ids(layers).no_duplicates(),
        forall|j: int, k: nat|
            0 <= j < layers.len() && #[trigger] nested_under(layers, j, parent, k) ==> nested_under(
                layers,
                j,
                None,
                (d + k) as nat,
            ),
    ensures
        paint_upto(layers, parent, d, n).no_duplicates(),
    decreases MAX_PAINT_DEPTH + 1 - d, n,
{
    if !(d > MAX_PAINT_DEPTH || n <= 0 || n > layers.len()) {
        let m = n - 1;
        let deeper = d + 1;
        let len = layers.len() as int;
        let inner = Some(layers[m].id);
        lemma_paint_distinct(layers, parent, d, n - 1);
        lemma_paint_sound(layers, parent, d, n - 1);
        let before = paint_upto(layers, parent, d, n - 1);
        let l = layers[n - 1];
        if l.parent == parent {
            assert(nested_under(layers, n - 1, parent, 0));
            if l.group {
                let sub = paint_upto(layers, Some(l.id), d + 1, layers.len() as int);
                assert forall|j: int, k: nat|
                    0 <= j < layers.len() && #[trigger] nested_under(layers, j, Some(l.id), k) implies nested_under(
                    layers,
                    j,
                    None,
                    (d + 1 + k) as nat,
                ) by {
                    lemma_nested_compose(layers, j, n - 1, parent, k, 0);
                    assert(nested_under(layers, j, None, (d + (k + 1)) as nat));
                }
                lemma_paint_distinct(layers, Some(l.id), d + 1, layers.len() as int);
                lemma_paint_sound(layers, Some(l.id), d + 1, layers.len() as int);
                assert forall|x: int| before.contains(x) implies !sub.contains(x) by {
                    if sub.contains(x) {
                        let t1 = choose|t: int| 0 <= t < before.len() && before[t] == x;
                        let t2 = choose|t: int| 0 <= t < sub.len() && sub[t] == x;
                        assert(before[t1] == x);
                        assert(sub[t2] == x);
                        let (c1, k1) = choose|c: int, k: nat| #[trigger] reached_through(layers, parent, d, m, x, c, k);
                        let (c2, k2) = choose|c: int, k: nat|
                            #[trigger] reached_through(layers, inner, deeper, len, x, c, k);
                        lemma_nested_compose(layers, x, n - 1, parent, k2, 0);
                        assert(nested_under(layers, x, None, (d + k1) as nat));
                        assert(nested_under(layers, x, None, (d + (k2 + 1)) as nat));
                        lemma_nested_depth(layers, x, (d + k1) as nat, (d + (k2 + 1)) as nat);
                        lemma_nested_parent(layers, x, Some(layers[c1].id), Some(l.id), k2);
                        lemma_same_id(layers, c1, n - 1);
                    }
                }
                lemma_join_distinct(before, sub);
            } else {
                if before.contains(n - 1) {
                    let t1 = choose|t: int| 0 <= t < before.len() && before[t] == n - 1;
                    assert(before[t1] == n - 1);
                    let (c1, k1) = choose|c: int, k: nat| #[trigger] reached_through(layers, parent, d, m, m, c, k);
                    assert(nested_under(layers, n - 1, None, (d + k1) as nat));
                    assert(nested_under(layers, n - 1, None, (d + 0) as nat));
                    lemma_nested_depth(layers, n - 1, (d + k1) as nat, (d + 0) as nat);
                }
                assert(paint_upto(layers, parent, d, n) == before.push(n - 1));
                assert(before.push(n - 1) =~= before + seq![n - 1]);
                lemma_join_distinct(before, seq![n - 1]);
            }
        }
    }
}

/// Painting from `parent` at nesting `d` yields every non-group layer `j`
/// reached through one of the first `n` layers.
proof fn lemma_paint_complete<P>(layers: Seq<Layer<P>>, parent: Option<u128>, d: int, n: int, j: int, c: int, k: nat)
    requires
        0 <= d,
        n <= layers.len(),
        0 <= j < layers.len(),
        !layers[j].group,
        reached_through(layers, parent, d, n, j, c, k),
    ensures
        paint_upto(layers, parent, d, n).contains(j),
    decreases MAX_PAINT_DEPTH + 1 - d, n,
{
    let before = paint_upto(layers, parent, d, n - 1);
    let all = paint_upto(layers, parent, d, n);
    let l = layers[n - 1];
    if c < n - 1 {
        lemma_paint_complete(layers, parent, d, n - 1, j, c, k);
        let t = choose|t: int| 0 <= t < before.len() && before[t] == j;
        if l.parent == parent && !l.group {
            assert(all[t] == j);
        } else if l.parent == parent && l.group {
            assert(all[t] == before[t]);
        }
    } else if k == 0 {
        assert(all[before.len() as int] == j);
    } else {
        let sub = paint_upto(layers, Some(l.id), d + 1, layers.len() as int);
        if k == 1 {
            assert(reached_through(layers, Some(l.id), d + 1, layers.len() as int, j, j, 0));
            lemma_paint_complete(layers, Some(l.id), d + 1, layers.len() as int, j, j, 0);
        } else {
            lemma_nested_top(layers, j, Some(l.id), (k - 1) as nat);
            let c2 = choose|c2: int|
                0 <= c2 < layers.len() && layers[c2].group && layers[c2].parent == Some(l.id) && #[trigger] nested_under(
                    layers,
                    j,
                    Some(layers[c2].id),
                    (k - 2) as nat,
                );
            assert(reached_through(layers, Some(l.id), d + 1, layers.len() as int, j, c2, (k - 1) as nat));
            lemma_paint_complete(layers, Some(l.id), d + 1, layers.len() as int, j, c2, (k - 1) as nat);
        }
        let t = choose|t: int| 0 <= t < sub.len() && sub[t] == j;
        assert(all[before.len() + t] == j);
    }
}

/// With unique identifiers, the painting order holds each layer that is no
/// group and sits at most `MAX_PAINT_DEPTH` group levels below the top level
/// exactly once, and holds nothing else.
pub proof fn lemma_paint_order_exact<P>(layers: Seq<Layer<P>>)
    requires
        ids(layers).no_duplicates(),
    ensures
        forall|i: int, k: nat|
            0 <= i < layers.len() && !layers[i].group && k <= MAX_PAINT_DEPTH && #[trigger] nested_under(
                layers,
                i,
                None,
                k,
            ) ==> paint_sequence(layers).contains(i),
        paint_sequence(layers).no_duplicates(),
        forall|t: int|
            0 <= t < paint_sequence(layers).len() ==> {
                let i = #[trigger] paint_sequence(layers)[t];
                &&& 0 <= i < layers.len()
                &&& !layers[i].group
                &&& exists|k: nat| k <= MAX_PAINT_DEPTH && nested_under(layers, i, None, k)
            },
{
    let n = layers.len() as int;
    lemma_paint_sound(layers, None, 0, n);
    lemma_paint_distinct(layers, None, 0, n);
    assert forall|i: int, k: nat|
        0 <= i < layers.len() && !layers[i].group && k <= MAX_PAINT_DEPTH && #[trigger] nested_under(
            layers,
            i,
            None,
            k,
        ) implies paint_sequence(layers).contains(i) by {
        if k == 0 {
            assert(reached_through(layers, None, 0, n, i, i, 0));
            lemma_paint_complete(layers, None, 0, n, i, i, 0);
        } else {
            lemma_nested_top(layers, i, None, k);
            let c = choose|c: int|
                0 <= c < layers.len() && layers[c].group && layers[c].parent == None::<u128> && #[trigger] nested_under(
                    layers,
                    i,
                    Some(layers[c].id),
                    (k - 1) as nat,
                );
            assert(reached_through(layers, None, 0, n, i, c, k));
            lemma_paint_complete(layers, None, 0, n, i, c, k);
        }
    }
    assert forall|t: int| 0 <= t < paint_sequence(layers).len() implies {
        let i = #[trigger] paint_sequence(layers)[t];
        &&& 0 <= i < layers.len()
        &&& !layers[i].group
        &&& exists|k: nat| k <= MAX_PAINT_DEPTH && nested_under(layers, i, None, k)
    } by {
        let i = paint_sequence(layers)[t];
        let (c, k) = choose|c: int, k: nat| #[trigger] reached_through(layers, None, 0, n, i, c, k);
        assert(k <= MAX_PAINT_DEPTH && nested_under(layers, i, None, k));
    }
}

impl<P> Document<P> {
    fn visit<'a>(&'a self, parent: Option<u128>, out: &mut Vec<&'a Layer<P>>, depth: usize)
        requires
            depth <= MAX_PAINT_DEPTH + 1,
        ensures
            final(out)@ == old(out)@ + paint_upto(self.layers@, parent, depth as int, self.layers@.len() as int).map_values(
                |i: int| &self.layers@[i],
            ),
        decreases MAX_PAINT_DEPTH + 1 - depth,
    {
        let ghost layers = self.layers@;
        if depth > MAX_PAINT_DEPTH {
            assert(old(out)@ + Seq::<&Layer<P>>::empty() =~= old(out)@);
            return;
        }
        let ghost start = out@;
        let n = self.layers.len();
        for i in 0..n
            invariant
                n == self.layers.len(),
                layers == self.layers@,
                depth <= MAX_PAINT_DEPTH,
                out@ == start + paint_upto(layers, parent, depth as int, i as int).map_values(|k: int| &layers[k]),
        {
            let layer = &self.layers[i];
            let ghost before = paint_upto(layers, parent, depth as int, i as int);
            if layer.parent == parent {
                if layer.group {
                    self.visit(Some(layer.id), out, depth + 1);
                    assert(paint_upto(layers, parent, depth as int, i + 1) == before + paint_upto(
                        layers,
                        Some(layer.id),
                        depth + 1,
                        n as int,
                    ));
                    assert(out@ =~= start + paint_upto(layers, parent, depth as int, i + 1).map_values(|k: int| &layers[k]));
                } else {
                    out.push(layer);
                    assert(out@ =~= start + paint_upto(layers, parent, depth as int, i + 1).map_values(|k: int| &layers[k]));
                }
            } else {
                assert(paint_upto(layers, parent, depth as int, i + 1) == before);
            }
        }
    }

    /// The non-group layers in painting order: a depth-first, bottom-to-top
    /// walk that keeps each group's contents together.
    pub fn paint_order(&self) -> (order: Vec<&Layer<P>>)
        ensures
            order@ == paint_sequence(self.layers@).map_values(|i: int| &self.layers@[i]),
    {
        let mut out: Vec<&Layer<P>> = Vec::new();
        self.visit(None, &mut out, 0);
        assert(out@ =~= paint_sequence(self.layers@).map_values(|i: int| &self.layers@[i]));
        out
    }
}

/// The elements of `set`, each once, in the set's iteration order.
pub fn set_elements(set: &HashSet<u128>) -> (elements: Vec<u128>)
    ensures
        elements@.to_set() == set@,
        elements@.no_duplicates(),
{
    let mut elements: Vec<u128> = Vec::new();
    for x in it: set.iter()
        invariant
            it.seq().unref().to_set() == set@,
            it.seq().unref().no_duplicates(),
            elements@ == it.seq().unref().take(it.index()),
            it.index() == it.seq().len() ==> elements@.to_set() == set@ && elements@.no_duplicates(),
    {
        elements.push(*x);
        assert(elements@ == it.seq().unref().take(it.index() + 1)) by {
            assert(it.seq().unref().take(it.index() + 1) =~= it.seq().unref().take(it.index()).push(*x));
        }
        assert(it.index() + 1 == it.seq().len() ==> elements@.to_set() == set@ && elements@.no_duplicates()) by {
            if it.index() + 1 == it.seq().len() {
                assert(it.seq().unref().take(it.index() + 1) =~= it.seq().unref());
            }
        }
    }
    elements
}

/// The structure of a layer, without its content.
pub struct LayerShape {
    pub id: u128,
    pub name: Seq<char>,
    pub visible: bool,
    pub locked: bool,
    pub parent: Option<u128>,
    pub group: bool,
    pub clip_to: Option<u128>,
    pub standalone_mask: bool,
}

/// The structure of `l`.
pub open spec fn shape<P>(l: Layer<P>) -> LayerShape {
    LayerShape {
        id: l.id,
        name: l.name@,
        visible: l.visible,
        locked: l.locked,
        parent: l.parent,
        group: l.group,
        clip_to: l.clip_to,
        standalone_mask: l.standalone_mask,
    }
}

/// The structures of `layers`, in order.
pub open spec fn shapes<P>(layers: Seq<Layer<P>>) -> Seq<LayerShape> {
    layers.map_values(|l: Layer<P>| shape(l))
}

} // verus!
