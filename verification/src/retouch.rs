//! Retouching on 8-bit RGBA buffers: the pseudo-random sequence that
//! content-aware fill samples with, pixel neighborhoods, the choice of
//! source pixels and the order in which a selection is filled.
use vstd::prelude::*;

use std::collections::VecDeque;
use std::sync::atomic::{AtomicBool, Ordering};

verus! {

/// One step of the 32-bit xorshift generator (shifts 13, 17, 5).
pub open spec fn xorshift(s: u32) -> u32 {
    let a = s ^ ((s << 13u32) as u32);
    let b = a ^ (a >> 17u32);
    b ^ ((b << 5u32) as u32)
}

/// Advance the generator state and return the new state.
pub fn random(state: &mut u32) -> (value: u32)
    ensures
        *final(state) == xorshift(*old(state)),
        value == *final(state),
{
    *state = *state ^ (*state << 13u32);
    *state = *state ^ (*state >> 17u32);
    *state = *state ^ (*state << 5u32);
    *state
}

/// The 4-neighbors of (x, y) that lie inside a `width` by `height` image:
/// left, right, above, below, in that order.
pub open spec fn neighbor_cells(x: u32, y: u32, width: u32, height: u32) -> Seq<(u32, u32)> {
    let left: Seq<(u32, u32)> = if 0 < x && x - 1 < width && y < height { seq![((x - 1) as u32, y)] } else { seq![] };
    let right: Seq<(u32, u32)> = if x + 1 < width && y < height { seq![((x + 1) as u32, y)] } else { seq![] };
    let up: Seq<(u32, u32)> = if x < width && 0 < y && y - 1 < height { seq![(x, (y - 1) as u32)] } else { seq![] };
    let down: Seq<(u32, u32)> = if x < width && y + 1 < height { seq![(x, (y + 1) as u32)] } else { seq![] };
    left + right + up + down
}

/// The 4-neighbors of (x, y) inside the image.
pub fn neighbors(x: u32, y: u32, width: u32, height: u32) -> (cells: Vec<(u32, u32)>)
    requires
        x < u32::MAX,
        y < u32::MAX,
    ensures
        cells@ == neighbor_cells(x, y, width, height),
{
    let left = x.wrapping_sub(1);
    let up = y.wrapping_sub(1);
    assert(left == if x == 0 { u32::MAX } else { (x - 1) as u32 });
    assert(up == if y == 0 { u32::MAX } else { (y - 1) as u32 });
    let mut cells: Vec<(u32, u32)> = Vec::new();
    let ghost l0 = cells@;
    if left < width && y < height {
        cells.push((left, y));
    }
    let ghost l1 = cells@;
    if x + 1 < width && y < height {
        cells.push((x + 1, y));
    }
    let ghost l2 = cells@;
    if x < width && up < height {
        cells.push((x, up));
    }
    let ghost l3 = cells@;
    if x < width && y + 1 < height {
        cells.push((x, y + 1));
    }
    proof {
        let left_cell: Seq<(u32, u32)> = if 0 < x && x - 1 < width && y < height { seq![((x - 1) as u32, y)] } else { seq![] };
        let right_cell: Seq<(u32, u32)> = if x + 1 < width && y < height { seq![((x + 1) as u32, y)] } else { seq![] };
        let up_cell: Seq<(u32, u32)> = if x < width && 0 < y && y - 1 < height { seq![(x, (y - 1) as u32)] } else { seq![] };
        let down_cell: Seq<(u32, u32)> = if x < width && y + 1 < height { seq![(x, (y + 1) as u32)] } else { seq![] };
        assert(l1 =~= left_cell);
        assert(l2 =~= left_cell + right_cell);
        assert(l3 =~= left_cell + right_cell + up_cell);
        assert(cells@ =~= left_cell + right_cell + up_cell + down_cell);
    }
    cells
}

/// Most source pixels kept for random sampling.
pub const MAX_SOURCES: usize = 65_536;

/// Initial state of the generator that content-aware fill samples with.
pub const SAMPLING_SEED: u32 = 0x7d41_397b;

/// The cell of pixel index `i` in an image `width` pixels wide.
pub open spec fn cell_of(i: int, width: int) -> (u32, u32) {
    ((i % width) as u32, (i / width) as u32)
}

/// Pixel `i` may serve as a fill source: it is not selected and mostly opaque.
pub open spec fn eligible(image: Seq<u8>, mask: Seq<u8>, i: int) -> bool {
    mask[i] == 0 && image[4 * i + 3] > 128
}

/// Sampling state: the kept sources, the generator state and how many
/// eligible pixels were seen.
pub struct Sampling {
    pub sources: Seq<(u32, u32)>,
    pub state: u32,
    pub seen: int,
}

/// Reservoir sampling over the first `n` pixels in row order: the first
/// `MAX_SOURCES` eligible pixels are kept; each later one replaces the kept
/// source at a random slot below the number seen, when that slot exists.
pub open spec fn sampled(image: Seq<u8>, mask: Seq<u8>, width: int, n: int) -> Sampling
    decreases n,
{
    if n <= 0 {
        Sampling { sources: seq![], state: SAMPLING_SEED, seen: 0 }
    } else {
        let s = sampled(image, mask, width, n - 1);
        let cell = cell_of(n - 1, width);
        if !eligible(image, mask, n - 1) {
            s
        } else if s.sources.len() < MAX_SOURCES {
            Sampling { sources: s.sources.push(cell), seen: s.seen + 1, ..s }
        } else {
            let state = xorshift(s.state);
            let slot = (state as int) % (s.seen + 1);
            Sampling {
                sources: if slot < s.sources.len() { s.sources.update(slot, cell) } else { s.sources },
                state,
                seen: s.seen + 1,
            }
        }
    }
}

/// `sampled` keeps at most `MAX_SOURCES` sources, counts at most `n`
/// pixels, and keeps one source per eligible pixel up to the limit.
pub proof fn lemma_sampled_bounds(image: Seq<u8>, mask: Seq<u8>, width: int, n: int)
    requires
        0 <= n,
    ensures
        0 <= sampled(image, mask, width, n).seen <= n,
        sampled(image, mask, width, n).sources.len() <= MAX_SOURCES,
        sampled(image, mask, width, n).sources.len() == if sampled(image, mask, width, n).seen < MAX_SOURCES {
            sampled(image, mask, width, n).seen
        } else {
            MAX_SOURCES as int
        },
    decreases n,
{
    if n > 0 {
        lemma_sampled_bounds(image, mask, width, n - 1);
    }
}

/// Pick the fill sources of an image whose `mask` marks the selection, and
/// return them with the generator state reached.
pub fn sample_sources(image: &[u8], mask: &[u8], width: u32, height: u32) -> (result: (Vec<(u32, u32)>, u32))
    requires
        mask@.len() == width * height,
        image@.len() == 4 * mask@.len(),
    ensures
        result.0@ == sampled(image@, mask@, width as int, mask@.len() as int).sources,
        result.1 == sampled(image@, mask@, width as int, mask@.len() as int).state,
{
    let n = mask.len();
    assert(image@.len() == image.len());
    let mut sources: Vec<(u32, u32)> = Vec::new();
    let mut state: u32 = SAMPLING_SEED;
    let mut seen: usize = 0;
    let mut i: usize = 0;
    let mut x: u32 = 0;
    let mut y: u32 = 0;
    while i < n
        invariant
            n == mask@.len() == width * height,
            image@.len() == 4 * n,
            image@.len() <= usize::MAX,
            i <= n,
            i == y * width + x,
            x < width || n == 0,
            y <= height,
            sources@ == sampled(image@, mask@, width as int, i as int).sources,
            state == sampled(image@, mask@, width as int, i as int).state,
            seen == sampled(image@, mask@, width as int, i as int).seen,
        decreases n - i,
    {
        proof {
            lemma_sampled_bounds(image@, mask@, width as int, i as int);
            vstd::arithmetic::div_mod::lemma_fundamental_div_mod_converse(i as int, width as int, y as int, x as int);
        }
        assert(cell_of(i as int, width as int) == (x, y));
        if mask[i] == 0 && image[4 * i + 3] > 128 {
            seen = seen + 1;
            if sources.len() < MAX_SOURCES {
                sources.push((x, y));
            } else {
                let slot = (random(&mut state) as usize) % seen;
                if slot < sources.len() {
                    sources.set(slot, (x, y));
                }
            }
        }
        i = i + 1;
        if x + 1 == width {
            assert(i == (y + 1) * width + 0) by (nonlinear_arith)
                requires
                    i == y * width + x + 1,
                    x + 1 == width,
            ;
            assert(y + 1 <= height) by (nonlinear_arith)
                requires
                    i == (y + 1) * width,
                    i <= width * height,
                    width > 0,
            ;
            x = 0;
            y = y + 1;
        } else {
            x = x + 1;
        }
    }
    (sources, state)
}

/// The index of a cell in an image `width` pixels wide.
pub open spec fn index_of(cell: (u32, u32), width: int) -> int {
    cell.1 * width + cell.0
}

/// Some 4-neighbor of (x, y) is not selected.
pub open spec fn touches(mask: Seq<u8>, x: u32, y: u32, width: u32, height: u32) -> bool {
    exists|k: int|
        0 <= k < neighbor_cells(x, y, width, height).len() && mask[index_of(
            #[trigger] neighbor_cells(x, y, width, height)[k],
            width as int,
        )] == 0
}

/// Pixel `i` is selected and some 4-neighbor of it is not.
pub open spec fn on_boundary(mask: Seq<u8>, width: int, height: int, i: int) -> bool {
    mask[i] != 0 && touches(mask, cell_of(i, width).0, cell_of(i, width).1, width as u32, height as u32)
}

/// The boundary pixels among the first `n`, in row order.
pub open spec fn boundary(mask: Seq<u8>, width: int, height: int, n: int) -> Seq<(u32, u32)>
    decreases n,
{
    if n <= 0 {
        seq![]
    } else if on_boundary(mask, width, height, n - 1) {
        boundary(mask, width, height, n - 1).push(cell_of(n - 1, width))
    } else {
        boundary(mask, width, height, n - 1)
    }
}

/// A cell inside the image has an index inside it, and the cell of that
/// index is the cell.
pub proof fn lemma_cell_index(cell: (u32, u32), width: int, height: int)
    requires
        cell.0 < width,
        cell.1 < height,
    ensures
        0 <= index_of(cell, width) < width * height,
        cell_of(index_of(cell, width), width) == cell,
{
    assert(0 <= index_of(cell, width) < width * height) by (nonlinear_arith)
        requires
            cell.0 < width,
            cell.1 < height,
            index_of(cell, width) == cell.1 * width + cell.0,
    ;
    vstd::arithmetic::div_mod::lemma_fundamental_div_mod_converse(
        index_of(cell, width),
        width,
        cell.1 as int,
        cell.0 as int,
    );
}

/// The index of the cell (x, y) inside an image of `pixels` pixels that is
/// `width` wide and `height` high.
fn pixel_index(x: u32, y: u32, width: u32, height: u32, pixels: usize) -> (i: usize)
    requires
        x < width,
        y < height,
        pixels == width * height,
    ensures
        i == index_of((x, y), width as int),
        i < pixels,
{
    proof {
        lemma_cell_index((x, y), width as int, height as int);
    }
    assert((y as usize) * (width as usize) <= y * width + x) by (nonlinear_arith)
        requires
            y < height,
    ;
    (y as usize) * (width as usize) + (x as usize)
}

/// Whether some 4-neighbor of (x, y) is not selected.
fn touches_unselected(mask: &[u8], x: u32, y: u32, width: u32, height: u32) -> (found: bool)
    requires
        mask@.len() == width * height,
        x < width,
        y < height,
    ensures
        found == touches(mask@, x, y, width, height),
{
    let cells = neighbors(x, y, width, height);
    let mut k: usize = 0;
    while k < cells.len()
        invariant
            mask@.len() == width * height,
            cells@ == neighbor_cells(x, y, width, height),
            k <= cells@.len(),
            forall|j: int| 0 <= j < k ==> mask@[index_of(#[trigger] cells@[j], width as int)] != 0,
        decreases cells@.len() - k,
    {
        let (nx, ny) = cells[k];
        proof {
            lemma_neighbor_cells_inside(x, y, width, height);
            lemma_cell_index(cells@[k as int], width as int, height as int);
        }
        if mask[pixel_index(nx, ny, width, height, mask.len())] == 0 {
            return true;
        }
        k = k + 1;
    }
    false
}

/// The selected pixels that touch unselected ones, in row order, and for
/// each pixel whether it is one of them.
pub fn boundary_queue(mask: &[u8], width: u32, height: u32) -> (result: (VecDeque<(u32, u32)>, Vec<bool>))
    requires
        mask@.len() == width * height,
    ensures
        result.0@ == boundary(mask@, width as int, height as int, mask@.len() as int),
        result.1@.len() == mask@.len(),
        forall|i: int| 0 <= i < mask@.len() ==> result.1@[i] == on_boundary(mask@, width as int, height as int, i),
{
    let n = mask.len();
    let mut queue: VecDeque<(u32, u32)> = VecDeque::new();
    let mut queued: Vec<bool> = Vec::new();
    let mut i: usize = 0;
    let mut x: u32 = 0;
    let mut y: u32 = 0;
    while i < n
        invariant
            n == mask@.len() == width * height,
            i <= n,
            i == y * width + x,
            x < width || n == 0,
            y <= height,
            queue@ == boundary(mask@, width as int, height as int, i as int),
            queued@.len() == i,
            forall|j: int| 0 <= j < i ==> queued@[j] == on_boundary(mask@, width as int, height as int, j),
        decreases n - i,
    {
        proof {
            vstd::arithmetic::div_mod::lemma_fundamental_div_mod_converse(i as int, width as int, y as int, x as int);
        }
        assert(cell_of(i as int, width as int) == (x, y));
        assert(y < height) by (nonlinear_arith)
            requires
                i == y * width + x,
                i < width * height,
                x < width,
        ;
        let edge = mask[i] != 0 && touches_unselected(mask, x, y, width, height);
        assert((width as int) as u32 == width && (height as int) as u32 == height);
        assert(edge == on_boundary(mask@, width as int, height as int, i as int));
        if edge {
            queue.push_back((x, y));
        }
        queued.push(edge);
        i = i + 1;
        if x + 1 == width {
            assert(i == (y + 1) * width + 0) by (nonlinear_arith)
                requires
                    i == y * width + x + 1,
                    x + 1 == width,
            ;
            assert(y + 1 <= height) by (nonlinear_arith)
                requires
                    i == (y + 1) * width,
                    i <= width * height,
                    width > 0,
            ;
            x = 0;
            y = y + 1;
        } else {
            x = x + 1;
        }
    }
    (queue, queued)
}

/// Every listed neighbor lies inside the image.
pub proof fn lemma_neighbor_cells_inside(x: u32, y: u32, width: u32, height: u32)
    ensures
        forall|k: int|
            0 <= k < neighbor_cells(x, y, width, height).len() ==> (#[trigger] neighbor_cells(x, y, width, height)[k]).0
                < width && neighbor_cells(x, y, width, height)[k].1 < height,
{
}

/// The number of `false` entries of `s`.
pub open spec fn unset_count(s: Seq<bool>) -> nat
    decreases s.len(),
{
    if s.len() == 0 {
        0
    } else {
        unset_count(s.drop_last()) + if s.last() { 0nat } else { 1nat }
    }
}

/// Setting a `false` entry to `true` removes one `false` entry.
proof fn lemma_mark(s: Seq<bool>, i: int)
    requires
        0 <= i < s.len(),
        !s[i],
    ensures
        unset_count(s.update(i, true)) + 1 == unset_count(s),
    decreases s.len(),
{
    if i < s.len() - 1 {
        assert(s.update(i, true).drop_last() =~= s.drop_last().update(i, true));
        lemma_mark(s.drop_last(), i);
    } else {
        assert(s.update(i, true).drop_last() =~= s.drop_last());
    }
}

/// `a` and `b` are 4-neighbors.
pub open spec fn adjacent(a: (u32, u32), b: (u32, u32)) -> bool {
    (a.1 == b.1 && (a.0 + 1 == b.0 || b.0 + 1 == a.0)) || (a.0 == b.0 && (a.1 + 1 == b.1 || b.1 + 1 == a.1))
}

/// The listed neighbors of (x, y) are exactly its 4-neighbors inside the image.
pub proof fn lemma_neighbor_cells(x: u32, y: u32, width: u32, height: u32, b: (u32, u32))
    requires
        x < u32::MAX,
        y < u32::MAX,
    ensures
        forall|k: int|
            0 <= k < neighbor_cells(x, y, width, height).len() ==> adjacent(
                #[trigger] neighbor_cells(x, y, width, height)[k],
                (x, y),
            ),
        adjacent(b, (x, y)) && b.0 < width && b.1 < height ==> exists|k: int|
            0 <= k < neighbor_cells(x, y, width, height).len() && #[trigger] neighbor_cells(x, y, width, height)[k]
                == b,
{
    let left: Seq<(u32, u32)> = if 0 < x && x - 1 < width && y < height { seq![((x - 1) as u32, y)] } else { seq![] };
    let right: Seq<(u32, u32)> = if x + 1 < width && y < height { seq![((x + 1) as u32, y)] } else { seq![] };
    let up: Seq<(u32, u32)> = if x < width && 0 < y && y - 1 < height { seq![(x, (y - 1) as u32)] } else { seq![] };
    let down: Seq<(u32, u32)> = if x < width && y + 1 < height { seq![(x, (y + 1) as u32)] } else { seq![] };
    let all = neighbor_cells(x, y, width, height);
    assert(all == left + right + up + down);
    if adjacent(b, (x, y)) && b.0 < width && b.1 < height {
        if b.0 + 1 == x && b.1 == y {
            assert(all[0] == b);
        } else if x + 1 == b.0 && b.1 == y {
            assert(all[left.len() as int] == b);
        } else if b.1 + 1 == y && b.0 == x {
            assert(all[(left.len() + right.len()) as int] == b);
        } else {
            assert(all[(left.len() + right.len() + up.len()) as int] == b);
        }
    }
}

/// `value` is a value that reading the flag `cancel` can give.
pub open spec fn read_gives(cancel: &AtomicBool, value: bool) -> bool {
    call_ensures(AtomicBool::load, (cancel, Ordering::Relaxed), value)
}

/// Whether the caller asked to stop: one read of the flag.
fn is_cancelled(cancel: &AtomicBool) -> (stop: bool)
    ensures
        read_gives(cancel, stop),
{
    let load = AtomicBool::load;
    load(cancel, Ordering::Relaxed)
}

/// Why content-aware fill could not run.
#[derive(Clone, Copy, Debug, PartialEq, Eq, Structural)]
pub enum FillError {
    /// The selection and the image differ in size.
    DimensionMismatch,
    /// No unselected, mostly opaque pixel is left to sample from.
    NoSources,
    /// No selected pixel touches an unselected one.
    NoBoundary,
    /// The caller asked to stop.
    Cancelled,
}

impl FillError {
    /// The message shown for the error.
    pub fn message(&self) -> (text: &'static str)
        ensures
            text@ == match self {
                FillError::DimensionMismatch => "Selection and image dimensions differ"@,
                FillError::NoSources => "Leave some opaque, unselected pixels to sample for Content-Aware Fill"@,
                FillError::NoBoundary => "Select a region with unselected pixels around it"@,
                FillError::Cancelled => "Cancelled"@,
            },
    {
        match self {
            FillError::DimensionMismatch => "Selection and image dimensions differ",
            FillError::NoSources => "Leave some opaque, unselected pixels to sample for Content-Aware Fill",
            FillError::NoBoundary => "Select a region with unselected pixels around it",
            FillError::Cancelled => "Cancelled",
        }
    }
}

/// Every cell of `cells` lies inside a `width` by `height` image.
pub open spec fn all_inside(cells: Seq<(u32, u32)>, width: u32, height: u32) -> bool {
    forall|k: int| 0 <= k < cells.len() ==> (#[trigger] cells[k]).0 < width && cells[k].1 < height
}

/// The cell of an index inside the image lies inside it.
pub proof fn lemma_cell_of_inside(i: int, width: int, height: int)
    requires
        0 <= i < width * height,
        0 < width <= u32::MAX,
        0 <= height <= u32::MAX,
    ensures
        0 <= cell_of(i, width).0 < width,
        0 <= cell_of(i, width).1 < height,
        index_of(cell_of(i, width), width) == i,
{
    vstd::arithmetic::div_mod::lemma_fundamental_div_mod(i, width);
    vstd::arithmetic::div_mod::lemma_mod_pos_bound(i, width);
    vstd::arithmetic::div_mod::lemma_div_pos_is_pos(i, width);
    assert(i / width < height) by (nonlinear_arith)
        requires
            i == width * (i / width) + i % width,
            0 <= i % width,
            i < width * height,
            width > 0,
    ;
    assert((i / width) * width == width * (i / width)) by (nonlinear_arith);
}

/// Every kept source lies inside the image.
pub proof fn lemma_sampled_inside(image: Seq<u8>, mask: Seq<u8>, width: u32, height: u32, n: int)
    requires
        0 <= n <= width * height,
    ensures
        all_inside(sampled(image, mask, width as int, n).sources, width, height),
    decreases n,
{
    if n > 0 {
        lemma_sampled_inside(image, mask, width, height, n - 1);
        assert(width > 0) by (nonlinear_arith)
            requires
                0 < n <= width * height,
        ;
        lemma_cell_of_inside(n - 1, width as int, height as int);
        let prev = sampled(image, mask, width as int, n - 1).sources;
        let now = sampled(image, mask, width as int, n).sources;
        let cell = cell_of(n - 1, width as int);
        let s = sampled(image, mask, width as int, n - 1);
        if eligible(image, mask, n - 1) && s.sources.len() >= MAX_SOURCES {
            let state = xorshift(s.state);
            let slot = (state as int) % (s.seen + 1);
            lemma_sampled_bounds(image, mask, width as int, n - 1);
            assert(0 <= slot);
            if slot < prev.len() {
                assert(now == prev.update(slot, cell));
                assert forall|k: int| 0 <= k < now.len() implies (#[trigger] now[k]).0 < width && now[k].1 < height by {
                    if k != slot {
                        assert(now[k] == prev[k]);
                    }
                }
            } else {
                assert(now == prev);
            }
        } else if eligible(image, mask, n - 1) {
            assert(now == prev.push(cell));
            assert forall|k: int| 0 <= k < now.len() implies (#[trigger] now[k]).0 < width && now[k].1 < height by {
                if k < prev.len() {
                    assert(now[k] == prev[k]);
                }
            }
        } else {
            assert(now == prev);
        }
    }
}

/// Pixel `j` may be copied into the fill: it is not selected and at least
/// half opaque.
pub open spec fn usable(image: Seq<u8>, mask: Seq<u8>, j: int) -> bool {
    mask[j] == 0 && image[4 * j + 3] >= 128
}

/// Every cell of `cells` names a pixel that may be copied into the fill.
pub open spec fn all_usable(image: Seq<u8>, mask: Seq<u8>, cells: Seq<(u32, u32)>, width: int) -> bool {
    forall|k: int| 0 <= k < cells.len() ==> usable(image, mask, index_of(#[trigger] cells[k], width))
}

/// Every kept source may be copied into the fill.
pub proof fn lemma_sampled_usable(image: Seq<u8>, mask: Seq<u8>, width: u32, height: u32, n: int)
    requires
        0 <= n <= width * height,
    ensures
        all_usable(image, mask, sampled(image, mask, width as int, n).sources, width as int),
    decreases n,
{
    if n > 0 {
        lemma_sampled_usable(image, mask, width, height, n - 1);
        assert(width > 0) by (nonlinear_arith)
            requires
                0 < n <= width * height,
        ;
        lemma_cell_of_inside(n - 1, width as int, height as int);
        let prev = sampled(image, mask, width as int, n - 1).sources;
        let now = sampled(image, mask, width as int, n).sources;
        let cell = cell_of(n - 1, width as int);
        let s = sampled(image, mask, width as int, n - 1);
        if eligible(image, mask, n - 1) && s.sources.len() >= MAX_SOURCES {
            let state = xorshift(s.state);
            let slot = (state as int) % (s.seen + 1);
            lemma_sampled_bounds(image, mask, width as int, n - 1);
            if slot < prev.len() {
                assert(now == prev.update(slot, cell));
                assert forall|k: int| 0 <= k < now.len() implies usable(image, mask, index_of(#[trigger] now[k], width as int)) by {
                    if k != slot {
                        assert(now[k] == prev[k]);
                    }
                }
            } else {
                assert(now == prev);
            }
        } else if eligible(image, mask, n - 1) {
            assert(now == prev.push(cell));
            assert forall|k: int| 0 <= k < now.len() implies usable(image, mask, index_of(#[trigger] now[k], width as int)) by {
                if k < prev.len() {
                    assert(now[k] == prev[k]);
                }
            }
        } else {
            assert(now == prev);
        }
    }
}

/// The candidate that neighbor `c` offers for filling (x, y): the pixel next
/// to the neighbor's own source, shifted as the neighbor is, when the
/// neighbor was filled and that pixel lies inside the image; else the
/// neighbor itself when it is not selected; kept only when it may be copied.
pub open spec fn neighbor_candidate(
    image: Seq<u8>,
    mask: Seq<u8>,
    matches: Seq<Option<(u32, u32)>>,
    x: u32,
    y: u32,
    width: u32,
    height: u32,
    c: (u32, u32),
) -> Option<(u32, u32)> {
    let ni = index_of(c, width as int);
    let target: Option<(u32, u32)> = match matches[ni] {
        Some(m) => {
            let tx = m.0 + x - c.0;
            let ty = m.1 + y - c.1;
            if 0 <= tx < width && 0 <= ty < height {
                Some((tx as u32, ty as u32))
            } else {
                None
            }
        },
        None => if mask[ni] == 0 {
            Some(c)
        } else {
            None
        },
    };
    match target {
        Some(t) => if usable(image, mask, index_of(t, width as int)) {
            Some(t)
        } else {
            None
        },
        None => None,
    }
}

/// The candidates that the neighbors `cells` offer, in order.
pub open spec fn neighbor_candidates(
    image: Seq<u8>,
    mask: Seq<u8>,
    matches: Seq<Option<(u32, u32)>>,
    x: u32,
    y: u32,
    width: u32,
    height: u32,
    cells: Seq<(u32, u32)>,
) -> Seq<(u32, u32)>
    decreases cells.len(),
{
    if cells.len() == 0 {
        Seq::empty()
    } else {
        let rest = neighbor_candidates(image, mask, matches, x, y, width, height, cells.drop_last());
        match neighbor_candidate(image, mask, matches, x, y, width, height, cells.last()) {
            Some(t) => rest.push(t),
            None => rest,
        }
    }
}

/// `k` sources drawn with the generator from `state`, and the state after.
pub open spec fn draws(sources: Seq<(u32, u32)>, state: u32, k: nat) -> (Seq<(u32, u32)>, u32)
    decreases k,
{
    if k == 0 {
        (Seq::empty(), state)
    } else {
        let before = draws(sources, state, (k - 1) as nat);
        let next = xorshift(before.1);
        (before.0.push(sources[(next as int) % (sources.len() as int)]), next)
    }
}

/// The candidates for filling (x, y) with the generator at `state`: the
/// neighbors' candidates, then twenty drawn sources; and the state after.
pub open spec fn gathered(
    image: Seq<u8>,
    mask: Seq<u8>,
    matches: Seq<Option<(u32, u32)>>,
    sources: Seq<(u32, u32)>,
    x: u32,
    y: u32,
    width: u32,
    height: u32,
    state: u32,
) -> (Seq<(u32, u32)>, u32) {
    let near = neighbor_candidates(image, mask, matches, x, y, width, height, neighbor_cells(x, y, width, height));
    (near + draws(sources, state, 20).0, draws(sources, state, 20).1)
}

/// The candidates for filling (x, y): for each neighbor, the pixel next to
/// the neighbor's own source (shifted as the neighbor is shifted) when that
/// neighbor was filled and the pixel lies inside the image, or else the
/// neighbor itself when it is not selected; then twenty random sources. Only
/// pixels that may be copied into the fill are kept.
fn gather_candidates(
    image: &[u8],
    mask: &[u8],
    matches: &Vec<Option<(u32, u32)>>,
    sources: &Vec<(u32, u32)>,
    x: u32,
    y: u32,
    width: u32,
    height: u32,
    state: &mut u32,
) -> (candidates: Vec<(u32, u32)>)
    requires
        mask@.len() == width * height,
        image@.len() == 4 * mask@.len(),
        matches@.len() == mask@.len(),
        sources@.len() > 0,
        all_inside(sources@, width, height),
        all_usable(image@, mask@, sources@, width as int),
        x < width,
        y < height,
    ensures
        candidates@.len() > 0,
        all_inside(candidates@, width, height),
        all_usable(image@, mask@, candidates@, width as int),
        (candidates@, *final(state)) == gathered(image@, mask@, matches@, sources@, x, y, width, height, *old(state)),
{
    let ghost start = *state;
    let cells = neighbors(x, y, width, height);
    proof {
        lemma_neighbor_cells_inside(x, y, width, height);
    }
    let n = mask.len();
    let total = image.len();
    let mut candidates: Vec<(u32, u32)> = Vec::new();
    for k in 0..cells.len()
        invariant
            mask@.len() == width * height,
            n == mask@.len(),
            total == image@.len(),
            image@.len() == 4 * n,
            matches@.len() == mask@.len(),
            cells@ == neighbor_cells(x, y, width, height),
            all_inside(cells@, width, height),
            all_inside(candidates@, width, height),
            all_usable(image@, mask@, candidates@, width as int),
            candidates@ == neighbor_candidates(image@, mask@, matches@, x, y, width, height, cells@.take(k as int)),
    {
        let (nx, ny) = cells[k];
        assert(cells@.take(k + 1).drop_last() =~= cells@.take(k as int));
        assert(cells@.take(k + 1).last() == (nx, ny));
        let ni = pixel_index(nx, ny, width, height, n);
        let target = match matches[ni] {
            Some((sx, sy)) => {
                let tx: i64 = sx as i64 + x as i64 - nx as i64;
                let ty: i64 = sy as i64 + y as i64 - ny as i64;
                if tx >= 0 && ty >= 0 && tx < width as i64 && ty < height as i64 {
                    assert(matches@[ni as int] == Some((sx, sy)));
                    Some((tx as u32, ty as u32))
                } else {
                    None
                }
            },
            None => {
                if mask[ni] == 0 {
                    Some((nx, ny))
                } else {
                    None
                }
            },
        };
        match target {
            Some((cx, cy)) => {
                let ci = pixel_index(cx, cy, width, height, n);
                if mask[ci] == 0 && image[4 * ci + 3] >= 128 {
                    let ghost before = candidates@;
                    candidates.push((cx, cy));
                    proof {
                        assert forall|m: int| 0 <= m < candidates@.len() implies usable(image@, mask@, index_of(#[trigger] candidates@[m], width as int)) && candidates@[m].0 < width && candidates@[m].1 < height by {
                            if m < before.len() {
                                assert(candidates@[m] == before[m]);
                            }
                        }
                    }
                }
            },
            None => {},
        }
    }
    assert(cells@.take(cells@.len() as int) =~= cells@);
    let ghost near = candidates@;
    for _k in 0..20usize
        invariant
            sources@.len() > 0,
            all_inside(sources@, width, height),
            all_usable(image@, mask@, sources@, width as int),
            all_inside(candidates@, width, height),
            all_usable(image@, mask@, candidates@, width as int),
            candidates@.len() >= _k,
            candidates@ == near + draws(sources@, start, _k as nat).0,
            *state == draws(sources@, start, _k as nat).1,
    {
        let r = random(state);
        let ghost before = candidates@;
        let pick = sources[(r as usize) % sources.len()];
        candidates.push(pick);
        assert(candidates@ =~= near + draws(sources@, start, (_k + 1) as nat).0);
        proof {
            assert forall|m: int| 0 <= m < candidates@.len() implies usable(image@, mask@, index_of(#[trigger] candidates@[m], width as int)) && candidates@[m].0 < width && candidates@[m].1 < height by {
                if m < before.len() {
                    assert(candidates@[m] == before[m]);
                }
            }
        }
    }
    candidates
}

/// Pixel `i` of `a` equals pixel `j` of `b`, four bytes each.
pub open spec fn same_pixel(a: Seq<u8>, i: int, b: Seq<u8>, j: int) -> bool {
    a[4 * i] == b[4 * j] && a[4 * i + 1] == b[4 * j + 1] && a[4 * i + 2] == b[4 * j + 2] && a[4 * i + 3] == b[4
        * j + 3]
}

/// Every 4-neighbor of pixel `i` inside the image is marked in `marks`.
pub open spec fn enclosed(marks: Seq<bool>, width: int, i: int) -> bool {
    forall|j: int| 0 <= j < marks.len() && adjacent(cell_of(j, width), cell_of(i, width)) ==> #[trigger] marks[j]
}

/// What content-aware fill promises of its result: only selected pixels
/// change, each filled pixel copies an unselected, at least half opaque pixel
/// of the original image, every selected
/// pixel on the selection's edge is filled, and the pixels left unfilled
/// touch no pixel that is known.
pub open spec fn fill_outcome(
    image: Seq<u8>,
    mask: Seq<u8>,
    width: int,
    height: int,
    pixels: Seq<u8>,
    remaining: Seq<bool>,
) -> bool {
    let n = mask.len() as int;
    &&& pixels.len() == image.len()
    &&& remaining.len() == n
    &&& forall|i: int| 0 <= i < n && #[trigger] remaining[i] ==> mask[i] != 0
    &&& forall|i: int|
        0 <= i < n && !(mask[i] != 0 && !remaining[i]) ==> #[trigger] same_pixel(pixels, i, image, i)
    &&& forall|i: int|
        0 <= i < n && mask[i] != 0 && !remaining[i] ==> exists|j: int|
            0 <= j < n && usable(image, mask, j) && #[trigger] same_pixel(pixels, i, image, j)
    &&& forall|i: int| 0 <= i < n && #[trigger] on_boundary(mask, width, height, i) ==> !remaining[i]
    &&& forall|i: int| 0 <= i < n && #[trigger] remaining[i] ==> enclosed(remaining, width, i)
}

/// The queue holds cells of queued pixels still to fill, every queued pixel
/// still to fill is in the queue, filled pixels were queued, and so were
/// all pixels on the selection's edge.
pub open spec fn frontier(
    mask: Seq<u8>,
    width: int,
    height: int,
    unknown: Seq<bool>,
    queued: Seq<bool>,
    queue: Seq<(u32, u32)>,
) -> bool {
    let n = mask.len() as int;
    &&& unknown.len() == n
    &&& queued.len() == n
    &&& all_inside(queue, width as u32, height as u32)
    &&& forall|j: int| 0 <= j < queue.len() ==> queued[index_of(#[trigger] queue[j], width)]
    &&& forall|p: int| 0 <= p < n && #[trigger] unknown[p] ==> mask[p] != 0
    &&& forall|p: int| 0 <= p < n && #[trigger] queued[p] ==> mask[p] != 0
    &&& forall|p: int| 0 <= p < n && mask[p] != 0 && !unknown[p] ==> #[trigger] queued[p]
    &&& forall|p: int| 0 <= p < n && queued[p] && unknown[p] ==> queue.contains(#[trigger] cell_of(p, width))
    &&& forall|p: int| 0 <= p < n && #[trigger] on_boundary(mask, width, height, p) ==> queued[p]
}

/// Taking the first cell off the queue and filling its pixel keeps the frontier.
proof fn lemma_pop(
    mask: Seq<u8>,
    width: int,
    height: int,
    unknown: Seq<bool>,
    queued: Seq<bool>,
    queue: Seq<(u32, u32)>,
    q: int,
)
    requires
        frontier(mask, width, height, unknown, queued, queue),
        mask.len() == width * height,
        0 < width <= u32::MAX,
        0 <= height <= u32::MAX,
        queue.len() > 0,
        q == index_of(queue[0], width),
    ensures
        frontier(mask, width, height, unknown.update(q, false), queued, queue.drop_first()),
{
    let n = mask.len() as int;
    let rest = queue.drop_first();
    let after = unknown.update(q, false);
    lemma_cell_index(queue[0], width, height);
    assert forall|j: int| 0 <= j < rest.len() implies queued[index_of(#[trigger] rest[j], width)] by {
        assert(rest[j] == queue[j + 1]);
    }
    assert forall|p: int| 0 <= p < n && queued[p] && after[p] implies rest.contains(#[trigger] cell_of(p, width)) by {
        let j = choose|j: int| 0 <= j < queue.len() && queue[j] == cell_of(p, width);
        lemma_cell_of_inside(p, width, height);
        if j == 0 {
            assert(p == q);
        } else {
            assert(rest[j - 1] == queue[j]);
        }
    }
}

/// Queuing a pixel still to fill that was not queued keeps the frontier.
proof fn lemma_enqueue(
    mask: Seq<u8>,
    width: int,
    height: int,
    unknown: Seq<bool>,
    queued: Seq<bool>,
    queue: Seq<(u32, u32)>,
    cell: (u32, u32),
)
    requires
        frontier(mask, width, height, unknown, queued, queue),
        mask.len() == width * height,
        0 < width <= u32::MAX,
        0 <= height <= u32::MAX,
        cell.0 < width,
        cell.1 < height,
        unknown[index_of(cell, width)],
    ensures
        frontier(mask, width, height, unknown, queued.update(index_of(cell, width), true), queue.push(cell)),
{
    let n = mask.len() as int;
    let i = index_of(cell, width);
    let more = queue.push(cell);
    let marked = queued.update(i, true);
    lemma_cell_index(cell, width, height);
    assert forall|j: int| 0 <= j < more.len() implies (#[trigger] more[j]).0 < width as u32 && more[j].1 < height as u32 by {
        if j < queue.len() {
            assert(more[j] == queue[j]);
        }
    }
    assert forall|j: int| 0 <= j < more.len() implies marked[index_of(#[trigger] more[j], width)] by {
        if j < queue.len() {
            assert(more[j] == queue[j]);
            lemma_cell_index(queue[j], width, height);
        }
    }
    assert forall|p: int| 0 <= p < n && marked[p] && unknown[p] implies more.contains(#[trigger] cell_of(p, width)) by {
        if p == i {
            assert(more[more.len() - 1] == cell_of(p, width));
        } else {
            let j = choose|j: int| 0 <= j < queue.len() && queue[j] == cell_of(p, width);
            assert(more[j] == queue[j]);
        }
    }
}

/// Known pixels of `output` are the image's own; filled ones copy an
/// unselected, at least half opaque pixel of it.
pub open spec fn copied(image: Seq<u8>, mask: Seq<u8>, unknown: Seq<bool>, output: Seq<u8>) -> bool {
    let n = mask.len() as int;
    &&& output.len() == 4 * n
    &&& forall|i: int|
        0 <= i < n && !(mask[i] != 0 && !unknown[i]) ==> #[trigger] same_pixel(output, i, image, i)
    &&& forall|i: int|
        0 <= i < n && mask[i] != 0 && !unknown[i] ==> exists|j: int|
            0 <= j < n && usable(image, mask, j) && #[trigger] same_pixel(output, i, image, j)
}

/// The boundary lists the cells of exactly the edge pixels.
#[verifier::spinoff_prover]
proof fn lemma_boundary(mask: Seq<u8>, width: int, height: int, n: int)
    requires
        0 <= n <= width * height,
        0 < width <= u32::MAX,
        0 <= height <= u32::MAX,
    ensures
        forall|j: int|
            #![trigger boundary(mask, width, height, n)[j]]
            0 <= j < boundary(mask, width, height, n).len() ==> exists|i: int|
                #![trigger cell_of(i, width)]
                0 <= i < n && on_boundary(mask, width, height, i) && boundary(mask, width, height, n)[j] == cell_of(
                    i,
                    width,
                ),
        forall|i: int|
            0 <= i < n && #[trigger] on_boundary(mask, width, height, i) ==> boundary(mask, width, height, n).contains(
                cell_of(i, width),
            ),
    decreases n,
{
    if n > 0 {
        lemma_boundary(mask, width, height, n - 1);
        let prev = boundary(mask, width, height, n - 1);
        let now = boundary(mask, width, height, n);
        assert forall|j: int| #![trigger now[j]] 0 <= j < now.len() implies exists|i: int|
            #![trigger cell_of(i, width)]
            0 <= i < n && on_boundary(mask, width, height, i) && now[j] == cell_of(i, width) by {
            if j < prev.len() {
                assert(now[j] == prev[j]);
            } else {
                assert(now[j] == cell_of(n - 1, width));
            }
        }
        assert forall|i: int| 0 <= i < n && #[trigger] on_boundary(mask, width, height, i) implies now.contains(
            cell_of(i, width),
        ) by {
            if i < n - 1 {
                let j = choose|j: int| 0 <= j < prev.len() && prev[j] == cell_of(i, width);
                assert(now[j] == prev[j]);
            } else {
                assert(now[now.len() - 1] == cell_of(i, width));
            }
        }
    }
}

/// One step of content-aware fill: the cell filled, the state the step
/// started from (the image so far, the pixels still to fill, the source each
/// filled pixel copied, the generator), the candidates offered, the index
/// that `pick` answered, and the cell copied.
pub struct FillStep {
    pub cell: (u32, u32),
    pub output: Seq<u8>,
    pub unknown: Seq<bool>,
    pub matches: Seq<Option<(u32, u32)>>,
    pub state: u32,
    pub candidates: Seq<(u32, u32)>,
    pub chosen: usize,
    pub best: (u32, u32),
}

/// The cell copied for an answer `chosen` among `candidates`: that
/// candidate, or the first source when the answer lies outside them.
pub open spec fn chosen_cell(candidates: Seq<(u32, u32)>, chosen: usize, sources: Seq<(u32, u32)>) -> (u32, u32) {
    if chosen < candidates.len() {
        candidates[chosen as int]
    } else {
        sources[0]
    }
}

/// `s` is a step as content-aware fill takes it: the cell lies inside the
/// image, the candidates are those gathered for it from
/// the step's state, `pick` answered `s.chosen` when given the image so far,
/// the pixels still to fill, the cell and the candidates, and the cell copied
/// follows from that answer.
pub open spec fn step_taken<F: Fn(&[u8], &[bool], u32, u32, &[(u32, u32)]) -> usize>(
    image: Seq<u8>,
    mask: Seq<u8>,
    sources: Seq<(u32, u32)>,
    width: u32,
    height: u32,
    pick: F,
    s: FillStep,
) -> bool {
    &&& s.cell.0 < width && s.cell.1 < height
    &&& s.candidates == gathered(image, mask, s.matches, sources, s.cell.0, s.cell.1, width, height, s.state).0
    &&& exists|o: &[u8], u: &[bool], c: &[(u32, u32)]|
        o@ == s.output && u@ == s.unknown && c@ == s.candidates && #[trigger] pick.ensures(
            (o, u, s.cell.0, s.cell.1, c),
            s.chosen,
        )
    &&& s.best == chosen_cell(s.candidates, s.chosen, sources)
}

/// The image after step `s`: the filled cell's four bytes copied from the cell chosen.
pub open spec fn output_after(s: FillStep, image: Seq<u8>, width: int) -> Seq<u8> {
    let q = 4 * index_of(s.cell, width);
    let b = 4 * index_of(s.best, width);
    s.output.update(q, image[b]).update(q + 1, image[b + 1]).update(q + 2, image[b + 2]).update(q + 3, image[b + 3])
}

/// The state after step `s`: its image, the pixels still to fill, the
/// sources of the filled pixels and the generator.
pub open spec fn state_after(
    s: FillStep,
    image: Seq<u8>,
    mask: Seq<u8>,
    sources: Seq<(u32, u32)>,
    width: u32,
    height: u32,
) -> (Seq<u8>, Seq<bool>, Seq<Option<(u32, u32)>>, u32) {
    (
        output_after(s, image, width as int),
        s.unknown.update(index_of(s.cell, width as int), false),
        s.matches.update(index_of(s.cell, width as int), Some(s.best)),
        gathered(image, mask, s.matches, sources, s.cell.0, s.cell.1, width, height, s.state).1,
    )
}

/// `steps` is the whole of a fill that starts from `image` with every
/// selected pixel to fill, no sources taken and the generator at `start`,
/// takes each step in turn from the state the one before left, and ends in
/// `end`.
#[verifier::opaque]
pub open spec fn fill_trace<F: Fn(&[u8], &[bool], u32, u32, &[(u32, u32)]) -> usize>(
    image: Seq<u8>,
    mask: Seq<u8>,
    sources: Seq<(u32, u32)>,
    start: u32,
    width: u32,
    height: u32,
    pick: F,
    steps: Seq<FillStep>,
    end: (Seq<u8>, Seq<bool>, Seq<Option<(u32, u32)>>, u32),
) -> bool {
    let first = (
        image,
        Seq::new(mask.len(), |i: int| mask[i] != 0),
        Seq::new(mask.len(), |i: int| None::<(u32, u32)>),
        start,
    );
    &&& forall|k: int| 0 <= k < steps.len() ==> step_taken(image, mask, sources, width, height, pick, #[trigger] steps[k])
    &&& steps.len() == 0 ==> end == first
    &&& steps.len() > 0 ==> (steps[0].output, steps[0].unknown, steps[0].matches, steps[0].state) == first
    &&& forall|k: int|
        0 <= k < steps.len() - 1 ==> (steps[k + 1].output, steps[k + 1].unknown, steps[k + 1].matches, steps[k
            + 1].state) == state_after(#[trigger] steps[k], image, mask, sources, width, height)
    &&& steps.len() > 0 ==> end == state_after(steps.last(), image, mask, sources, width, height)
}

/// Every selected pixel no longer to fill equals the cell chosen at a step
/// that filled it.
#[verifier::opaque]
pub open spec fn recorded(
    image: Seq<u8>,
    mask: Seq<u8>,
    unknown: Seq<bool>,
    output: Seq<u8>,
    steps: Seq<FillStep>,
    width: int,
) -> bool {
    forall|i: int|
        0 <= i < mask.len() && mask[i] != 0 && !unknown[i] ==> exists|k: int|
            0 <= k < steps.len() && index_of(#[trigger] steps[k].cell, width) == i && same_pixel(
                output,
                i,
                image,
                index_of(steps[k].best, width),
            )
}

/// Taking step `s` from `output` records the pixel it fills.
proof fn lemma_record(
    image: Seq<u8>,
    mask: Seq<u8>,
    unknown: Seq<bool>,
    output: Seq<u8>,
    steps: Seq<FillStep>,
    width: int,
    s: FillStep,
)
    requires
        recorded(image, mask, unknown, output, steps, width),
        s.output == output,
        output.len() == 4 * mask.len(),
        image.len() == 4 * mask.len(),
        unknown.len() == mask.len(),
        0 <= index_of(s.cell, width) < mask.len(),
        0 <= index_of(s.best, width) < mask.len(),
    ensures
        recorded(
            image,
            mask,
            unknown.update(index_of(s.cell, width), false),
            output_after(s, image, width),
            steps.push(s),
            width,
        ),
{
    reveal(recorded);
    let q = index_of(s.cell, width);
    let after = output_after(s, image, width);
    let more = steps.push(s);
    let open = unknown.update(q, false);
    assert forall|i: int| 0 <= i < mask.len() && mask[i] != 0 && !open[i] implies exists|k: int|
        0 <= k < more.len() && index_of(#[trigger] more[k].cell, width) == i && same_pixel(
            after,
            i,
            image,
            index_of(more[k].best, width),
        ) by {
        if i == q {
            assert(more[steps.len() as int] == s);
            assert(same_pixel(after, i, image, index_of(s.best, width)));
        } else {
            assert(!unknown[i]);
            let k = choose|k: int|
                0 <= k < steps.len() && index_of(#[trigger] steps[k].cell, width) == i && same_pixel(
                    output,
                    i,
                    image,
                    index_of(steps[k].best, width),
                );
            assert(more[k] == steps[k]);
            assert(same_pixel(after, i, image, index_of(steps[k].best, width)));
        }
    }
}

/// A fill that reached `before` and then takes step `s` from there is a
/// fill that reaches the state after `s`.
proof fn lemma_extend_trace<F: Fn(&[u8], &[bool], u32, u32, &[(u32, u32)]) -> usize>(
    image: Seq<u8>,
    mask: Seq<u8>,
    sources: Seq<(u32, u32)>,
    start: u32,
    width: u32,
    height: u32,
    pick: F,
    steps: Seq<FillStep>,
    before: (Seq<u8>, Seq<bool>, Seq<Option<(u32, u32)>>, u32),
    s: FillStep,
)
    requires
        fill_trace(image, mask, sources, start, width, height, pick, steps, before),
        (s.output, s.unknown, s.matches, s.state) == before,
        step_taken(image, mask, sources, width, height, pick, s),
    ensures
        fill_trace(
            image,
            mask,
            sources,
            start,
            width,
            height,
            pick,
            steps.push(s),
            state_after(s, image, mask, sources, width, height),
        ),
{
    reveal(fill_trace);
    let more = steps.push(s);
    assert forall|k: int| 0 <= k < more.len() implies step_taken(image, mask, sources, width, height, pick, #[trigger] more[k]) by {
        if k < steps.len() {
            assert(more[k] == steps[k]);
        }
    }
    assert forall|k: int| 0 <= k < more.len() - 1 implies (more[k + 1].output, more[k + 1].unknown, more[k + 1].matches, more[k
        + 1].state) == state_after(#[trigger] more[k], image, mask, sources, width, height) by {
        assert(more[k] == steps[k]);
        if k + 1 < steps.len() {
            assert(more[k + 1] == steps[k + 1]);
        }
    }
    if steps.len() > 0 {
        assert(more[0] == steps[0]);
    }
}

/// `pixels` and `remaining` are what some whole fill of `image` reaches,
/// with the sources and generator that sampling gives, every pixel that it
/// filled equal to the cell chosen at the step that filled it.
pub open spec fn traced<F: Fn(&[u8], &[bool], u32, u32, &[(u32, u32)]) -> usize>(
    image: Seq<u8>,
    mask: Seq<u8>,
    width: u32,
    height: u32,
    pick: F,
    pixels: Seq<u8>,
    remaining: Seq<bool>,
) -> bool {
    let sampling = sampled(image, mask, width as int, mask.len() as int);
    exists|steps: Seq<FillStep>, matches: Seq<Option<(u32, u32)>>, state: u32|
        #[trigger] fill_trace(
            image,
            mask,
            sampling.sources,
            sampling.state,
            width,
            height,
            pick,
            steps,
            (pixels, remaining, matches, state),
        ) && recorded(image, mask, remaining, pixels, steps, width as int)
}

/// Stepping from a marked pixel to a 4-neighbor stays marked when every
/// marked pixel has all its neighbors marked.
proof fn lemma_step(marks: Seq<bool>, width: int, height: int, a: (u32, u32), b: (u32, u32))
    requires
        0 < width <= u32::MAX,
        0 <= height <= u32::MAX,
        marks.len() == width * height,
        a.0 < width && a.1 < height,
        b.0 < width && b.1 < height,
        adjacent(b, a),
        marks[index_of(a, width)],
        forall|i: int| 0 <= i < marks.len() && #[trigger] marks[i] ==> enclosed(marks, width, i),
    ensures
        marks[index_of(b, width)],
{
    lemma_cell_index(a, width, height);
    lemma_cell_index(b, width, height);
    let i = index_of(a, width);
    let j = index_of(b, width);
    assert(enclosed(marks, width, i));
    assert(adjacent(cell_of(j, width), cell_of(i, width)));
}

/// Along a row, marks spread from (x, y) to (x2, y).
proof fn lemma_along_row(marks: Seq<bool>, width: int, height: int, x: u32, y: u32, x2: u32)
    requires
        0 < width <= u32::MAX,
        0 <= height <= u32::MAX,
        marks.len() == width * height,
        x < width && x2 < width && y < height,
        marks[index_of((x, y), width)],
        forall|i: int| 0 <= i < marks.len() && #[trigger] marks[i] ==> enclosed(marks, width, i),
    ensures
        marks[index_of((x2, y), width)],
    decreases if x2 >= x { x2 - x } else { x - x2 },
{
    if x2 > x {
        lemma_step(marks, width, height, (x, y), ((x + 1) as u32, y));
        lemma_along_row(marks, width, height, (x + 1) as u32, y, x2);
    } else if x2 < x {
        lemma_step(marks, width, height, (x, y), ((x - 1) as u32, y));
        lemma_along_row(marks, width, height, (x - 1) as u32, y, x2);
    }
}

/// Along a column, marks spread from (x, y) to (x, y2).
proof fn lemma_along_column(marks: Seq<bool>, width: int, height: int, x: u32, y: u32, y2: u32)
    requires
        0 < width <= u32::MAX,
        0 <= height <= u32::MAX,
        marks.len() == width * height,
        x < width && y < height && y2 < height,
        marks[index_of((x, y), width)],
        forall|i: int| 0 <= i < marks.len() && #[trigger] marks[i] ==> enclosed(marks, width, i),
    ensures
        marks[index_of((x, y2), width)],
    decreases if y2 >= y { y2 - y } else { y - y2 },
{
    if y2 > y {
        lemma_step(marks, width, height, (x, y), (x, (y + 1) as u32));
        lemma_along_column(marks, width, height, x, (y + 1) as u32, y2);
    } else if y2 < y {
        lemma_step(marks, width, height, (x, y), (x, (y - 1) as u32));
        lemma_along_column(marks, width, height, x, (y - 1) as u32, y2);
    }
}

/// Marks that hold every 4-neighbor of each marked pixel, with one pixel
/// marked, cover the whole image: the image is connected.
pub proof fn lemma_closed_covers(marks: Seq<bool>, width: int, height: int, p: int)
    requires
        0 < width <= u32::MAX,
        0 <= height <= u32::MAX,
        marks.len() == width * height,
        0 <= p < marks.len(),
        marks[p],
        forall|i: int| 0 <= i < marks.len() && #[trigger] marks[i] ==> enclosed(marks, width, i),
    ensures
        forall|i: int| 0 <= i < marks.len() ==> #[trigger] marks[i],
{
    lemma_cell_of_inside(p, width, height);
    let a = cell_of(p, width);
    assert forall|i: int| 0 <= i < marks.len() implies #[trigger] marks[i] by {
        lemma_cell_of_inside(i, width, height);
        let c = cell_of(i, width);
        lemma_along_row(marks, width, height, a.0, a.1, c.0);
        lemma_along_column(marks, width, height, c.0, a.1, c.1);
    }
}

/// Fill the selected pixels of `image` (those whose `mask` value is not
/// zero) by matching nearby texture, spreading inward from the edge of the
/// selection. For each pixel in turn, `pick` chooses among the candidate
/// source cells by comparing patches; an index outside the candidates falls
/// back to the first source. Candidates and sources are unselected, at least
/// half opaque pixels of the original image, so blemishes never spread into
/// the fill, and once the fill finishes every selected pixel is filled.
/// The result is what a trace of such steps reaches (`traced`): each step
/// offers `pick` the image so far, the pixels still to fill, the cell and the
/// candidates gathered for it, and each filled pixel copies the candidate
/// that `pick` answered at its step. `cancel` is read before each pixel.
#[verifier::spinoff_prover]
pub fn inpaint<F: Fn(&[u8], &[bool], u32, u32, &[(u32, u32)]) -> usize>(
    image: &[u8],
    mask: &[u8],
    width: u32,
    height: u32,
    cancel: &AtomicBool,
    pick: F,
) -> (result: Result<Fill, FillError>)
    requires
        forall|o: &[u8], u: &[bool], x: u32, y: u32, c: &[(u32, u32)]| #[trigger] pick.requires((o, u, x, y, c)),
    ensures
        ({
            let fits = mask@.len() == width * height && image@.len() == 4 * mask@.len();
            let none = sampled(image@, mask@, width as int, mask@.len() as int).sources.len() == 0;
            let closed = boundary(mask@, width as int, height as int, mask@.len() as int).len() == 0;
            &&& (result == Err::<Fill, FillError>(FillError::DimensionMismatch) <==> !fits)
            &&& (result == Err::<Fill, FillError>(FillError::NoSources) <==> fits && none)
            &&& (result == Err::<Fill, FillError>(FillError::NoBoundary) <==> fits && !none && closed)
            &&& (result == Err::<Fill, FillError>(FillError::Cancelled) ==> fits && !none && !closed && read_gives(
                cancel,
                true,
            ))
            &&& (result matches Ok(fill) ==> fits && !none && !closed && fill_outcome(
                image@,
                mask@,
                width as int,
                height as int,
                fill.pixels@,
                fill.remaining@,
            ))
            &&& (result matches Ok(fill) ==> forall|i: int| 0 <= i < mask@.len() ==> !#[trigger] fill.remaining@[i])
            &&& (result matches Ok(fill) ==> traced(image@, mask@, width, height, pick, fill.pixels@, fill.remaining@))
        }),
{
    let n = mask.len();
    let bytes = image.len();
    assert((width as u64) * (height as u64) <= u64::MAX) by (nonlinear_arith);
    if (n as u64) != (width as u64) * (height as u64) || bytes % 4 != 0 || bytes / 4 != n {
        return Err(FillError::DimensionMismatch);
    }
    let (sources, mut state) = sample_sources(image, mask, width, height);
    if sources.len() == 0 {
        return Err(FillError::NoSources);
    }
    let (mut queue, mut queued) = boundary_queue(mask, width, height);
    if queue.len() == 0 {
        return Err(FillError::NoBoundary);
    }
    assert(width > 0 && n > 0) by {
        if n == 0 {
            assert(boundary(mask@, width as int, height as int, 0).len() == 0);
        }
        assert(n > 0 ==> width > 0) by (nonlinear_arith)
            requires
                n == width * height,
        ;
    }
    proof {
        lemma_sampled_inside(image@, mask@, width, height, n as int);
        lemma_sampled_usable(image@, mask@, width, height, n as int);
        lemma_boundary(mask@, width as int, height as int, n as int);
    }
    let mut unknown: Vec<bool> = Vec::new();
    let mut matches: Vec<Option<(u32, u32)>> = Vec::new();
    for i in 0..n
        invariant
            n == mask@.len(),
            unknown@.len() == i,
            matches@.len() == i,
            forall|p: int| 0 <= p < i ==> #[trigger] unknown@[p] == (mask@[p] != 0),
            forall|p: int| 0 <= p < i ==> #[trigger] matches@[p] == None::<(u32, u32)>,
    {
        unknown.push(mask[i] != 0);
        matches.push(None);
    }
    let mut output = vstd::slice::slice_to_vec(image);
    let ghost w = width as int;
    let ghost h = height as int;
    let ghost start_state = state;
    let ghost mut steps: Seq<FillStep> = Seq::empty();
    assert(unknown@ =~= Seq::new(mask@.len(), |i: int| mask@[i] != 0));
    assert(matches@ =~= Seq::new(mask@.len(), |i: int| None::<(u32, u32)>));
    assert(output@ =~= image@);
    proof {
        reveal(fill_trace);
        reveal(recorded);
        let q = queue@;
        assert forall|j: int| 0 <= j < q.len() implies (#[trigger] q[j]).0 < width && q[j].1 < height
            && queued@[index_of(q[j], w)] && unknown@[index_of(q[j], w)] by {
            let i = choose|i: int| 0 <= i < n && on_boundary(mask@, w, h, i) && q[j] == cell_of(i, w);
            lemma_cell_of_inside(i, w, h);
        }
        assert forall|p: int| 0 <= p < n && queued@[p] && unknown@[p] implies q.contains(#[trigger] cell_of(p, w)) by {}
        assert forall|p: int| 0 <= p < n && mask@[p] != 0 && !queued@[p] implies enclosed(unknown@, w, p) by {
            lemma_cell_of_inside(p, w, h);
            let c = cell_of(p, w);
            assert forall|j: int| 0 <= j < unknown@.len() && adjacent(cell_of(j, w), cell_of(p, w)) implies #[trigger] unknown@[j] by {
                lemma_cell_of_inside(j, w, h);
                lemma_neighbor_cells(c.0, c.1, width, height, cell_of(j, w));
                let k = choose|k: int|
                    0 <= k < neighbor_cells(c.0, c.1, width, height).len() && #[trigger] neighbor_cells(
                        c.0,
                        c.1,
                        width,
                        height,
                    )[k] == cell_of(j, w);
                if mask@[j] == 0 {
                    assert(touches(mask@, c.0, c.1, width, height));
                }
            }
        }
    }
    while queue.len() > 0
        invariant
            n == mask@.len() == width * height,
            image@.len() == 4 * n,
            bytes == image@.len(),
            sources@ == sampled(image@, mask@, w, n as int).sources,
            boundary(mask@, w, h, n as int).len() > 0,
            width <= u32::MAX,
            height <= u32::MAX,
            0 < width,
            w == width as int,
            h == height as int,
            forall|o: &[u8], u: &[bool], x: u32, y: u32, c: &[(u32, u32)]| #[trigger] pick.requires((o, u, x, y, c)),
            sources@.len() > 0,
            all_inside(sources@, width, height),
            all_usable(image@, mask@, sources@, w),
            matches@.len() == n,
            frontier(mask@, w, h, unknown@, queued@, queue@),
            copied(image@, mask@, unknown@, output@),
            forall|p: int| 0 <= p < n && mask@[p] != 0 && !queued@[p] ==> enclosed(unknown@, w, p),
            start_state == sampled(image@, mask@, w, n as int).state,
            fill_trace(image@, mask@, sources@, start_state, width, height, pick, steps, (output@, unknown@, matches@, state)),
            recorded(image@, mask@, unknown@, output@, steps, w),
        decreases unset_count(queued@) + queue@.len(),
    {
        if is_cancelled(cancel) {
            return Err(FillError::Cancelled);
        }
        let ghost measure = unset_count(queued@) + queue@.len();
        let ghost before = queue@;
        let (x, y) = queue.pop_front().unwrap();
        assert(before[0] == (x, y));
        assert(queue@ == before.drop_first());
        let q = pixel_index(x, y, width, height, n);
        proof {
            lemma_cell_index((x, y), w, h);
            lemma_pop(mask@, w, h, unknown@, queued@, before, q as int);
        }
        let ghost state_before = state;
        let candidates = gather_candidates(image, mask, &matches, &sources, x, y, width, height, &mut state);
        let seen = output.as_slice();
        let open = unknown.as_slice();
        let offered = candidates.as_slice();
        let chosen = pick(seen, open, x, y, offered);
        let best = if chosen < candidates.len() { candidates[chosen] } else { sources[0] };
        let ghost step = FillStep {
            cell: (x, y),
            output: output@,
            unknown: unknown@,
            matches: matches@,
            state: state_before,
            candidates: candidates@,
            chosen,
            best,
        };
        let ghost old_steps = steps;
        proof {
            assert(pick.ensures((seen, open, step.cell.0, step.cell.1, offered), step.chosen));
            assert(step_taken(image@, mask@, sources@, width, height, pick, step));
            lemma_extend_trace(image@, mask@, sources@, start_state, width, height, pick, steps, (output@, unknown@, matches@, state_before), step);
        }
        let b = pixel_index(best.0, best.1, width, height, n);
        let ghost old_output = output@;
        let ghost old_unknown = unknown@;
        let v0 = image[4 * b];
        let v1 = image[4 * b + 1];
        let v2 = image[4 * b + 2];
        let v3 = image[4 * b + 3];
        output.set(4 * q, v0);
        output.set(4 * q + 1, v1);
        output.set(4 * q + 2, v2);
        output.set(4 * q + 3, v3);
        unknown.set(q, false);
        matches.set(q, Some(best));
        proof {
            lemma_cell_index(best, w, h);
            lemma_record(image@, mask@, old_unknown, old_output, old_steps, w, step);
            steps = steps.push(step);
            assert(output@ =~= output_after(step, image@, w));
            assert(unknown@ =~= old_unknown.update(q as int, false));
            assert((output@, unknown@, matches@, state) == state_after(step, image@, mask@, sources@, width, height));
            assert(queued@[q as int]);
            assert(mask@[q as int] != 0);
            assert(same_pixel(output@, q as int, image@, b as int));
            if chosen < candidates.len() {
                assert(best == candidates@[chosen as int]);
            } else {
                assert(best == sources@[0]);
            }
            assert(usable(image@, mask@, b as int));
            assert forall|i: int| 0 <= i < n && !(mask@[i] != 0 && !unknown@[i]) implies #[trigger] same_pixel(
                output@,
                i,
                image@,
                i,
            ) by {
                assert(i != q);
                assert(same_pixel(old_output, i, image@, i));
            }
            assert forall|i: int| 0 <= i < n && mask@[i] != 0 && !unknown@[i] implies exists|j: int|
                0 <= j < n && usable(image@, mask@, j) && #[trigger] same_pixel(output@, i, image@, j) by {
                if i == q {
                    assert(usable(image@, mask@, b as int) && same_pixel(output@, i, image@, b as int));
                } else {
                    assert(!old_unknown[i]);
                    let j = choose|j: int| 0 <= j < n && usable(image@, mask@, j) && #[trigger] same_pixel(old_output, i, image@, j);
                    assert(same_pixel(output@, i, image@, j));
                }
            }
        }
        let cells = neighbors(x, y, width, height);
        proof {
            lemma_neighbor_cells_inside(x, y, width, height);
            lemma_neighbor_cells(x, y, width, height, (x, y));
        }
        for k in 0..cells.len()
            invariant
                n == mask@.len() == width * height,
                0 < width,
                w == width as int,
                h == height as int,
                q < n,
                q == index_of((x, y), w),
                x < width && y < height,
                cells@ == neighbor_cells(x, y, width, height),
                all_inside(cells@, width, height),
                !unknown@[q as int],
                frontier(mask@, w, h, unknown@, queued@, queue@),
                unset_count(queued@) + queue@.len() + 1 == measure,
                forall|p: int| 0 <= p < n && mask@[p] != 0 && !queued@[p] ==> forall|j: int|
                    0 <= j < n && j != q && adjacent(cell_of(j, w), cell_of(p, w)) ==> #[trigger] unknown@[j],
                width <= u32::MAX,
                height <= u32::MAX,
                forall|m: int| 0 <= m < k ==> queued@[index_of(#[trigger] cells@[m], w)] || !unknown@[index_of(cells@[m], w)],
        {
            let (nx, ny) = cells[k];
            let ni = pixel_index(nx, ny, width, height, n);
            let ghost was = queued@;
            if unknown[ni] && !queued[ni] {
                proof {
                    lemma_mark(queued@, ni as int);
                }
                proof {
                    lemma_enqueue(mask@, w, h, unknown@, queued@, queue@, (nx, ny));
                }
                queued.set(ni, true);
                queue.push_back((nx, ny));
            }
            proof {
                assert forall|m: int| 0 <= m < k + 1 implies queued@[index_of(#[trigger] cells@[m], w)] || !unknown@[index_of(cells@[m], w)] by {
                    lemma_cell_index(cells@[m], w, h);
                    if m < k {
                        assert(was[index_of(cells@[m], w)] ==> queued@[index_of(cells@[m], w)]);
                    }
                }
            }
        }
        proof {
            assert forall|p: int| 0 <= p < n && mask@[p] != 0 && !queued@[p] implies enclosed(unknown@, w, p) by {
                lemma_cell_of_inside(p, w, h);
                assert forall|j: int| 0 <= j < unknown@.len() && adjacent(cell_of(j, w), cell_of(p, w)) implies #[trigger] unknown@[j] by {
                    if j == q {
                        lemma_neighbor_cells(x, y, width, height, cell_of(p, w));
                        let m = choose|m: int|
                            0 <= m < neighbor_cells(x, y, width, height).len() && #[trigger] neighbor_cells(
                                x,
                                y,
                                width,
                                height,
                            )[m] == cell_of(p, w);
                        assert(queued@[index_of(cells@[m], w)] || !unknown@[index_of(cells@[m], w)]);
                    }
                }
            }
        }
    }
    proof {
        assert(fill_outcome(image@, mask@, w, h, output@, unknown@));
        let e = index_of(sources@[0], w);
        assert(usable(image@, mask@, e));
        lemma_cell_index(sources@[0], w, h);
        if exists|p: int| 0 <= p < n && #[trigger] unknown@[p] {
            let p = choose|p: int| 0 <= p < n && #[trigger] unknown@[p];
            lemma_closed_covers(unknown@, w, h, p);
            assert(unknown@[e]);
        }
        assert(fill_trace(
            image@,
            mask@,
            sampled(image@, mask@, w, n as int).sources,
            sampled(image@, mask@, w, n as int).state,
            width,
            height,
            pick,
            steps,
            (output@, unknown@, matches@, state),
        ) && recorded(image@, mask@, unknown@, output@, steps, w));
    }
    let fill = Fill { pixels: output, remaining: unknown };
    proof {
        assert(fill_trace(
            image@,
            mask@,
            sampled(image@, mask@, width as int, mask@.len() as int).sources,
            sampled(image@, mask@, width as int, mask@.len() as int).state,
            width,
            height,
            pick,
            steps,
            (fill.pixels@, fill.remaining@, matches@, state),
        ));
        assert(traced(image@, mask@, width, height, pick, fill.pixels@, fill.remaining@));
    }
    Ok(fill)
}

/// The color of pixel `i` of an RGBA buffer.
pub open spec fn color_of(image: Seq<u8>, i: int) -> (u8, u8, u8) {
    (image[4 * i], image[4 * i + 1], image[4 * i + 2])
}

/// `a` and `b` differ by at most `tolerance`.
pub open spec fn near(a: u8, b: u8, tolerance: u8) -> bool {
    -(tolerance as int) <= a - b <= tolerance
}

/// Pixel `i` joins a background region grown from `seed`: it is fully
/// transparent, or each color channel is within `tolerance` of the seed.
pub open spec fn joins(image: Seq<u8>, i: int, seed: (u8, u8, u8), tolerance: u8) -> bool {
    image[4 * i + 3] == 0 || (near(image[4 * i], seed.0, tolerance) && near(image[4 * i + 1], seed.1, tolerance) && near(
        image[4 * i + 2],
        seed.2,
        tolerance,
    ))
}

/// Pixel `i` lies on the edge of a `width` by `height` image.
pub open spec fn on_edge(i: int, width: int, height: int) -> bool {
    let (x, y) = cell_of(i, width);
    x == 0 || y == 0 || x == width - 1 || y == height - 1
}

/// `seed` is the color of some pixel on the image's edge.
pub open spec fn edge_color(image: Seq<u8>, width: int, height: int, seed: (u8, u8, u8)) -> bool {
    exists|b: int| 0 <= b < width * height && on_edge(b, width, height) && #[trigger] color_of(image, b) == seed
}

/// What background removal promises of its matte: 0 marks background and
/// 255 the rest; every edge pixel is background; each background pixel was
/// reached from an edge color that it matches, and each of its neighbors is
/// background too or does not match that color. Reaching is by steps between
/// 4-neighbors: under the times `rank`, each background pixel is an edge
/// pixel whose own color is its seed, or has a background neighbor with the
/// same seed reached earlier, so following earlier neighbors always ends at
/// the edge pixel the seed came from, through background pixels that match it.
pub open spec fn matte_outcome(image: Seq<u8>, width: int, height: int, tolerance: u8, matte: Seq<u8>) -> bool {
    let n = width * height;
    &&& matte.len() == n
    &&& forall|i: int| 0 <= i < n ==> #[trigger] matte[i] == 0 || matte[i] == 255
    &&& forall|i: int| 0 <= i < n && #[trigger] on_edge(i, width, height) ==> matte[i] == 0
    &&& exists|seeds: Seq<(u8, u8, u8)>, rank: Seq<int>|
        #![trigger seeds.len(), rank.len()]
        seeds.len() == n && rank.len() == n && forall|i: int|
            0 <= i < n && #[trigger] matte[i] == 0 ==> edge_color(image, width, height, seeds[i]) && joins(
                image,
                i,
                seeds[i],
                tolerance,
            ) && (forall|j: int|
                0 <= j < n && adjacent(cell_of(j, width), cell_of(i, width)) ==> #[trigger] matte[j] == 0
                    || !joins(image, j, seeds[i], tolerance)) && ((on_edge(i, width, height) && color_of(image, i)
                == seeds[i]) || exists|j: int|
                0 <= j < n && matte[j] == 0 && adjacent(cell_of(j, width), cell_of(i, width)) && seeds[j] == seeds[i]
                    && 0 <= #[trigger] rank[j] < rank[i])
}

/// Every queued entry is an edge pixel carrying its own color.
pub open spec fn edge_rooted(image: Seq<u8>, width: int, height: int, queue: Seq<(u32, u32, (u8, u8, u8))>) -> bool {
    forall|k: int|
        0 <= k < queue.len() ==> on_edge(index_of(((#[trigger] queue[k]).0, queue[k].1), width), width, height)
            && color_of(image, index_of((queue[k].0, queue[k].1), width)) == queue[k].2
}

/// Pixel `i`, marked with seed `seeds[i]` at time `rank[i]`, starts a region
/// at the edge of the image with its own color as seed, or has a 4-neighbor
/// marked earlier from the same seed.
pub open spec fn reached(
    image: Seq<u8>,
    width: int,
    height: int,
    marks: Seq<bool>,
    seeds: Seq<(u8, u8, u8)>,
    rank: Seq<int>,
    i: int,
) -> bool {
    (on_edge(i, width, height) && color_of(image, i) == seeds[i]) || exists|j: int|
        0 <= j < marks.len() && marks[j] && adjacent(cell_of(j, width), cell_of(i, width)) && seeds[j] == seeds[i]
            && 0 <= #[trigger] rank[j] < rank[i]
}

/// The queued entry `e` is an edge pixel carrying its own color, or a
/// 4-neighbor of a pixel marked before time `clock` from the seed it carries.
pub open spec fn entry_reached(
    image: Seq<u8>,
    width: int,
    height: int,
    marks: Seq<bool>,
    seeds: Seq<(u8, u8, u8)>,
    rank: Seq<int>,
    clock: int,
    e: (u32, u32, (u8, u8, u8)),
) -> bool {
    (on_edge(index_of((e.0, e.1), width), width, height) && color_of(image, index_of((e.0, e.1), width)) == e.2)
        || exists|j: int|
        0 <= j < marks.len() && marks[j] && adjacent(cell_of(j, width), (e.0, e.1)) && seeds[j] == e.2 && 0
            <= #[trigger] rank[j] < clock
}

/// Why background removal stopped.
#[derive(Clone, Copy, Debug, PartialEq, Eq, Structural)]
pub enum MatteError {
    /// The caller asked to stop.
    Cancelled,
}

/// The color of the pixel at (x, y).
fn pixel_color(image: &[u8], x: u32, y: u32, width: u32, height: u32) -> (color: (u8, u8, u8))
    requires
        x < width,
        y < height,
        image@.len() == 4 * (width * height),
    ensures
        color == color_of(image@, index_of((x, y), width as int)),
{
    assert(image@.len() == image.len());
    let i = pixel_index(x, y, width, height, image.len() / 4);
    (image[4 * i], image[4 * i + 1], image[4 * i + 2])
}

/// Whether pixel `i` joins a region grown from `seed`.
fn joins_seed(image: &[u8], i: usize, seed: (u8, u8, u8), tolerance: u8) -> (result: bool)
    requires
        4 * i + 3 < image@.len(),
    ensures
        result == joins(image@, i as int, seed, tolerance),
{
    assert(image@.len() == image.len());
    if image[4 * i + 3] == 0 {
        return true;
    }
    let close = |a: u8, b: u8| -> (c: bool)
        ensures
            c == near(a, b, tolerance),
        { if a >= b { a - b <= tolerance } else { b - a <= tolerance } };
    close(image[4 * i], seed.0) && close(image[4 * i + 1], seed.1) && close(image[4 * i + 2], seed.2)
}

/// Queue entries lie inside the image and carry edge colors.
pub open spec fn seeded(image: Seq<u8>, width: int, height: int, queue: Seq<(u32, u32, (u8, u8, u8))>) -> bool {
    forall|k: int|
        0 <= k < queue.len() ==> (#[trigger] queue[k]).0 < width && queue[k].1 < height && edge_color(
            image,
            width,
            height,
            queue[k].2,
        )
}

/// Marking pixel `i` from the first queued entry, at the next time on the
/// clock, keeps every marked pixel reached and every remaining entry reached.
proof fn lemma_visit_reached(
    image: Seq<u8>,
    w: int,
    h: int,
    was: Seq<bool>,
    seeds_was: Seq<(u8, u8, u8)>,
    rank_was: Seq<int>,
    clock_was: int,
    before: Seq<(u32, u32, (u8, u8, u8))>,
    i: int,
    x: u32,
    y: u32,
    seed: (u8, u8, u8),
)
    requires
        seeds_was.len() == was.len(),
        rank_was.len() == was.len(),
        0 <= clock_was,
        0 <= i < was.len(),
        !was[i],
        i == index_of((x, y), w),
        cell_of(i, w) == (x, y),
        before.len() > 0,
        before[0] == (x, y, seed),
        forall|p: int|
            0 <= p < was.len() && #[trigger] was[p] ==> 0 <= rank_was[p] < clock_was && reached(
                image,
                w,
                h,
                was,
                seeds_was,
                rank_was,
                p,
            ),
        forall|k: int|
            0 <= k < before.len() ==> entry_reached(image, w, h, was, seeds_was, rank_was, clock_was, #[trigger] before[k]),
    ensures
        ({
            let visited = was.update(i, true);
            let seeds = seeds_was.update(i, seed);
            let rank = rank_was.update(i, clock_was);
            let clock = clock_was + 1;
            &&& forall|p: int|
                0 <= p < was.len() && #[trigger] visited[p] ==> 0 <= rank[p] < clock && reached(
                    image,
                    w,
                    h,
                    visited,
                    seeds,
                    rank,
                    p,
                )
            &&& forall|k: int|
                0 <= k < before.len() - 1 ==> entry_reached(
                    image,
                    w,
                    h,
                    visited,
                    seeds,
                    rank,
                    clock,
                    #[trigger] before.drop_first()[k],
                )
        }),
{
    let visited = was.update(i, true);
    let seeds = seeds_was.update(i, seed);
    let rank = rank_was.update(i, clock_was);
    let clock = clock_was + 1;
    assert(entry_reached(image, w, h, was, seeds_was, rank_was, clock_was, before[0]));
    if !(on_edge(index_of((x, y), w), w, h) && color_of(image, index_of((x, y), w)) == seed) {
        let j = choose|j: int|
            0 <= j < was.len() && was[j] && adjacent(cell_of(j, w), (x, y)) && seeds_was[j] == seed && 0
                <= #[trigger] rank_was[j] < clock_was;
        assert(j != i);
        assert(visited[j] && seeds[j] == seeds[i] && rank[j] == rank_was[j]);
        assert(reached(image, w, h, visited, seeds, rank, i));
    }
    assert forall|p: int| 0 <= p < was.len() && #[trigger] visited[p] implies 0 <= rank[p] < clock && reached(
        image,
        w,
        h,
        visited,
        seeds,
        rank,
        p,
    ) by {
        if p != i {
            assert(was[p]);
            assert(reached(image, w, h, was, seeds_was, rank_was, p));
            if !(on_edge(p, w, h) && color_of(image, p) == seeds_was[p]) {
                let j = choose|j: int|
                    0 <= j < was.len() && was[j] && adjacent(cell_of(j, w), cell_of(p, w)) && seeds_was[j]
                        == seeds_was[p] && 0 <= #[trigger] rank_was[j] < rank_was[p];
                assert(j != i);
                assert(visited[j] && rank[j] == rank_was[j]);
            }
        }
    }
    assert forall|k: int| 0 <= k < before.len() - 1 implies entry_reached(
        image,
        w,
        h,
        visited,
        seeds,
        rank,
        clock,
        #[trigger] before.drop_first()[k],
    ) by {
        assert(before.drop_first()[k] == before[k + 1]);
        assert(entry_reached(image, w, h, was, seeds_was, rank_was, clock_was, before[k + 1]));
        let e = before[k + 1];
        if !(on_edge(index_of((e.0, e.1), w), w, h) && color_of(image, index_of((e.0, e.1), w)) == e.2) {
            let j = choose|j: int|
                0 <= j < was.len() && was[j] && adjacent(cell_of(j, w), (e.0, e.1)) && seeds_was[j] == e.2
                    && 0 <= #[trigger] rank_was[j] < clock_was;
            assert(j != i);
            assert(visited[j] && rank[j] == rank_was[j]);
        }
    }
}

/// The background matte of `image`: starting from every edge pixel with its
/// own color as seed, a region grows through 4-neighbors that are fully
/// transparent or within `tolerance` of the seed in every color channel,
/// each step carrying its seed along. Grown pixels get 0, all others 255.
/// `cancel` is read before each step, and the matte is given up once it is
/// found set; an empty image takes no step and always gives its empty matte.
pub fn edge_matte(image: &[u8], width: u32, height: u32, tolerance: u8, cancel: &AtomicBool) -> (result: Result<
    Vec<u8>,
    MatteError,
>)
    requires
        image@.len() == 4 * (width * height),
        (width == 0) == (height == 0),
    ensures
        result matches Ok(matte) ==> matte_outcome(image@, width as int, height as int, tolerance, matte@),
        width == 0 ==> (result matches Ok(matte) && matte@.len() == 0),
        result is Err ==> result == Err::<Vec<u8>, MatteError>(MatteError::Cancelled) && read_gives(cancel, true),
{
    assert(image@.len() == image.len());
    let n = image.len() / 4;
    let ghost w = width as int;
    let ghost h = height as int;
    let mut matte: Vec<u8> = Vec::new();
    let mut visited: Vec<bool> = Vec::new();
    for i in 0..n
        invariant
            matte@.len() == i,
            visited@.len() == i,
            forall|j: int| 0 <= j < i ==> #[trigger] matte@[j] == 255,
            forall|j: int| 0 <= j < i ==> !#[trigger] visited@[j],
    {
        matte.push(255);
        visited.push(false);
    }
    let mut queue: VecDeque<(u32, u32, (u8, u8, u8))> = VecDeque::new();
    for x in 0..width
        invariant
            w == width as int,
            h == height as int,
            n == width * height,
            image@.len() == 4 * n,
            (width == 0) == (height == 0),
            width == 0 ==> queue@.len() == 0,
            seeded(image@, w, h, queue@),
            edge_rooted(image@, w, h, queue@),
            forall|a: u32| a < x ==> #[trigger] queue@.contains((a, 0u32, color_of(image@, index_of((a, 0u32), w))))
                && queue@.contains((a, (height - 1) as u32, color_of(image@, index_of((a, (height - 1) as u32), w)))),
    {
        let ghost before = queue@;
        let top = pixel_color(image, x, 0, width, height);
        let bottom = pixel_color(image, x, height - 1, width, height);
        proof {
            lemma_edge_color(image@, w, h, (x, 0u32));
            lemma_edge_color(image@, w, h, (x, (height - 1) as u32));
        }
        queue.push_back((x, 0, top));
        queue.push_back((x, height - 1, bottom));
        proof {
            lemma_cell_index((x, 0u32), w, h);
            lemma_cell_index((x, (height - 1) as u32), w, h);
            assert forall|k: int| 0 <= k < queue@.len() implies on_edge(
                index_of(((#[trigger] queue@[k]).0, queue@[k].1), w),
                w,
                h,
            ) && color_of(image@, index_of((queue@[k].0, queue@[k].1), w)) == queue@[k].2 by {
                if k < before.len() {
                    assert(queue@[k] == before[k]);
                }
            }
            lemma_push_keeps(before, (x, 0u32, top), (x, (height - 1) as u32, bottom), queue@);
            assert forall|a: u32| a < x + 1 implies #[trigger] queue@.contains((a, 0u32, color_of(image@, index_of((a, 0u32), w))))
                && queue@.contains((a, (height - 1) as u32, color_of(image@, index_of((a, (height - 1) as u32), w)))) by {
                if a < x {
                    assert(before.contains((a, 0u32, color_of(image@, index_of((a, 0u32), w)))));
                    assert(before.contains((a, (height - 1) as u32, color_of(image@, index_of((a, (height - 1) as u32), w)))));
                }
            }
            assert forall|k: int| 0 <= k < queue@.len() implies (#[trigger] queue@[k]).0 < w && queue@[k].1 < h
                && edge_color(image@, w, h, queue@[k].2) by {
                if k < before.len() {
                    assert(queue@[k] == before[k]);
                }
            }
        }
    }
    for y in 0..height
        invariant
            w == width as int,
            h == height as int,
            n == width * height,
            image@.len() == 4 * n,
            width > 0 || n == 0,
            (width == 0) == (height == 0),
            width == 0 ==> queue@.len() == 0,
            seeded(image@, w, h, queue@),
            edge_rooted(image@, w, h, queue@),
            forall|a: u32| a < width ==> #[trigger] queue@.contains((a, 0u32, color_of(image@, index_of((a, 0u32), w))))
                && queue@.contains((a, (height - 1) as u32, color_of(image@, index_of((a, (height - 1) as u32), w)))),
            forall|b: u32| b < y ==> #[trigger] queue@.contains((0u32, b, color_of(image@, index_of((0u32, b), w))))
                && queue@.contains(((width - 1) as u32, b, color_of(image@, index_of(((width - 1) as u32, b), w)))),
    {
        let ghost before = queue@;
        let left = pixel_color(image, 0, y, width, height);
        let right = pixel_color(image, width - 1, y, width, height);
        proof {
            lemma_edge_color(image@, w, h, (0u32, y));
            lemma_edge_color(image@, w, h, ((width - 1) as u32, y));
        }
        queue.push_back((0, y, left));
        queue.push_back((width - 1, y, right));
        proof {
            lemma_cell_index((0u32, y), w, h);
            lemma_cell_index(((width - 1) as u32, y), w, h);
            assert forall|k: int| 0 <= k < queue@.len() implies on_edge(
                index_of(((#[trigger] queue@[k]).0, queue@[k].1), w),
                w,
                h,
            ) && color_of(image@, index_of((queue@[k].0, queue@[k].1), w)) == queue@[k].2 by {
                if k < before.len() {
                    assert(queue@[k] == before[k]);
                }
            }
            lemma_push_keeps(before, (0u32, y, left), ((width - 1) as u32, y, right), queue@);
            assert forall|a: u32| a < width implies #[trigger] queue@.contains((a, 0u32, color_of(image@, index_of((a, 0u32), w))))
                && queue@.contains((a, (height - 1) as u32, color_of(image@, index_of((a, (height - 1) as u32), w)))) by {
                assert(before.contains((a, 0u32, color_of(image@, index_of((a, 0u32), w)))));
                assert(before.contains((a, (height - 1) as u32, color_of(image@, index_of((a, (height - 1) as u32), w)))));
            }
            assert forall|b: u32| b < y + 1 implies #[trigger] queue@.contains((0u32, b, color_of(image@, index_of((0u32, b), w))))
                && queue@.contains(((width - 1) as u32, b, color_of(image@, index_of(((width - 1) as u32, b), w)))) by {
                if b < y {
                    assert(before.contains((0u32, b, color_of(image@, index_of((0u32, b), w)))));
                    assert(before.contains(((width - 1) as u32, b, color_of(image@, index_of(((width - 1) as u32, b), w)))));
                }
            }
            assert forall|k: int| 0 <= k < queue@.len() implies (#[trigger] queue@[k]).0 < w && queue@[k].1 < h
                && edge_color(image@, w, h, queue@[k].2) by {
                if k < before.len() {
                    assert(queue@[k] == before[k]);
                }
            }
        }
    }
    let ghost mut seeds: Seq<(u8, u8, u8)> = Seq::new(n as nat, |i: int| (0u8, 0u8, 0u8));
    let ghost mut rank: Seq<int> = Seq::new(n as nat, |i: int| 0int);
    let ghost mut clock: int = 0;
    proof {
        assert forall|k: int| 0 <= k < queue@.len() implies entry_reached(
            image@,
            w,
            h,
            visited@,
            seeds,
            rank,
            clock,
            #[trigger] queue@[k],
        ) by {}
        assert forall|i: int| 0 <= i < n && #[trigger] on_edge(i, w, h) implies visited@[i] || queue@.contains(
            (cell_of(i, w).0, cell_of(i, w).1, color_of(image@, i)),
        ) by {
            lemma_cell_of_inside(i, w, h);
            let c = cell_of(i, w);
            if c.1 == 0 {
                assert(queue@.contains((c.0, 0u32, color_of(image@, index_of((c.0, 0u32), w)))));
            } else if c.1 == height - 1 {
                assert(queue@.contains((c.0, 0u32, color_of(image@, index_of((c.0, 0u32), w)))));
                assert(queue@.contains((c.0, (height - 1) as u32, color_of(image@, index_of((c.0, (height - 1) as u32), w)))));
            } else if c.0 == 0 {
                assert(queue@.contains((0u32, c.1, color_of(image@, index_of((0u32, c.1), w)))));
            } else {
                assert(c.0 == width - 1);
                assert(queue@.contains((0u32, c.1, color_of(image@, index_of((0u32, c.1), w)))));
                assert(queue@.contains(((width - 1) as u32, c.1, color_of(image@, index_of(((width - 1) as u32, c.1), w)))));
            }
        }
    }
    while queue.len() > 0
        invariant
            w == width as int,
            h == height as int,
            n == width * height,
            image@.len() == 4 * n,
            width > 0 || n == 0,
            width == 0 ==> queue@.len() == 0,
            matte@.len() == n,
            visited@.len() == n,
            seeds.len() == n,
            rank.len() == n,
            0 <= clock,
            forall|p: int|
                0 <= p < n && #[trigger] visited@[p] ==> 0 <= rank[p] < clock && reached(
                    image@,
                    w,
                    h,
                    visited@,
                    seeds,
                    rank,
                    p,
                ),
            forall|k: int|
                0 <= k < queue@.len() ==> entry_reached(image@, w, h, visited@, seeds, rank, clock, #[trigger] queue@[k]),
            seeded(image@, w, h, queue@),
            forall|i: int| 0 <= i < n ==> (#[trigger] visited@[i] <==> matte@[i] == 0),
            forall|i: int| 0 <= i < n ==> #[trigger] matte@[i] == 0 || matte@[i] == 255,
            forall|i: int|
                0 <= i < n && #[trigger] visited@[i] ==> edge_color(image@, w, h, seeds[i]) && joins(
                    image@,
                    i,
                    seeds[i],
                    tolerance,
                ),
            forall|i: int|
                0 <= i < n && #[trigger] visited@[i] ==> forall|j: int|
                    0 <= j < n && adjacent(cell_of(j, w), cell_of(i, w)) ==> #[trigger] visited@[j] || !joins(
                        image@,
                        j,
                        seeds[i],
                        tolerance,
                    ) || queue@.contains((cell_of(j, w).0, cell_of(j, w).1, seeds[i])),
            forall|i: int| 0 <= i < n && #[trigger] on_edge(i, w, h) ==> visited@[i] || queue@.contains(
                (cell_of(i, w).0, cell_of(i, w).1, color_of(image@, i)),
            ),
        decreases unset_count(visited@), queue@.len(),
    {
        if is_cancelled(cancel) {
            return Err(MatteError::Cancelled);
        }
        let ghost before = queue@;
        let entry = queue.pop_front().unwrap();
        let (x, y, seed) = entry;
        assert(before[0] == entry);
        assert(queue@ == before.drop_first());
        let i = pixel_index(x, y, width, height, n);
        proof {
            lemma_cell_index((x, y), w, h);
            assert forall|e: (u32, u32, (u8, u8, u8))| before.contains(e) && e != entry implies #[trigger] queue@.contains(e) by {
                let k = choose|k: int| 0 <= k < before.len() && before[k] == e;
                assert(queue@[k - 1] == before[k]);
            }
            assert forall|k: int| 0 <= k < queue@.len() implies #[trigger] queue@[k] == before[k + 1] by {}
        }
        if !visited[i] && joins_seed(image, i, seed, tolerance) {
            let ghost was = visited@;
            let ghost seeds_was = seeds;
            let ghost rank_was = rank;
            let ghost clock_was = clock;
            proof {
                lemma_mark(visited@, i as int);
            }
            visited.set(i, true);
            matte.set(i, 0);
            proof {
                seeds = seeds.update(i as int, seed);
                rank = rank.update(i as int, clock);
                clock = clock + 1;
                lemma_visit_reached(image@, w, h, was, seeds_was, rank_was, clock_was, before, i as int, x, y, seed);
                assert(visited@ == was.update(i as int, true));
                assert forall|k: int| 0 <= k < queue@.len() implies entry_reached(
                    image@,
                    w,
                    h,
                    visited@,
                    seeds,
                    rank,
                    clock,
                    #[trigger] queue@[k],
                ) by {
                    assert(queue@[k] == before.drop_first()[k]);
                }
            }
            let cells = neighbors(x, y, width, height);
            proof {
                lemma_neighbor_cells_inside(x, y, width, height);
                lemma_neighbor_cells(x, y, width, height, (x, y));
            }
            for k in 0..cells.len()
                invariant
                    w == width as int,
                    h == height as int,
                    n == width * height,
                    width > 0,
                    i < n,
                    i == index_of((x, y), w),
                    x < width && y < height,
                    cells@ == neighbor_cells(x, y, width, height),
                    all_inside(cells@, width, height),
                    visited@.len() == n,
                    seeds.len() == n,
                    seeds[i as int] == seed,
                    rank.len() == n,
                    visited@[i as int],
                    0 <= rank[i as int] < clock,
                    cell_of(i as int, w) == (x, y),
                    forall|k2: int|
                        0 <= k2 < queue@.len() ==> entry_reached(
                            image@,
                            w,
                            h,
                            visited@,
                            seeds,
                            rank,
                            clock,
                            #[trigger] queue@[k2],
                        ),
                    edge_color(image@, w, h, seed),
                    seeded(image@, w, h, queue@),
                    forall|e: (u32, u32, (u8, u8, u8))| before.contains(e) && e != entry ==> #[trigger] queue@.contains(e),
                    forall|m: int| 0 <= m < k ==> #[trigger] visited@[index_of(cells@[m], w)] || queue@.contains(
                        (cells@[m].0, cells@[m].1, seed),
                    ),
            {
                let (nx, ny) = cells[k];
                let ni = pixel_index(nx, ny, width, height, n);
                let ghost grown = queue@;
                if !visited[ni] {
                    queue.push_back((nx, ny, seed));
                    proof {
                        assert(queue@[queue@.len() - 1] == (nx, ny, seed));
                        assert forall|e: (u32, u32, (u8, u8, u8))| grown.contains(e) implies #[trigger] queue@.contains(e) by {
                            let k2 = choose|k2: int| 0 <= k2 < grown.len() && grown[k2] == e;
                            assert(queue@[k2] == grown[k2]);
                        }
                        assert forall|k2: int| 0 <= k2 < queue@.len() implies (#[trigger] queue@[k2]).0 < w && queue@[k2].1 < h
                            && edge_color(image@, w, h, queue@[k2].2) by {
                            if k2 < grown.len() {
                                assert(queue@[k2] == grown[k2]);
                            }
                        }
                        assert forall|k2: int| 0 <= k2 < queue@.len() implies entry_reached(
                            image@,
                            w,
                            h,
                            visited@,
                            seeds,
                            rank,
                            clock,
                            #[trigger] queue@[k2],
                        ) by {
                            if k2 < grown.len() {
                                assert(queue@[k2] == grown[k2]);
                            } else {
                                assert(adjacent(cells@[k as int], (x, y)));
                                assert(adjacent(cell_of(i as int, w), (nx, ny)));
                                assert(0 <= rank[i as int] < clock);
                            }
                        }
                    }
                }
            }
            proof {
                assert forall|p: int| 0 <= p < n && #[trigger] visited@[p] implies forall|j: int|
                    0 <= j < n && adjacent(cell_of(j, w), cell_of(p, w)) ==> #[trigger] visited@[j] || !joins(
                        image@,
                        j,
                        seeds[p],
                        tolerance,
                    ) || queue@.contains((cell_of(j, w).0, cell_of(j, w).1, seeds[p])) by {
                    lemma_cell_of_inside(p, w, h);
                    assert forall|j: int| 0 <= j < n && adjacent(cell_of(j, w), cell_of(p, w)) implies #[trigger] visited@[j]
                        || !joins(image@, j, seeds[p], tolerance) || queue@.contains(
                        (cell_of(j, w).0, cell_of(j, w).1, seeds[p]),
                    ) by {
                        lemma_cell_of_inside(j, w, h);
                        if p == i {
                            lemma_neighbor_cells(x, y, width, height, cell_of(j, w));
                            let m = choose|m: int|
                                0 <= m < neighbor_cells(x, y, width, height).len() && #[trigger] neighbor_cells(
                                    x,
                                    y,
                                    width,
                                    height,
                                )[m] == cell_of(j, w);
                            assert(visited@[index_of(cells@[m], w)] || queue@.contains((cells@[m].0, cells@[m].1, seed)));
                        } else {
                            assert(was[p]);
                            let e = (cell_of(j, w).0, cell_of(j, w).1, seeds[p]);
                            if !was[j] && joins(image@, j, seeds[p], tolerance) {
                                assert(before.contains(e));
                                if e == entry {
                                    assert(j == i);
                                }
                            }
                        }
                    }
                }
                assert forall|q: int| 0 <= q < n && #[trigger] on_edge(q, w, h) implies visited@[q] || queue@.contains(
                    (cell_of(q, w).0, cell_of(q, w).1, color_of(image@, q)),
                ) by {
                    lemma_cell_of_inside(q, w, h);
                    if !was[q] && (cell_of(q, w).0, cell_of(q, w).1, color_of(image@, q)) == entry {
                        assert(q == i);
                    }
                }
            }
        } else {
            proof {
                assert forall|p: int| 0 <= p < n && #[trigger] visited@[p] implies forall|j: int|
                    0 <= j < n && adjacent(cell_of(j, w), cell_of(p, w)) ==> #[trigger] visited@[j] || !joins(
                        image@,
                        j,
                        seeds[p],
                        tolerance,
                    ) || queue@.contains((cell_of(j, w).0, cell_of(j, w).1, seeds[p])) by {
                    assert forall|j: int| 0 <= j < n && adjacent(cell_of(j, w), cell_of(p, w)) implies #[trigger] visited@[j]
                        || !joins(image@, j, seeds[p], tolerance) || queue@.contains(
                        (cell_of(j, w).0, cell_of(j, w).1, seeds[p]),
                    ) by {
                        lemma_cell_of_inside(j, w, h);
                        if (cell_of(j, w).0, cell_of(j, w).1, seeds[p]) == entry {
                            assert(j == i);
                        }
                    }
                }
                assert forall|q: int| 0 <= q < n && #[trigger] on_edge(q, w, h) implies visited@[q] || queue@.contains(
                    (cell_of(q, w).0, cell_of(q, w).1, color_of(image@, q)),
                ) by {
                    lemma_cell_of_inside(q, w, h);
                    if (cell_of(q, w).0, cell_of(q, w).1, color_of(image@, q)) == entry {
                        assert(q == i);
                    }
                }
            }
        }
    }
    proof {
        assert(matte_outcome(image@, w, h, tolerance, matte@)) by {
            assert forall|i: int| 0 <= i < n && #[trigger] matte@[i] == 0 implies edge_color(image@, w, h, seeds[i])
                && joins(image@, i, seeds[i], tolerance) && (forall|j: int|
                0 <= j < n && adjacent(cell_of(j, w), cell_of(i, w)) ==> #[trigger] matte@[j] == 0 || !joins(
                    image@,
                    j,
                    seeds[i],
                    tolerance,
                )) && ((on_edge(i, w, h) && color_of(image@, i) == seeds[i]) || exists|j: int|
                0 <= j < n && matte@[j] == 0 && adjacent(cell_of(j, w), cell_of(i, w)) && seeds[j] == seeds[i]
                    && 0 <= #[trigger] rank[j] < rank[i]) by {
                assert(visited@[i]);
                assert(reached(image@, w, h, visited@, seeds, rank, i));
                if !(on_edge(i, w, h) && color_of(image@, i) == seeds[i]) {
                    let j = choose|j: int|
                        0 <= j < visited@.len() && visited@[j] && adjacent(cell_of(j, w), cell_of(i, w)) && seeds[j]
                            == seeds[i] && 0 <= #[trigger] rank[j] < rank[i];
                    assert(matte@[j] == 0);
                }
                assert forall|j: int| 0 <= j < n && adjacent(cell_of(j, w), cell_of(i, w)) implies #[trigger] matte@[j]
                    == 0 || !joins(image@, j, seeds[i], tolerance) by {
                    assert(visited@[j] || !joins(image@, j, seeds[i], tolerance) || queue@.contains(
                        (cell_of(j, w).0, cell_of(j, w).1, seeds[i]),
                    ));
                }
            }
            assert(seeds.len() == n && rank.len() == n);
        }
    }
    Ok(matte)
}

/// The color of a pixel on the edge is an edge color.
proof fn lemma_edge_color(image: Seq<u8>, width: int, height: int, cell: (u32, u32))
    requires
        cell.0 < width,
        cell.1 < height,
        width <= u32::MAX,
        height <= u32::MAX,
        cell.0 == 0 || cell.1 == 0 || cell.0 == width - 1 || cell.1 == height - 1,
    ensures
        edge_color(image, width, height, color_of(image, index_of(cell, width))),
{
    lemma_cell_index(cell, width, height);
    let b = index_of(cell, width);
    assert(on_edge(b, width, height));
}

/// Pushing two entries keeps what the queue held.
proof fn lemma_push_keeps(
    before: Seq<(u32, u32, (u8, u8, u8))>,
    a: (u32, u32, (u8, u8, u8)),
    b: (u32, u32, (u8, u8, u8)),
    after: Seq<(u32, u32, (u8, u8, u8))>,
)
    requires
        after == before.push(a).push(b),
    ensures
        forall|e: (u32, u32, (u8, u8, u8))| before.contains(e) ==> #[trigger] after.contains(e),
        after.contains(a),
        after.contains(b),
        forall|k: int| 0 <= k < after.len() ==> #[trigger] after[k] == a || after[k] == b || before.contains(after[k]),
{
    assert(after[before.len() as int] == a);
    assert(after[before.len() + 1int] == b);
    assert forall|e: (u32, u32, (u8, u8, u8))| before.contains(e) implies #[trigger] after.contains(e) by {
        let k = choose|k: int| 0 <= k < before.len() && before[k] == e;
        assert(after[k] == before[k]);
    }
    assert forall|k: int| 0 <= k < after.len() implies #[trigger] after[k] == a || after[k] == b || before.contains(
        after[k],
    ) by {
        if k < before.len() {
            assert(after[k] == before[k]);
        }
    }
}

/// The pixels of an image after content-aware fill, and which selected
/// pixels no fill reached.
pub struct Fill {
    pub pixels: Vec<u8>,
    pub remaining: Vec<bool>,
}

} // verus!
