//! The snapshot a paint gesture keeps of the pixels it has touched: for a
//! rectangle of the layer, one entry per pixel (the pixel before the gesture and
//! how strongly the gesture has covered it), row by row.
use vstd::prelude::*;

verus! {

/// `(x, y)` lies in the rectangle `[left, top, right, bottom)`.
pub open spec fn inside(r: [u32; 4], x: int, y: int) -> bool {
    r[0] <= x < r[2] && r[1] <= y < r[3]
}

/// `r` holds all of `bounds`.
pub open spec fn covers(r: [u32; 4], bounds: [u32; 4]) -> bool {
    bounds[0] >= r[0] && bounds[1] >= r[1] && bounds[2] <= r[2] && bounds[3] <= r[3]
}

/// Width of the rectangle `r`.
pub open spec fn span(r: [u32; 4]) -> int {
    r[2] - r[0]
}

/// Place of the pixel `(x, y)` in a row-by-row list of the pixels of `r`.
pub open spec fn offset(r: [u32; 4], x: int, y: int) -> int {
    (y - r[1]) * span(r) + (x - r[0])
}

/// The pixel at place `j` of a row-by-row list of the pixels of `r`.
pub open spec fn place(r: [u32; 4], j: int) -> (int, int) {
    (r[0] + j % span(r), r[1] + j / span(r))
}

/// `a` rounded down to a whole block of 64 pixels, the unit snapshots grow by.
pub open spec fn block_floor(a: u32) -> int {
    a / 64 * 64
}

/// `a` rounded up to a whole block of 64 pixels.
pub open spec fn block_ceil(a: u32) -> int {
    (a + 63) / 64 * 64
}

/// The smaller of two integers.
pub open spec fn lesser(a: int, b: int) -> int {
    if a <= b { a } else { b }
}

/// The larger of two integers.
pub open spec fn greater(a: int, b: int) -> int {
    if a >= b { a } else { b }
}

/// The rectangle a snapshot grows to when it must hold `bounds` on a layer of
/// `width` x `height`: `bounds` widened to whole blocks within the layer, joined
/// with the rectangle already held, if any.
pub open spec fn grown(held: Option<[u32; 4]>, bounds: [u32; 4], width: u32, height: u32) -> [u32; 4] {
    let b = [
        block_floor(bounds[0]) as u32,
        block_floor(bounds[1]) as u32,
        lesser(block_ceil(bounds[2]), width as int) as u32,
        lesser(block_ceil(bounds[3]), height as int) as u32,
    ];
    match held {
        None => b,
        Some(r) => [
            lesser(b[0] as int, r[0] as int) as u32,
            lesser(b[1] as int, r[1] as int) as u32,
            greater(b[2] as int, r[2] as int) as u32,
            greater(b[3] as int, r[3] as int) as u32,
        ],
    }
}

/// The pixels a gesture has touched, for the rectangle `bounds` of its layer.
pub struct Stroke<T> {
    bounds: [u32; 4],
    pixels: Vec<T>,
}

impl<T> Stroke<T> {
    /// The rectangle the snapshot is for.
    pub closed spec fn region(&self) -> [u32; 4] {
        self.bounds
    }

    /// The entries of the snapshot, row by row.
    pub closed spec fn entries(&self) -> Seq<T> {
        self.pixels@
    }

    /// The snapshot holds anything.
    pub open spec fn holds_any(&self) -> bool {
        self.entries().len() > 0
    }

    /// The entry for each pixel of the rectangle is in place.
    pub open spec fn well_formed(&self) -> bool {
        &&& self.region()[0] <= self.region()[2]
        &&& self.region()[1] <= self.region()[3]
        &&& self.entries().len() == span(self.region()) * (self.region()[3] - self.region()[1])
    }

    /// The entry for the pixel `(x, y)`.
    pub open spec fn at(&self, x: int, y: int) -> T {
        self.entries()[offset(self.region(), x, y)]
    }

    /// The rectangle held, when the snapshot holds anything.
    pub open spec fn held(&self) -> Option<[u32; 4]> {
        if self.holds_any() {
            Some(self.region())
        } else {
            None
        }
    }
}

/// The entry of a pixel inside a rectangle lies within its list, at a place
/// that gives the pixel back.
pub proof fn lemma_offset(r: [u32; 4], x: int, y: int)
    requires
        inside(r, x, y),
    ensures
        0 <= offset(r, x, y) < span(r) * (r[3] - r[1]),
        place(r, offset(r, x, y)) == (x, y),
{
    let w = span(r);
    let h = r[3] - r[1];
    assert(0 <= (y - r[1]) * w) by (nonlinear_arith)
        requires
            0 <= y - r[1],
            0 < w,
    ;
    assert((y - r[1]) * w + (x - r[0]) < w * h) by (nonlinear_arith)
        requires
            0 <= y - r[1] < h,
            0 <= x - r[0] < w,
    ;
    vstd::arithmetic::div_mod::lemma_fundamental_div_mod_converse(offset(r, x, y), w, y - r[1], x - r[0]);
}

/// Each place of the list of a rectangle is the entry of a pixel inside it.
pub proof fn lemma_place(r: [u32; 4], j: int)
    requires
        r[0] <= r[2],
        r[1] <= r[3],
        0 <= j < span(r) * (r[3] - r[1]),
    ensures
        inside(r, place(r, j).0, place(r, j).1),
        offset(r, place(r, j).0, place(r, j).1) == j,
{
    let w = span(r);
    let h = r[3] - r[1];
    assert(w > 0) by (nonlinear_arith)
        requires
            0 <= j < w * h,
            0 <= h,
    ;
    vstd::arithmetic::div_mod::lemma_fundamental_div_mod(j, w);
    vstd::arithmetic::div_mod::lemma_mod_pos_bound(j, w);
    assert(j / w < h) by (nonlinear_arith)
        requires
            j == w * (j / w) + j % w,
            0 <= j % w,
            j < w * h,
            w > 0,
    ;
    assert(0 <= j / w) by (nonlinear_arith)
        requires
            0 <= j,
            w > 0,
    ;
    assert(offset(r, place(r, j).0, place(r, j).1) == (j / w) * w + j % w);
    assert((j / w) * w == w * (j / w)) by (nonlinear_arith);
}

impl<T> Default for Stroke<T> {
    /// A snapshot that holds nothing.
    fn default() -> (stroke: Self)
        ensures
            stroke.region() == [0u32, 0, 0, 0],
            !stroke.holds_any(),
            stroke.well_formed(),
    {
        Stroke { bounds: [0, 0, 0, 0], pixels: Vec::new() }
    }
}

impl<T> Stroke<T> {
    /// Move the snapshot by `(x, y)` pixels, after the layer grew by that much
    /// to the left and top. A snapshot that holds nothing stays as it is.
    pub fn shift(&mut self, delta: [u32; 2])
        requires
            old(self).well_formed(),
            old(self).holds_any() ==> old(self).region()[2] + delta[0] <= u32::MAX && old(self).region()[3]
                + delta[1] <= u32::MAX,
        ensures
            final(self).well_formed(),
            final(self).entries() == old(self).entries(),
            final(self).region() == if old(self).holds_any() {
                [
                    (old(self).region()[0] + delta[0]) as u32,
                    (old(self).region()[1] + delta[1]) as u32,
                    (old(self).region()[2] + delta[0]) as u32,
                    (old(self).region()[3] + delta[1]) as u32,
                ]
            } else {
                old(self).region()
            },
    {
        if self.pixels.len() > 0 {
            let b = self.bounds;
            self.bounds = [b[0] + delta[0], b[1] + delta[1], b[2] + delta[0], b[3] + delta[1]];
            assert(self.bounds@ =~= seq![
                (b[0] + delta[0]) as u32,
                (b[1] + delta[1]) as u32,
                (b[2] + delta[0]) as u32,
                (b[3] + delta[1]) as u32,
            ]);
        }
    }

    /// Place of the entry for the pixel `(x, y)`.
    fn index(&self, x: u32, y: u32) -> (index: usize)
        requires
            self.well_formed(),
            inside(self.region(), x as int, y as int),
        ensures
            index == offset(self.region(), x as int, y as int),
            index < self.entries().len(),
    {
        let n = self.pixels.len();
        proof {
            lemma_offset(self.bounds, x as int, y as int);
        }
        let row = (y - self.bounds[1]) as usize;
        let width = (self.bounds[2] - self.bounds[0]) as usize;
        assert(row * width <= offset(self.bounds, x as int, y as int)) by (nonlinear_arith)
            requires
                row == y - self.bounds[1],
                width == self.bounds[2] - self.bounds[0],
                offset(self.bounds, x as int, y as int) == row * width + (x - self.bounds[0]),
                x >= self.bounds[0],
        ;
        row * width + (x - self.bounds[0]) as usize
    }

    /// The entries for the pixels `left..right` of row `y`.
    pub fn row(&self, left: u32, right: u32, y: u32) -> (entries: &[T])
        requires
            self.well_formed(),
            self.region()[0] <= left <= right <= self.region()[2],
            self.region()[1] <= y < self.region()[3],
        ensures
            entries@.len() == right - left,
            forall|i: int| 0 <= i < right - left ==> #[trigger] entries@[i] == self.at(left + i, y as int),
    {
        if left == right {
            return vstd::slice::slice_subrange(self.pixels.as_slice(), 0, 0);
        }
        let start = self.index(left, y);
        let n = self.pixels.len();
        proof {
            lemma_offset(self.bounds, (right - 1) as int, y as int);
        }
        let end = start + (right - left) as usize;
        let entries = vstd::slice::slice_subrange(self.pixels.as_slice(), start, end);
        entries
    }

    /// The entry for the pixel `(x, y)`, to be changed in place.
    pub fn pixel_mut(&mut self, x: u32, y: u32) -> (entry: &mut T)
        requires
            old(self).well_formed(),
            inside(old(self).region(), x as int, y as int),
        ensures
            *entry == old(self).at(x as int, y as int),
            final(self).region() == old(self).region(),
            final(self).entries() == old(self).entries().update(
                offset(old(self).region(), x as int, y as int),
                *final(entry),
            ),
    {
        let index = self.index(x, y);
        &mut self.pixels[index]
    }
}

impl<T: Copy> Stroke<T> {
    /// Make the snapshot hold `bounds` of a layer of `width` x `height` pixels
    /// whose pixel `(x, y)` reads as `original(x, y)`. A snapshot that already
    /// holds `bounds` is kept. Otherwise it grows to whole blocks around
    /// `bounds`, joined with what it held: pixels it held keep their entries,
    /// the others are read from the layer.
    pub fn prepare<F: Fn(u32, u32) -> T>(&mut self, bounds: [u32; 4], width: u32, height: u32, original: F)
        requires
            old(self).well_formed(),
            bounds[0] <= bounds[2] <= width,
            bounds[1] <= bounds[3] <= height,
            bounds[2] + 63 <= u32::MAX,
            bounds[3] + 63 <= u32::MAX,
            old(self).holds_any() && !covers(old(self).region(), bounds) ==> old(self).region()[2] <= width
                && old(self).region()[3] <= height,
            width * height <= usize::MAX,
            forall|x: u32, y: u32| x < width && y < height ==> call_requires(original, (x, y)),
        ensures
            final(self).well_formed(),
            covers(final(self).region(), bounds),
            old(self).holds_any() && covers(old(self).region(), bounds) ==> final(self).region() == old(
                self,
            ).region() && final(self).entries() == old(self).entries(),
            !(old(self).holds_any() && covers(old(self).region(), bounds)) ==> final(self).region() == grown(
                old(self).held(),
                bounds,
                width,
                height,
            ),
            !(old(self).holds_any() && covers(old(self).region(), bounds)) ==> forall|x: int, y: int|
                inside(final(self).region(), x, y) ==> if old(self).holds_any() && inside(old(self).region(), x, y) {
                    #[trigger] final(self).at(x, y) == old(self).at(x, y)
                } else {
                    call_ensures(original, (x as u32, y as u32), final(self).at(x, y))
                },
    {
        let b = self.bounds;
        let held = self.pixels.len() > 0;
        if held && bounds[0] >= b[0] && bounds[1] >= b[1] && bounds[2] <= b[2] && bounds[3] <= b[3] {
            return;
        }
        let up2 = (bounds[2] + 63) / 64 * 64;
        let up3 = (bounds[3] + 63) / 64 * 64;
        let mut next = [
            bounds[0] / 64 * 64,
            bounds[1] / 64 * 64,
            if up2 <= width { up2 } else { width },
            if up3 <= height { up3 } else { height },
        ];
        if held {
            next = [
                if next[0] <= b[0] { next[0] } else { b[0] },
                if next[1] <= b[1] { next[1] } else { b[1] },
                if next[2] >= b[2] { next[2] } else { b[2] },
                if next[3] >= b[3] { next[3] } else { b[3] },
            ];
        }
        assert(next@ =~= grown(old(self).held(), bounds, width, height)@);
        let stride = (next[2] - next[0]) as usize;
        let rows = (next[3] - next[1]) as usize;
        assert(stride * rows <= width * height) by (nonlinear_arith)
            requires
                stride <= width,
                rows <= height,
        ;
        let total = stride * rows;
        let mut pixels: Vec<T> = Vec::with_capacity(total);
        let mut y = next[1];
        assert((y - next[1]) * stride == 0) by (nonlinear_arith)
            requires
                y == next[1],
        ;
        while y < next[3]
            invariant
                next[0] <= next[2] <= width,
                next[1] <= y <= next[3] <= height,
                stride == next[2] - next[0],
                total == stride * (next[3] - next[1]),
                pixels@.len() == (y - next[1]) * stride,
                forall|x: u32, y: u32| x < width && y < height ==> call_requires(original, (x, y)),
                forall|j: int|
                    0 <= j < pixels@.len() ==> call_ensures(
                        original,
                        (place(next, j).0 as u32, place(next, j).1 as u32),
                        #[trigger] pixels@[j],
                    ),
            decreases next[3] - y,
        {
            let mut x = next[0];
            while x < next[2]
                invariant
                    next[0] <= x <= next[2] <= width,
                    next[1] <= y < next[3] <= height,
                    stride == next[2] - next[0],
                    total == stride * (next[3] - next[1]),
                    pixels@.len() == (y - next[1]) * stride + (x - next[0]),
                    forall|x: u32, y: u32| x < width && y < height ==> call_requires(original, (x, y)),
                    forall|j: int|
                        0 <= j < pixels@.len() ==> call_ensures(
                            original,
                            (place(next, j).0 as u32, place(next, j).1 as u32),
                            #[trigger] pixels@[j],
                        ),
                decreases next[2] - x,
            {
                proof {
                    lemma_offset(next, x as int, y as int);
                }
                let entry = original(x, y);
                pixels.push(entry);
                x = x + 1;
            }
            assert((y - next[1]) * stride + stride == (y + 1 - next[1]) * stride) by (nonlinear_arith);
            y = y + 1;
        }
        assert((next[3] - next[1]) * stride == total) by (nonlinear_arith)
            requires
                total == stride * (next[3] - next[1]),
        ;
        if held {
            let mut y = b[1];
            while y < b[3]
                invariant
                    self.bounds == b,
                    self.pixels@ == old(self).entries(),
                    self.well_formed(),
                    b[1] <= y <= b[3],
                    covers(next, b),
                    next[0] <= next[2],
                    next[1] <= next[3],
                    stride == next[2] - next[0],
                    total == stride * (next[3] - next[1]),
                    pixels@.len() == total,
                    forall|j: int|
                        0 <= j < total ==> if inside(b, place(next, j).0, place(next, j).1) && place(next, j).1 < y {
                            #[trigger] pixels@[j] == old(self).at(place(next, j).0, place(next, j).1)
                        } else {
                            call_ensures(original, (place(next, j).0 as u32, place(next, j).1 as u32), pixels@[j])
                        },
                decreases b[3] - y,
            {
                let mut x = b[0];
                while x < b[2]
                    invariant
                        self.bounds == b,
                        self.pixels@ == old(self).entries(),
                        self.well_formed(),
                        b[0] <= x <= b[2],
                        b[1] <= y < b[3],
                        covers(next, b),
                        next[0] <= next[2],
                        next[1] <= next[3],
                        stride == next[2] - next[0],
                        total == stride * (next[3] - next[1]),
                        pixels@.len() == total,
                        forall|j: int|
                            0 <= j < total ==> if inside(b, place(next, j).0, place(next, j).1) && (place(next, j).1 < y
                                || (place(next, j).1 == y && place(next, j).0 < x)) {
                                #[trigger] pixels@[j] == old(self).at(place(next, j).0, place(next, j).1)
                            } else {
                                call_ensures(original, (place(next, j).0 as u32, place(next, j).1 as u32), pixels@[j])
                            },
                    decreases b[2] - x,
                {
                    proof {
                        lemma_offset(next, x as int, y as int);
                    }
                    let row = (y - next[1]) as usize;
                    assert(row * stride <= offset(next, x as int, y as int)) by (nonlinear_arith)
                        requires
                            row == y - next[1],
                            offset(next, x as int, y as int) == row * stride + (x - next[0]),
                            x >= next[0],
                    ;
                    let to = row * stride + (x - next[0]) as usize;
                    let from = self.index(x, y);
                    let entry = self.pixels[from];
                    let ghost before = pixels@;
                    pixels.set(to, entry);
                    assert forall|j: int| 0 <= j < total implies if inside(b, place(next, j).0, place(next, j).1) && (
                    place(next, j).1 < y || (place(next, j).1 == y && place(next, j).0 < x + 1)) {
                        #[trigger] pixels@[j] == old(self).at(place(next, j).0, place(next, j).1)
                    } else {
                        call_ensures(original, (place(next, j).0 as u32, place(next, j).1 as u32), pixels@[j])
                    } by {
                        lemma_place(next, j);
                        if j != to {
                            assert(pixels@[j] == before[j]);
                        }
                    }
                    x = x + 1;
                }
                y = y + 1;
            }
        }
        assert(forall|j: int|
            0 <= j < total ==> if held && inside(b, place(next, j).0, place(next, j).1) {
                #[trigger] pixels@[j] == old(self).at(place(next, j).0, place(next, j).1)
            } else {
                call_ensures(original, (place(next, j).0 as u32, place(next, j).1 as u32), pixels@[j])
            });
        proof {
            assert forall|x: int, y: int| inside(next, x, y) implies if held && inside(b, x, y) {
                pixels@[offset(next, x, y)] == old(self).at(x, y)
            } else {
                call_ensures(original, (x as u32, y as u32), pixels@[offset(next, x, y)])
            } by {
                lemma_offset(next, x, y);
            }
        }
        *self = Stroke { bounds: next, pixels };
    }
}

} // verus!
