//! Grids that remember which cells are transparent and which were seen last.
use vstd::prelude::*;

use crate::bresenham::pt;
use crate::fov::{field_of_view, fov_holds, in_bounds, lemma_fov_in_bounds, VisionMap};
use crate::Point;

verus! {

pub open spec fn cell_index(width: i32, x: int, y: int) -> int {
    x + y * width
}

proof fn lemma_cell_index(width: i32, height: i32, x: int, y: int)
    requires
        width > 0,
        height > 0,
        in_bounds((width, height), x, y),
    ensures
        0 <= cell_index(width, x, y) < width * height,
        forall|a: int, b: int|
            in_bounds((width, height), a, b) && cell_index(width, a, b) == cell_index(width, x, y)
                ==> a == x && b == y,
{
    crate::fov::lemma_idx_bounds(width as int, height as int, x, y);
    assert forall|a: int, b: int|
        in_bounds((width, height), a, b) && cell_index(width, a, b) == cell_index(width, x, y) implies a
        == x && b == y by {
        crate::fov::lemma_idx_injective(width as int, a, b, x, y);
    }
}

/// Reads cell `(x, y)` of a row-by-row buffer, `default` where the buffer is too short.
fn read_cell(cells: &Vec<bool>, width: i32, x: i32, y: i32, default: bool) -> (r: bool)
    requires
        width > 0,
        0 <= x < width,
        0 <= y,
    ensures
        r == if cell_index(width, x as int, y as int) < cells@.len() {
            cells@[cell_index(width, x as int, y as int)]
        } else {
            default
        },
{
    proof {
        assert(0 <= y as int * width as int) by (nonlinear_arith)
            requires 0 <= y, 0 < width;
    }
    let len = cells.len();
    match (y as usize).checked_mul(width as usize) {
        Some(row) => match row.checked_add(x as usize) {
            Some(index) => if index < len {
                cells[index]
            } else {
                default
            },
            None => default,
        },
        None => default,
    }
}

/// A `len` long buffer of `value`.
fn filled(len: usize, value: bool) -> (r: Vec<bool>)
    ensures
        r@.len() == len,
        forall|i: int| 0 <= i < len ==> #[trigger] r@[i] == value,
{
    let mut v: Vec<bool> = Vec::new();
    while v.len() < len
        invariant
            v@.len() <= len,
            forall|i: int| 0 <= i < v@.len() ==> #[trigger] v@[i] == value,
        decreases len - v@.len(),
    {
        v.push(value);
    }
    v
}

/// Sets every cell of `cells` to `false`, then the cells of `points` to `true`.
fn mark_cells(cells: &mut Vec<bool>, width: i32, height: i32, points: &Vec<Point>)
    requires
        width > 0,
        height > 0,
        width * height <= usize::MAX,
        old(cells)@.len() == width * height,
        forall|k: int|
            0 <= k < points@.len() ==> in_bounds((width, height), #[trigger] points@[k].0 as int, points@[k].1 as int),
    ensures
        final(cells)@.len() == old(cells)@.len(),
        forall|x: int, y: int|
            in_bounds((width, height), x, y) ==> #[trigger] final(cells)@[cell_index(width, x, y)]
                == points@.contains((x as i32, y as i32)),
{
    let len = cells.len();
    let mut i: usize = 0;
    while i < len
        invariant
            len == cells@.len(),
            i <= len,
            forall|j: int| 0 <= j < i ==> !#[trigger] cells@[j],
        decreases len - i,
    {
        cells.set(i, false);
        i = i + 1;
    }
    proof {
        assert forall|x: int, y: int| in_bounds((width, height), x, y) implies #[trigger] cells@[cell_index(
            width,
            x,
            y,
        )] == points@.take(0).contains((x as i32, y as i32)) by {
            lemma_cell_index(width, height, x, y);
        }
    }
    let mut k: usize = 0;
    while k < points.len()
        invariant
            width > 0,
            height > 0,
            width * height <= usize::MAX,
            cells@.len() == width * height,
            k <= points@.len(),
            forall|j: int|
                0 <= j < points@.len() ==> in_bounds((width, height), #[trigger] points@[j].0 as int, points@[j].1 as int),
            forall|x: int, y: int|
                in_bounds((width, height), x, y) ==> #[trigger] cells@[cell_index(width, x, y)]
                    == points@.take(k as int).contains((x as i32, y as i32)),
        decreases points@.len() - k,
    {
        let (x, y) = points[k];
        proof {
            lemma_cell_index(width, height, x as int, y as int);
            assert(y as int * width as int <= x as int + y as int * width as int);
        }
        let index = (x as usize) + (y as usize) * (width as usize);
        let ghost before = cells@;
        cells.set(index, true);
        proof {
            assert forall|a: int, b: int| in_bounds((width, height), a, b) implies #[trigger] cells@[cell_index(
                width,
                a,
                b,
            )] == points@.take(k + 1).contains((a as i32, b as i32)) by {
                lemma_cell_index(width, height, a, b);
                let p = (a as i32, b as i32);
                assert(points@.take(k + 1) =~= points@.take(k as int).push(points@[k as int]));
                if p == points@[k as int] {
                    assert(points@.take(k + 1)[k as int] == p);
                } else {
                    assert(cells@[cell_index(width, a, b)] == before[cell_index(width, a, b)]);
                    if points@.take(k + 1).contains(p) {
                        let j = choose|j: int| 0 <= j < k + 1 && #[trigger] points@.take(k + 1)[j] == p;
                        assert(points@.take(k as int)[j] == p);
                    }
                }
            }
        }
        k = k + 1;
    }
    proof {
        assert(points@.take(points@.len() as int) =~= points@);
    }
}

/// A grid of transparent and opaque cells that remembers the field of view last computed on it.
///
/// Cells are addressed by `i32` coordinates, the `Point` of `field_of_view`, which does the
/// computing with the map as its `VisionMap`.
#[derive(Debug)]
pub struct FovMap {
    /// Transparency of each cell, row by row.
    transparent: Vec<bool>,
    /// Whether each cell is in the last computed field of view, row by row.
    vision: Vec<bool>,
    width: i32,
    height: i32,
    /// Where the field of view was last computed; `(-1, -1)` before that.
    last_origin: (i32, i32),
}

impl VisionMap for FovMap {
    closed spec fn spec_dimensions(&self) -> (i32, i32) {
        (self.width, self.height)
    }

    closed spec fn spec_opaque(&self, x: int, y: int) -> bool {
        let i = cell_index(self.width, x, y);
        !(i < self.transparent@.len() && self.transparent@[i])
    }

    fn dimensions(&self) -> (r: (i32, i32)) {
        (self.width, self.height)
    }

    fn is_opaque(&self, x: i32, y: i32) -> (r: bool) {
        !read_cell(&self.transparent, self.width, x, y, false)
    }
}

impl FovMap {
    pub closed spec fn wf(&self) -> bool {
        &&& self.width > 0
        &&& self.height > 0
        &&& self.width * self.height <= usize::MAX
        &&& self.transparent@.len() == self.width * self.height
        &&& self.vision@.len() == self.width * self.height
    }

    /// Whether the cell `(x, y)` is in the last computed field of view.
    pub closed spec fn spec_in_fov(&self, x: int, y: int) -> bool {
        self.vision@[cell_index(self.width, x, y)]
    }

    pub closed spec fn spec_last_origin(&self) -> (i32, i32) {
        self.last_origin
    }

    /// A `width` by `height` grid, every cell transparent, nothing seen yet.
    pub fn new(width: i32, height: i32) -> (r: FovMap)
        requires
            width > 0,
            height > 0,
            width * height <= usize::MAX,
        ensures
            r.wf(),
            r.spec_dimensions() == (width, height),
            r.spec_last_origin() == (-1i32, -1i32),
            forall|x: int, y: int| in_bounds((width, height), x, y) ==> !#[trigger] r.spec_opaque(x, y),
            forall|x: int, y: int| in_bounds((width, height), x, y) ==> !#[trigger] r.spec_in_fov(x, y),
    {
        let n = (width as usize) * (height as usize);
        let r = FovMap {
            transparent: filled(n, true),
            vision: filled(n, false),
            width,
            height,
            last_origin: (-1, -1),
        };
        proof {
            assert forall|x: int, y: int| in_bounds((width, height), x, y) implies !#[trigger] r.spec_opaque(x, y) by {
                lemma_cell_index(width, height, x, y);
            }
            assert forall|x: int, y: int| in_bounds((width, height), x, y) implies !#[trigger] r.spec_in_fov(x, y) by {
                lemma_cell_index(width, height, x, y);
            }
        }
        r
    }

    /// Returns `(width, height)`.
    pub fn size(&self) -> (r: (i32, i32))
        ensures
            r == self.spec_dimensions(),
    {
        (self.width, self.height)
    }

    /// Flags the cell `(x, y)` as transparent or opaque.
    pub fn set_transparent(&mut self, x: i32, y: i32, is_transparent: bool)
        requires
            old(self).wf(),
            in_bounds(old(self).spec_dimensions(), x as int, y as int),
        ensures
            final(self).wf(),
            final(self).spec_dimensions() == old(self).spec_dimensions(),
            final(self).spec_last_origin() == old(self).spec_last_origin(),
            final(self).spec_opaque(x as int, y as int) == !is_transparent,
            forall|a: int, b: int|
                in_bounds(old(self).spec_dimensions(), a, b) ==> #[trigger] final(self).spec_in_fov(a, b)
                    == old(self).spec_in_fov(a, b),
            forall|a: int, b: int|
                in_bounds(old(self).spec_dimensions(), a, b) && (a, b) != (x as int, y as int)
                    ==> #[trigger] final(self).spec_opaque(a, b) == old(self).spec_opaque(a, b),
    {
        proof {
            lemma_cell_index(self.width, self.height, x as int, y as int);
        }
        let index = (x as usize) + (y as usize) * (self.width as usize);
        self.transparent.set(index, is_transparent);
        proof {
            assert forall|a: int, b: int|
                in_bounds(old(self).spec_dimensions(), a, b) && (a, b) != (x as int, y as int) implies #[trigger] self.spec_opaque(
                a,
                b,
            ) == old(self).spec_opaque(a, b) by {
                lemma_cell_index(self.width, self.height, a, b);
            }
        }
    }

    /// Whether the cell `(x, y)` is transparent.
    pub fn is_transparent(&self, x: i32, y: i32) -> (r: bool)
        requires
            self.wf(),
            in_bounds(self.spec_dimensions(), x as int, y as int),
        ensures
            r == !self.spec_opaque(x as int, y as int),
    {
        !self.is_opaque(x, y)
    }

    /// Recomputes the cells seen from `(x, y)` within `radius`, walls included; the origin
    /// itself is always seen.
    pub fn calculate_fov(&mut self, x: i32, y: i32, radius: i32)
        requires
            old(self).wf(),
            in_bounds(old(self).spec_dimensions(), x as int, y as int),
        ensures
            final(self).wf(),
            final(self).spec_dimensions() == old(self).spec_dimensions(),
            final(self).spec_last_origin() == (x, y),
            forall|a: int, b: int|
                in_bounds(old(self).spec_dimensions(), a, b) ==> #[trigger] final(self).spec_opaque(a, b)
                    == old(self).spec_opaque(a, b),
            forall|a: int, b: int|
                in_bounds(old(self).spec_dimensions(), a, b) ==> #[trigger] final(self).spec_in_fov(a, b) == (
                (a, b) == (x as int, y as int) || fov_holds(old(self), (x as int, y as int), radius as int, true, (a, b))),
    {
        let ghost snapshot = *self;
        let mut visibles = field_of_view(&*self, x, y, radius, true);
        let ghost seen = visibles@;
        visibles.push((x, y));
        assert(visibles@.drop_last() =~= seen);
        proof {
            assert forall|k: int| 0 <= k < visibles@.len() implies in_bounds(
                (self.width, self.height),
                #[trigger] visibles@[k].0 as int,
                visibles@[k].1 as int,
            ) by {
                if k < visibles@.len() - 1 {
                    assert(seen[k] == visibles@[k]);
                    assert(seen.contains(visibles@[k]));
                    lemma_fov_in_bounds(&*self, (x as int, y as int), radius as int, true, pt(visibles@[k]));
                }
            }
        }
        mark_cells(&mut self.vision, self.width, self.height, &visibles);
        self.last_origin = (x, y);
        proof {
            assert forall|a: int, b: int| in_bounds(old(self).spec_dimensions(), a, b) implies #[trigger] self.spec_in_fov(a, b)
                == ((a, b) == (x as int, y as int) || fov_holds(old(self), (x as int, y as int), radius as int, true, (a, b))) by {
                let p = (a as i32, b as i32);
                assert(pt(p) == (a, b));
                assert(snapshot == *old(self));
                assert(seen.contains(p) == fov_holds(&snapshot, (x as int, y as int), radius as int, true, (a, b)));
                let n = visibles@.len() - 1;
                if visibles@.contains(p) && p != (x, y) {
                    let j = choose|j: int| 0 <= j < visibles@.len() && #[trigger] visibles@[j] == p;
                    assert(visibles@.drop_last()[j] == p);
                }
                if p == (x, y) {
                    assert(visibles@[n] == p);
                }
                if fov_holds(old(self), (x as int, y as int), radius as int, true, (a, b)) && p != (x, y) {
                    assert(visibles@.drop_last().contains(p));
                    let j = choose|j: int| 0 <= j < n && #[trigger] visibles@.drop_last()[j] == p;
                    assert(visibles@[j] == p);
                }
            }
        }
    }

    /// Whether the cell `(x, y)` is in the last computed field of view.
    pub fn is_in_fov(&self, x: i32, y: i32) -> (r: bool)
        requires
            self.wf(),
            in_bounds(self.spec_dimensions(), x as int, y as int),
        ensures
            r == self.spec_in_fov(x as int, y as int),
    {
        proof {
            lemma_cell_index(self.width, self.height, x as int, y as int);
        }
        read_cell(&self.vision, self.width, x, y, false)
    }
}

/// A grid of transparent and opaque cells that remembers the last field of view computed on it,
/// exactly as `field_of_view` returns it.
///
/// Cells are addressed by `i32` coordinates, the `Point` of `field_of_view`, which does the
/// computing with the map as its `VisionMap`.
#[derive(Debug)]
pub struct SampleMap {
    /// Transparency of each cell, row by row.
    transparent: Vec<bool>,
    /// Whether each cell is in the last computed field of view, row by row.
    vision: Vec<bool>,
    width: i32,
    height: i32,
    /// Where the field of view was last computed; `(-1, -1)` before that.
    last_origin: (i32, i32),
}

impl VisionMap for SampleMap {
    closed spec fn spec_dimensions(&self) -> (i32, i32) {
        (self.width, self.height)
    }

    closed spec fn spec_opaque(&self, x: int, y: int) -> bool {
        let i = cell_index(self.width, x, y);
        !(i < self.transparent@.len() && self.transparent@[i])
    }

    fn dimensions(&self) -> (r: (i32, i32)) {
        (self.width, self.height)
    }

    fn is_opaque(&self, x: i32, y: i32) -> (r: bool) {
        !read_cell(&self.transparent, self.width, x, y, false)
    }
}

impl SampleMap {
    pub closed spec fn wf(&self) -> bool {
        &&& self.width > 0
        &&& self.height > 0
        &&& self.width * self.height <= usize::MAX
        &&& self.transparent@.len() == self.width * self.height
        &&& self.vision@.len() == self.width * self.height
    }

    /// Whether the cell `(x, y)` is in the last computed field of view.
    pub closed spec fn spec_in_fov(&self, x: int, y: int) -> bool {
        self.vision@[cell_index(self.width, x, y)]
    }

    pub closed spec fn spec_last_origin(&self) -> (i32, i32) {
        self.last_origin
    }

    /// A `width` by `height` grid, every cell transparent, nothing seen yet.
    pub fn new(width: i32, height: i32) -> (r: SampleMap)
        requires
            width > 0,
            height > 0,
            width * height <= usize::MAX,
        ensures
            r.wf(),
            r.spec_dimensions() == (width, height),
            r.spec_last_origin() == (-1i32, -1i32),
            forall|x: int, y: int| in_bounds((width, height), x, y) ==> !#[trigger] r.spec_opaque(x, y),
            forall|x: int, y: int| in_bounds((width, height), x, y) ==> !#[trigger] r.spec_in_fov(x, y),
    {
        let n = (width as usize) * (height as usize);
        let r = SampleMap {
            transparent: filled(n, true),
            vision: filled(n, false),
            width,
            height,
            last_origin: (-1, -1),
        };
        proof {
            assert forall|x: int, y: int| in_bounds((width, height), x, y) implies !#[trigger] r.spec_opaque(x, y) by {
                lemma_cell_index(width, height, x, y);
            }
            assert forall|x: int, y: int| in_bounds((width, height), x, y) implies !#[trigger] r.spec_in_fov(x, y) by {
                lemma_cell_index(width, height, x, y);
            }
        }
        r
    }

    /// Flags the cell `(x, y)` as transparent or opaque.
    pub fn set_transparent(&mut self, x: i32, y: i32, is_transparent: bool)
        requires
            old(self).wf(),
            in_bounds(old(self).spec_dimensions(), x as int, y as int),
        ensures
            final(self).wf(),
            final(self).spec_dimensions() == old(self).spec_dimensions(),
            final(self).spec_last_origin() == old(self).spec_last_origin(),
            final(self).spec_opaque(x as int, y as int) == !is_transparent,
            forall|a: int, b: int|
                in_bounds(old(self).spec_dimensions(), a, b) ==> #[trigger] final(self).spec_in_fov(a, b)
                    == old(self).spec_in_fov(a, b),
            forall|a: int, b: int|
                in_bounds(old(self).spec_dimensions(), a, b) && (a, b) != (x as int, y as int)
                    ==> #[trigger] final(self).spec_opaque(a, b) == old(self).spec_opaque(a, b),
    {
        proof {
            lemma_cell_index(self.width, self.height, x as int, y as int);
        }
        let index = (x as usize) + (y as usize) * (self.width as usize);
        self.transparent.set(index, is_transparent);
        proof {
            assert forall|a: int, b: int|
                in_bounds(old(self).spec_dimensions(), a, b) && (a, b) != (x as int, y as int) implies #[trigger] self.spec_opaque(
                a,
                b,
            ) == old(self).spec_opaque(a, b) by {
                lemma_cell_index(self.width, self.height, a, b);
            }
        }
    }

    /// Recomputes the cells seen from `(x, y)` within `radius`, walls included.
    pub fn calculate_fov(&mut self, x: i32, y: i32, radius: i32)
        requires
            old(self).wf(),
            in_bounds(old(self).spec_dimensions(), x as int, y as int),
        ensures
            final(self).wf(),
            final(self).spec_dimensions() == old(self).spec_dimensions(),
            final(self).spec_last_origin() == (x, y),
            forall|a: int, b: int|
                in_bounds(old(self).spec_dimensions(), a, b) ==> #[trigger] final(self).spec_opaque(a, b)
                    == old(self).spec_opaque(a, b),
            forall|a: int, b: int|
                in_bounds(old(self).spec_dimensions(), a, b) ==> #[trigger] final(self).spec_in_fov(a, b)
                    == fov_holds(old(self), (x as int, y as int), radius as int, true, (a, b)),
    {
        let ghost snapshot = *self;
        let visibles = field_of_view(&*self, x, y, radius, true);
        proof {
            assert forall|k: int| 0 <= k < visibles@.len() implies in_bounds(
                (self.width, self.height),
                #[trigger] visibles@[k].0 as int,
                visibles@[k].1 as int,
            ) by {
                assert(visibles@.contains(visibles@[k]));
                lemma_fov_in_bounds(&*self, (x as int, y as int), radius as int, true, pt(visibles@[k]));
            }
        }
        mark_cells(&mut self.vision, self.width, self.height, &visibles);
        self.last_origin = (x, y);
        proof {
            assert forall|a: int, b: int| in_bounds(old(self).spec_dimensions(), a, b) implies #[trigger] self.spec_in_fov(a, b)
                == fov_holds(old(self), (x as int, y as int), radius as int, true, (a, b)) by {
                let p = (a as i32, b as i32);
                assert(pt(p) == (a, b));
                assert(snapshot == *old(self));
                assert(visibles@.contains(p) == fov_holds(&snapshot, (x as int, y as int), radius as int, true, (a, b)));
            }
        }
    }
}

} // verus!
