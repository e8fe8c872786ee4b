//! Field of view: which cells of a grid an observer sees within a radius.
//!
//! Rays are cast from the origin to every cell on the border of the square window around it,
//! clipped to the map; each ray stops at the first opaque cell, which it still lights. A pass
//! over each quadrant then lights the walls whose origin-facing side borders a lit floor cell.
use vstd::prelude::*;

use crate::bresenham::{
    dist2, lemma_line_distance_grows, lemma_line_ends, lemma_line_point_between, lemma_line_steps, line,
    line_len, line_point, pt, LineBresenham,
};
use crate::Point;

verus! {

/// A grid whose cells block sight or not.
pub trait VisionMap {
    /// `(width, height)` of the grid.
    spec fn spec_dimensions(&self) -> (i32, i32);

    /// Whether the cell `(x, y)` blocks sight.
    spec fn spec_opaque(&self, x: int, y: int) -> bool;

    fn dimensions(&self) -> (r: (i32, i32))
        ensures
            r == self.spec_dimensions(),
    ;

    fn is_opaque(&self, x: i32, y: i32) -> (r: bool)
        requires
            in_bounds(self.spec_dimensions(), x as int, y as int),
        ensures
            r == self.spec_opaque(x as int, y as int),
    ;
}

pub open spec fn in_bounds(dims: (i32, i32), x: int, y: int) -> bool {
    0 <= x < dims.0 && 0 <= y < dims.1
}

pub open spec fn max(a: int, b: int) -> int {
    if a >= b { a } else { b }
}

pub open spec fn min(a: int, b: int) -> int {
    if a <= b { a } else { b }
}

/// The square of side `2 * radius + 1` around `(x, y)`, clipped to the grid:
/// `(min_x, min_y, max_x, max_y)`, bounds included.
pub open spec fn window(dims: (i32, i32), x: int, y: int, radius: int) -> (int, int, int, int) {
    (max(x - radius, 0), max(y - radius, 0), min(x + radius, dims.0 - 1), min(y + radius, dims.1 - 1))
}

/// A window that is a single row or column holds no area to look at.
pub open spec fn degenerate(win: (int, int, int, int)) -> bool {
    win.2 - win.0 == 0 || win.3 - win.1 == 0
}

pub open spec fn in_window(win: (int, int, int, int), c: (int, int)) -> bool {
    win.0 <= c.0 <= win.2 && win.1 <= c.1 <= win.3
}

/// The cells on the border of the window: the targets of the rays.
pub open spec fn on_border(win: (int, int, int, int), d: (int, int)) -> bool {
    in_window(win, d) && (d.0 == win.0 || d.0 == win.2 || d.1 == win.1 || d.1 == win.3)
}

/// Within the radius, given as its square (`0` stands for no limit).
pub open spec fn within_radius(o: (int, int), c: (int, int), radius_square: int) -> bool {
    radius_square == 0 || (c.0 - o.0) * (c.0 - o.0) + (c.1 - o.1) * (c.1 - o.1) <= radius_square
}

/// No cell of the ray strictly between the origin and its `j`-th cell blocks sight.
pub open spec fn ray_clear<M: VisionMap>(map: &M, o: (int, int), d: (int, int), j: int) -> bool {
    forall|l: int|
        1 <= l < j ==> !#[trigger] map.spec_opaque(line_point(o, d, l).0, line_point(o, d, l).1)
}

/// Among its first `n` cells, the ray from `o` towards `d` lights `c`: `c` is one of them past
/// the origin, within the radius, and no cell before it blocks sight.
pub open spec fn ray_lights_before<M: VisionMap>(
    map: &M,
    o: (int, int),
    d: (int, int),
    radius_square: int,
    c: (int, int),
    n: int,
) -> bool {
    exists|j: int|
        1 <= j < n && #[trigger] line_point(o, d, j) == c && within_radius(o, c, radius_square)
            && ray_clear(map, o, d, j)
}

/// The ray from `o` towards `d` lights `c`.
pub open spec fn ray_lights<M: VisionMap>(
    map: &M,
    o: (int, int),
    d: (int, int),
    radius_square: int,
    c: (int, int),
) -> bool {
    ray_lights_before(map, o, d, radius_square, c, line_len(o, d))
}

proof fn lemma_ray_lights_step<M: VisionMap>(
    map: &M,
    o: (int, int),
    d: (int, int),
    r2: int,
    c: (int, int),
    n: int,
)
    requires
        n >= 1,
    ensures
        ray_lights_before(map, o, d, r2, c, n + 1) == (ray_lights_before(map, o, d, r2, c, n) || (
        line_point(o, d, n) == c && within_radius(o, c, r2) && ray_clear(map, o, d, n))),
{
    if ray_lights_before(map, o, d, r2, c, n + 1) {
        let j = choose|j: int|
            1 <= j < n + 1 && #[trigger] line_point(o, d, j) == c && within_radius(o, c, r2)
                && ray_clear(map, o, d, j);
        if j < n {
            assert(ray_lights_before(map, o, d, r2, c, n));
        }
    }
    if line_point(o, d, n) == c && within_radius(o, c, r2) && ray_clear(map, o, d, n) {
        assert(ray_lights_before(map, o, d, r2, c, n + 1));
    }
    if ray_lights_before(map, o, d, r2, c, n) {
        let j = choose|j: int|
            1 <= j < n && #[trigger] line_point(o, d, j) == c && within_radius(o, c, r2)
                && ray_clear(map, o, d, j);
        assert(ray_lights_before(map, o, d, r2, c, n + 1));
    }
}

/// Past an opaque cell, the ray lights nothing more.
proof fn lemma_ray_blocked<M: VisionMap>(
    map: &M,
    o: (int, int),
    d: (int, int),
    r2: int,
    c: (int, int),
    n: int,
    m: int,
)
    requires
        1 <= n < m,
        map.spec_opaque(line_point(o, d, n).0, line_point(o, d, n).1),
    ensures
        ray_lights_before(map, o, d, r2, c, m) == ray_lights_before(map, o, d, r2, c, n + 1),
{
    if ray_lights_before(map, o, d, r2, c, m) {
        let j = choose|j: int|
            1 <= j < m && #[trigger] line_point(o, d, j) == c && within_radius(o, c, r2)
                && ray_clear(map, o, d, j);
        if j > n {
            assert(!map.spec_opaque(line_point(o, d, n).0, line_point(o, d, n).1));
        }
        assert(ray_lights_before(map, o, d, r2, c, n + 1));
    }
    if ray_lights_before(map, o, d, r2, c, n + 1) {
        let j = choose|j: int|
            1 <= j < n + 1 && #[trigger] line_point(o, d, j) == c && within_radius(o, c, r2)
                && ray_clear(map, o, d, j);
        assert(ray_lights_before(map, o, d, r2, c, m));
    }
}

/// Lit by the rays: the origin, and every cell that a ray towards a border cell lights.
pub open spec fn lit<M: VisionMap>(
    map: &M,
    o: (int, int),
    win: (int, int, int, int),
    radius_square: int,
    c: (int, int),
) -> bool {
    c == o || exists|d: (int, int)| on_border(win, d) && #[trigger] ray_lights(map, o, d, radius_square, c)
}

/// Step from `c` towards the origin along x (along y for `step_y`), inside its quadrant.
pub open spec fn step_x(o: (int, int), c: (int, int)) -> (int, int) {
    (if c.0 > o.0 { c.0 - 1 } else { c.0 + 1 }, c.1)
}

pub open spec fn step_y(o: (int, int), c: (int, int)) -> (int, int) {
    (c.0, if c.1 > o.1 { c.1 - 1 } else { c.1 + 1 })
}

/// An opaque cell off the origin's row and column that the rays missed, next to a lit
/// transparent cell on its origin-facing side.
pub open spec fn revealed<M: VisionMap>(
    map: &M,
    o: (int, int),
    win: (int, int, int, int),
    radius_square: int,
    c: (int, int),
) -> bool {
    let nx = step_x(o, c);
    let ny = step_y(o, c);
    &&& c.0 != o.0
    &&& c.1 != o.1
    &&& map.spec_opaque(c.0, c.1)
    &&& !lit(map, o, win, radius_square, c)
    &&& ((!map.spec_opaque(nx.0, nx.1) && lit(map, o, win, radius_square, nx)) || (!map.spec_opaque(
        ny.0,
        ny.1,
    ) && lit(map, o, win, radius_square, ny)))
}

/// Whether `field_of_view(map, o.0, o.1, radius, include_walls)` holds `c`.
pub open spec fn fov_holds<M: VisionMap>(
    map: &M,
    o: (int, int),
    radius: int,
    include_walls: bool,
    c: (int, int),
) -> bool {
    let win = window(map.spec_dimensions(), o.0, o.1, radius);
    let r2 = radius * radius;
    if radius < 1 {
        c == o
    } else if degenerate(win) {
        false
    } else {
        &&& in_window(win, c)
        &&& lit(map, o, win, r2, c) || revealed(map, o, win, r2, c)
        &&& include_walls || !map.spec_opaque(c.0, c.1)
    }
}

/// The window's cells, stored row by row in a buffer of `width * height` flags.
pub struct Window {
    pub min_x: i32,
    pub min_y: i32,
    pub max_x: i32,
    pub max_y: i32,
    pub width: usize,
    pub height: usize,
}

impl Window {
    pub open spec fn view(&self) -> (int, int, int, int) {
        (self.min_x as int, self.min_y as int, self.max_x as int, self.max_y as int)
    }

    pub open spec fn wf(&self) -> bool {
        &&& 0 <= self.min_x <= self.max_x
        &&& 0 <= self.min_y <= self.max_y
        &&& self.width == self.max_x - self.min_x + 1
        &&& self.height == self.max_y - self.min_y + 1
        &&& self.width * self.height <= usize::MAX
    }

    pub open spec fn size(&self) -> int {
        self.width * self.height
    }

    /// Position of the cell `c` in the buffer.
    pub open spec fn idx(&self, c: (int, int)) -> int {
        (c.0 - self.min_x) + (c.1 - self.min_y) * self.width
    }

    /// The cell stored at position `i` of the buffer.
    pub open spec fn cell(&self, i: int) -> (int, int) {
        (self.min_x + i % (self.width as int), self.min_y + i / (self.width as int))
    }
}

pub(crate) proof fn lemma_idx_bounds(w: int, h: int, a: int, b: int)
    requires
        0 <= a < w,
        0 <= b < h,
    ensures
        0 <= a + b * w < w * h,
{
    assert(0 <= a + b * w < w * h) by (nonlinear_arith)
        requires 0 <= a < w, 0 <= b < h;
}

pub(crate) proof fn lemma_idx_injective(w: int, a1: int, b1: int, a2: int, b2: int)
    requires
        0 <= a1 < w,
        0 <= a2 < w,
        a1 + b1 * w == a2 + b2 * w,
    ensures
        a1 == a2,
        b1 == b2,
{
    assert(b1 == b2) by (nonlinear_arith)
        requires 0 <= a1 < w, 0 <= a2 < w, a1 + b1 * w == a2 + b2 * w;
}

/// Facts on the buffer position of window cells.
proof fn lemma_window_idx(win: &Window, c: (int, int))
    requires
        win.wf(),
        in_window(win@, c),
    ensures
        0 <= win.idx(c) < win.size(),
        win.cell(win.idx(c)) == c,
        forall|c2: (int, int)| in_window(win@, c2) && win.idx(c2) == win.idx(c) ==> c2 == c,
{
    let w = win.width as int;
    lemma_idx_bounds(w, win.height as int, c.0 - win.min_x, c.1 - win.min_y);
    let i = win.idx(c);
    vstd::arithmetic::div_mod::lemma_fundamental_div_mod(i, w);
    vstd::arithmetic::div_mod::lemma_mod_bound(i, w);
    assert((i / w) * w == w * (i / w)) by (nonlinear_arith);
    assert(i % w + (i / w) * w == i);
    lemma_idx_injective(w, c.0 - win.min_x, c.1 - win.min_y, i % w, i / w);
    assert forall|c2: (int, int)| in_window(win@, c2) && win.idx(c2) == win.idx(c) implies c2 == c by {
        lemma_idx_injective(w, c.0 - win.min_x, c.1 - win.min_y, c2.0 - win.min_x, c2.1 - win.min_y);
    }
}

/// Lights the cells that the ray from `origin` towards `destination` lights.
fn cast_ray<M: VisionMap>(
    map: &M,
    visibles: &mut Vec<bool>,
    win: &Window,
    origin: Point,
    destination: Point,
    radius_square: i64,
)
    requires
        win.wf(),
        old(visibles)@.len() == win.size(),
        win.max_x < map.spec_dimensions().0,
        win.max_y < map.spec_dimensions().1,
        in_window(win@, pt(origin)),
        in_window(win@, pt(destination)),
    ensures
        final(visibles)@.len() == old(visibles)@.len(),
        forall|c: (int, int)|
            in_window(win@, c) ==> #[trigger] final(visibles)@[win.idx(c)] == (old(visibles)@[win.idx(c)]
                || ray_lights(map, pt(origin), pt(destination), radius_square as int, c)),
{
    let ghost o = pt(origin);
    let ghost d = pt(destination);
    let ghost r2 = radius_square as int;
    let ghost start = old(visibles)@;
    let mut line = LineBresenham::new(origin, destination);
    proof {
        crate::bresenham::lemma_octant0(o, d);
    }
    proof {
        line.lemma_position();
    }
    let _ = line.next();
    proof {
        line.lemma_position();
    }
    loop
        invariant_except_break
            ray_clear(map, o, d, line.position()),
            forall|c: (int, int)|
                in_window(win@, c) ==> #[trigger] visibles@[win.idx(c)] == (start[win.idx(c)]
                    || ray_lights_before(map, o, d, r2, c, line.position())),
        invariant
            o == pt(origin),
            d == pt(destination),
            r2 == radius_square as int,
            win.wf(),
            win.max_x < map.spec_dimensions().0,
            win.max_y < map.spec_dimensions().1,
            in_window(win@, o),
            in_window(win@, d),
            start.len() == win.size(),
            line.wf(),
            line.spec_start() == origin,
            line.spec_end() == destination,
            1 <= line.position() <= line_len(o, d),
            line.remaining() == crate::bresenham::line(o, d).skip(line.position()),
            visibles@.len() == start.len(),
        ensures
            forall|c: (int, int)|
                in_window(win@, c) ==> #[trigger] visibles@[win.idx(c)] == (start[win.idx(c)]
                    || ray_lights(map, o, d, r2, c)),
        decreases line_len(o, d) - line.position(),
    {
        let ghost j = line.position();
        proof {
            line.lemma_position();
        }
        let next = line.next();
        proof {
            line.lemma_position();
        }
        match next {
            None => {
                break;
            },
            Some(p) => {
                proof {
                    assert(pt(p) == line_point(o, d, j));
                    lemma_line_point_between(o, d, j);
                    lemma_window_idx(win, pt(p));
                    assert(in_window(win@, pt(p)));
                }
                let (x, y) = p;
                let ddx: i64 = x as i64 - origin.0 as i64;
                let ddy: i64 = y as i64 - origin.1 as i64;
                proof {
                    assert(0 <= ddx * ddx <= 0x7fff_ffff * 0x7fff_ffff) by (nonlinear_arith)
                        requires -0x7fff_ffff <= ddx <= 0x7fff_ffff;
                    assert(0 <= ddy * ddy <= 0x7fff_ffff * 0x7fff_ffff) by (nonlinear_arith)
                        requires -0x7fff_ffff <= ddy <= 0x7fff_ffff;
                }
                let distance: i64 = ddx * ddx + ddy * ddy;
                let ghost before = visibles@;
                let ghost marked = within_radius(o, pt(p), r2);
                if distance <= radius_square || radius_square == 0 {
                    let index = (x - win.min_x) as usize + (y - win.min_y) as usize * win.width;
                    assert(index == win.idx(pt(p)));
                    visibles.set(index, true);
                }
                proof {
                    assert(marked == (distance <= radius_square || radius_square == 0));
                    assert(marked ==> visibles@ == before.update(win.idx(pt(p)), true));
                    assert(!marked ==> visibles@ == before);
                    assert forall|c: (int, int)| in_window(win@, c) implies #[trigger] visibles@[win.idx(c)] == (
                    start[win.idx(c)] || ray_lights_before(map, o, d, r2, c, j + 1)) by {
                        lemma_ray_lights_step(map, o, d, r2, c, j);
                        assert(before[win.idx(c)] == (start[win.idx(c)] || ray_lights_before(
                            map, o, d, r2, c, j)));
                        lemma_window_idx(win, c);
                        if c != pt(p) {
                            assert(win.idx(c) != win.idx(pt(p)));
                            assert(visibles@[win.idx(c)] == before[win.idx(c)]);
                        } else {
                            assert(visibles@[win.idx(c)] == (before[win.idx(c)] || marked));
                        }
                    }
                }
                if map.is_opaque(x, y) {
                    proof {
                        assert forall|c: (int, int)| in_window(win@, c) implies #[trigger] visibles@[win.idx(c)] == (
                        start[win.idx(c)] || ray_lights(map, o, d, r2, c)) by {
                            if j + 1 < line_len(o, d) {
                                lemma_ray_blocked(map, o, d, r2, c, j, line_len(o, d));
                            }
                        }
                    }
                    break;
                }
                assert(ray_clear(map, o, d, j + 1));
            },
        }
    }
}

/// An opaque cell whose neighbour one step along `dx` or along `dy` is transparent and set in
/// `buf`.
pub open spec fn wall_face<M: VisionMap>(
    map: &M,
    win: &Window,
    buf: Seq<bool>,
    c: (int, int),
    dx: int,
    dy: int,
) -> bool {
    &&& map.spec_opaque(c.0, c.1)
    &&& (!map.spec_opaque(c.0 + dx, c.1) && buf[win.idx((c.0 + dx, c.1))]) || (!map.spec_opaque(
        c.0,
        c.1 + dy,
    ) && buf[win.idx((c.0, c.1 + dy))])
}

/// Lights the walls of the rectangle `min_x..=max_x` by `min_y..=max_y` that face a lit
/// transparent cell one step along `dx` or `dy`.
fn post_process_vision<M: VisionMap>(
    map: &M,
    visibles: &mut Vec<bool>,
    win: &Window,
    min_x: i32,
    min_y: i32,
    max_x: i32,
    max_y: i32,
    dx: i32,
    dy: i32,
)
    requires
        win.wf(),
        old(visibles)@.len() == win.size(),
        win.max_x < map.spec_dimensions().0,
        win.max_y < map.spec_dimensions().1,
        dx == 1 || dx == -1,
        dy == 1 || dy == -1,
        max_x < i32::MAX,
        max_y < i32::MAX,
        forall|c: (int, int)|
            #![trigger in_window((min_x as int, min_y as int, max_x as int, max_y as int), c)]
            in_window((min_x as int, min_y as int, max_x as int, max_y as int), c) ==> {
                &&& in_window(win@, c)
                &&& in_window(win@, (c.0 + dx, c.1))
                &&& in_window(win@, (c.0, c.1 + dy))
            },
    ensures
        final(visibles)@.len() == old(visibles)@.len(),
        forall|c: (int, int)|
            in_window(win@, c) ==> #[trigger] final(visibles)@[win.idx(c)] == (old(visibles)@[win.idx(c)]
                || (in_window((min_x as int, min_y as int, max_x as int, max_y as int), c)
                && wall_face(map, win, old(visibles)@, c, dx as int, dy as int))),
{
    let ghost start = visibles@;
    let ghost rect = (min_x as int, min_y as int, max_x as int, max_y as int);
    let mut x = min_x;
    while x <= max_x
        invariant
            win.wf(),
            start.len() == win.size(),
            visibles@.len() == start.len(),
            win.max_x < map.spec_dimensions().0,
            win.max_y < map.spec_dimensions().1,
            dx == 1 || dx == -1,
            dy == 1 || dy == -1,
            max_x < i32::MAX,
            max_y < i32::MAX,
            rect == (min_x as int, min_y as int, max_x as int, max_y as int),
            forall|c: (int, int)|
                #![trigger in_window(rect, c)]
                in_window(rect, c) ==> {
                    &&& in_window(win@, c)
                    &&& in_window(win@, (c.0 + dx, c.1))
                    &&& in_window(win@, (c.0, c.1 + dy))
                },
            min_x <= x,
            x <= max_x + 1 || x == min_x,
            forall|c: (int, int)|
                in_window(win@, c) ==> #[trigger] visibles@[win.idx(c)] == (start[win.idx(c)] || (
                in_window(rect, c) && c.0 < x && wall_face(map, win, start, c, dx as int, dy as int))),
        decreases max_x + 1 - x,
    {
        let mut y = min_y;
        while y <= max_y
            invariant
                win.wf(),
                start.len() == win.size(),
                visibles@.len() == start.len(),
                win.max_x < map.spec_dimensions().0,
                win.max_y < map.spec_dimensions().1,
                dx == 1 || dx == -1,
                dy == 1 || dy == -1,
                max_y < i32::MAX,
                rect == (min_x as int, min_y as int, max_x as int, max_y as int),
                forall|c: (int, int)|
                    #![trigger in_window(rect, c)]
                    in_window(rect, c) ==> {
                        &&& in_window(win@, c)
                        &&& in_window(win@, (c.0 + dx, c.1))
                        &&& in_window(win@, (c.0, c.1 + dy))
                    },
                min_x <= x <= max_x,
                min_y <= y,
                y <= max_y + 1 || y == min_y,
                forall|c: (int, int)|
                    in_window(win@, c) ==> #[trigger] visibles@[win.idx(c)] == (start[win.idx(c)] || (
                    in_window(rect, c) && (c.0 < x || (c.0 == x && c.1 < y)) && wall_face(
                        map,
                        win,
                        start,
                        c,
                        dx as int,
                        dy as int,
                    ))),
            decreases max_y + 1 - y,
        {
            let ghost c0 = (x as int, y as int);
            let ghost n0 = (x + dx, y as int);
            let ghost n1 = (x as int, y + dy);
            proof {
                assert(in_window(rect, c0));
                lemma_window_idx(win, c0);
                lemma_window_idx(win, n0);
                lemma_window_idx(win, n1);
            }
            let index = (x - win.min_x) as usize + (y - win.min_y) as usize * win.width;
            let ghost before = visibles@;
            let opaque = map.is_opaque(x, y);
            if opaque && !visibles[index] {
                let neighbour_x = x + dx;
                let neighbour_y = y + dy;
                let index_0 = (neighbour_x - win.min_x) as usize + (y - win.min_y) as usize * win.width;
                let index_1 = (x - win.min_x) as usize + (neighbour_y - win.min_y) as usize * win.width;
                proof {
                    assert(index_0 == win.idx(n0));
                    assert(index_1 == win.idx(n1));
                    if !map.spec_opaque(n0.0, n0.1) {
                        assert(before[win.idx(n0)] == start[win.idx(n0)]);
                    }
                    if !map.spec_opaque(n1.0, n1.1) {
                        assert(before[win.idx(n1)] == start[win.idx(n1)]);
                    }
                }
                if (!map.is_opaque(neighbour_x, y) && visibles[index_0]) || (!map.is_opaque(
                    x,
                    neighbour_y,
                ) && visibles[index_1]) {
                    visibles.set(index, true);
                }
            }
            proof {
                assert(index == win.idx(c0));
                assert(before[win.idx(c0)] == (start[win.idx(c0)] || (in_window(rect, c0) && (c0.0 < x)
                    && wall_face(map, win, start, c0, dx as int, dy as int))));
                assert(visibles@[win.idx(c0)] == (start[win.idx(c0)] || wall_face(map, win, start, c0, dx as int, dy as int)));
                assert forall|c: (int, int)| in_window(win@, c) implies #[trigger] visibles@[win.idx(c)] == (
                start[win.idx(c)] || (in_window(rect, c) && (c.0 < x || (c.0 == x && c.1 < y + 1))
                    && wall_face(map, win, start, c, dx as int, dy as int))) by {
                    lemma_window_idx(win, c);
                    if c != c0 {
                        assert(visibles@[win.idx(c)] == before[win.idx(c)]);
                    }
                }
            }
            y = y + 1;
        }
        x = x + 1;
    }
}

/// Lit by the origin and the rays towards the cells that `done` holds.
pub open spec fn lit_by<M: VisionMap>(
    map: &M,
    o: (int, int),
    radius_square: int,
    c: (int, int),
    done: spec_fn((int, int)) -> bool,
) -> bool {
    c == o || exists|d: (int, int)| done(d) && #[trigger] ray_lights(map, o, d, radius_square, c)
}

/// Border cells on the top and bottom rows left of `x`.
pub open spec fn rows_done(win: (int, int, int, int), x: int, d: (int, int)) -> bool {
    (d.1 == win.1 || d.1 == win.3) && win.0 <= d.0 < x
}

/// All of the top and bottom rows, and the left and right columns above `y`.
pub open spec fn columns_done(win: (int, int, int, int), y: int, d: (int, int)) -> bool {
    rows_done(win, win.2 + 1, d) || ((d.0 == win.0 || d.0 == win.2) && win.1 + 1 <= d.1 < y)
}

proof fn lemma_lit_by_extend<M: VisionMap>(
    map: &M,
    o: (int, int),
    r2: int,
    c: (int, int),
    p: spec_fn((int, int)) -> bool,
    q: spec_fn((int, int)) -> bool,
    d1: (int, int),
    d2: (int, int),
)
    requires
        forall|d: (int, int)| #[trigger] q(d) == (p(d) || d == d1 || d == d2),
    ensures
        lit_by(map, o, r2, c, q) == (lit_by(map, o, r2, c, p) || ray_lights(map, o, d1, r2, c)
            || ray_lights(map, o, d2, r2, c)),
{
    if c != o {
        if lit_by(map, o, r2, c, q) {
            let d = choose|d: (int, int)| q(d) && #[trigger] ray_lights(map, o, d, r2, c);
            if p(d) {
                assert(lit_by(map, o, r2, c, p));
            }
        }
        if lit_by(map, o, r2, c, p) {
            let d = choose|d: (int, int)| p(d) && #[trigger] ray_lights(map, o, d, r2, c);
            assert(q(d));
        }
        if ray_lights(map, o, d1, r2, c) {
            assert(q(d1));
        }
        if ray_lights(map, o, d2, r2, c) {
            assert(q(d2));
        }
    }
}

proof fn lemma_lit_by_same<M: VisionMap>(
    map: &M,
    o: (int, int),
    r2: int,
    c: (int, int),
    p: spec_fn((int, int)) -> bool,
    q: spec_fn((int, int)) -> bool,
)
    requires
        forall|d: (int, int)| #[trigger] q(d) == p(d),
    ensures
        lit_by(map, o, r2, c, q) == lit_by(map, o, r2, c, p),
{
    if c != o {
        if lit_by(map, o, r2, c, q) {
            let d = choose|d: (int, int)| q(d) && #[trigger] ray_lights(map, o, d, r2, c);
            assert(p(d));
        }
        if lit_by(map, o, r2, c, p) {
            let d = choose|d: (int, int)| p(d) && #[trigger] ray_lights(map, o, d, r2, c);
            assert(q(d));
        }
    }
}

/// Every position of the buffer stores a window cell.
proof fn lemma_window_cell(win: &Window, i: int)
    requires
        win.wf(),
        0 <= i < win.size(),
    ensures
        in_window(win@, win.cell(i)),
        win.idx(win.cell(i)) == i,
{
    let w = win.width as int;
    let h = win.height as int;
    vstd::arithmetic::div_mod::lemma_fundamental_div_mod(i, w);
    vstd::arithmetic::div_mod::lemma_mod_bound(i, w);
    assert(0 <= i / w < h) by (nonlinear_arith)
        requires 0 <= i < w * h, w > 0, i == w * (i / w) + i % w, 0 <= i % w < w;
    assert(win.idx(win.cell(i)) == i % w + (i / w) * w);
}

/// One quadrant pass turns "lit, or revealed among the cells that `p` holds" into the same
/// with the rectangle added.
proof fn lemma_quadrant_pass<M: VisionMap>(
    map: &M,
    o: (int, int),
    win: &Window,
    r2: int,
    rect: (int, int, int, int),
    dx: int,
    dy: int,
    before: Seq<bool>,
    after: Seq<bool>,
    p: spec_fn((int, int)) -> bool,
    q: spec_fn((int, int)) -> bool,
)
    requires
        win.wf(),
        forall|c: (int, int)|
            in_window(win@, c) ==> #[trigger] before[win.idx(c)] == (lit(map, o, win@, r2, c) || (p(c)
                && revealed(map, o, win@, r2, c))),
        forall|c: (int, int)|
            in_window(win@, c) ==> #[trigger] after[win.idx(c)] == (before[win.idx(c)] || (in_window(
                rect,
                c,
            ) && wall_face(map, win, before, c, dx, dy))),
        forall|c: (int, int)|
            #![trigger in_window(rect, c)]
            in_window(rect, c) ==> {
                &&& in_window(win@, c)
                &&& in_window(win@, (c.0 + dx, c.1))
                &&& in_window(win@, (c.0, c.1 + dy))
                &&& c.0 != o.0
                &&& c.1 != o.1
                &&& step_x(o, c) == (c.0 + dx, c.1)
                &&& step_y(o, c) == (c.0, c.1 + dy)
            },
        forall|c: (int, int)| in_window(win@, c) ==> #[trigger] q(c) == (p(c) || in_window(rect, c)),
    ensures
        forall|c: (int, int)|
            in_window(win@, c) ==> #[trigger] after[win.idx(c)] == (lit(map, o, win@, r2, c) || (q(c)
                && revealed(map, o, win@, r2, c))),
{
    assert forall|c: (int, int)| in_window(win@, c) implies #[trigger] after[win.idx(c)] == (lit(
        map,
        o,
        win@,
        r2,
        c,
    ) || (q(c) && revealed(map, o, win@, r2, c))) by {
        assert(before[win.idx(c)] == (lit(map, o, win@, r2, c) || (p(c) && revealed(map, o, win@, r2, c))));
        if in_window(rect, c) {
            let n0 = (c.0 + dx, c.1);
            let n1 = (c.0, c.1 + dy);
            assert(before[win.idx(n0)] == (lit(map, o, win@, r2, n0) || (p(n0) && revealed(map, o, win@, r2, n0))));
            assert(before[win.idx(n1)] == (lit(map, o, win@, r2, n1) || (p(n1) && revealed(map, o, win@, r2, n1))));
        }
    }
}

/// Casts a ray to every border cell of the window; afterwards the buffer holds the lit cells.
fn cast_rays<M: VisionMap>(
    map: &M,
    visibles: &mut Vec<bool>,
    win: &Window,
    origin: Point,
    radius_square: i64,
)
    requires
        win.wf(),
        old(visibles)@.len() == win.size(),
        win.max_x < map.spec_dimensions().0,
        win.max_y < map.spec_dimensions().1,
        in_window(win@, pt(origin)),
        forall|c: (int, int)|
            in_window(win@, c) ==> #[trigger] old(visibles)@[win.idx(c)] == (c == pt(origin)),
    ensures
        final(visibles)@.len() == old(visibles)@.len(),
        forall|c: (int, int)|
            in_window(win@, c) ==> #[trigger] final(visibles)@[win.idx(c)] == lit(
                map,
                pt(origin),
                win@,
                radius_square as int,
                c,
            ),
{
    let ghost o = pt(origin);
    let ghost wv = win@;
    let ghost r2 = radius_square as int;
    let min_x = win.min_x;
    let min_y = win.min_y;
    let max_x = win.max_x;
    let max_y = win.max_y;
    proof {
        assert forall|c: (int, int)| in_window(wv, c) implies #[trigger] visibles@[win.idx(c)] == lit_by(
            map,
            o,
            r2,
            c,
            |d: (int, int)| rows_done(wv, min_x as int, d),
        ) by {}
    }
    let mut cx = min_x;
    while cx <= max_x
        invariant
            win.wf(),
            wv == win@,
            o == pt(origin),
            r2 == radius_square as int,
            win.min_x == min_x && win.max_x == max_x && win.min_y == min_y && win.max_y == max_y,
            in_window(wv, o),
            win.max_x < map.spec_dimensions().0,
            win.max_y < map.spec_dimensions().1,
            visibles@.len() == win.size(),
            min_x <= cx <= max_x + 1,
            forall|c: (int, int)|
                in_window(wv, c) ==> #[trigger] visibles@[win.idx(c)] == lit_by(
                    map,
                    o,
                    r2,
                    c,
                    |d: (int, int)| rows_done(wv, cx as int, d),
                ),
        decreases max_x + 1 - cx,
    {
        cast_ray(map, visibles, win, origin, (cx, min_y), radius_square);
        cast_ray(map, visibles, win, origin, (cx, max_y), radius_square);
        proof {
            assert forall|c: (int, int)| in_window(wv, c) implies #[trigger] visibles@[win.idx(c)] == lit_by(
                map,
                o,
                r2,
                c,
                |d: (int, int)| rows_done(wv, cx + 1, d),
            ) by {
                lemma_lit_by_extend(
                    map,
                    o,
                    r2,
                    c,
                    |d: (int, int)| rows_done(wv, cx as int, d),
                    |d: (int, int)| rows_done(wv, cx + 1, d),
                    (cx as int, min_y as int),
                    (cx as int, max_y as int),
                );
            }
        }
        cx = cx + 1;
    }
    proof {
        assert forall|c: (int, int)| in_window(wv, c) implies #[trigger] visibles@[win.idx(c)] == lit_by(
            map,
            o,
            r2,
            c,
            |d: (int, int)| columns_done(wv, min_y + 1, d),
        ) by {
            lemma_lit_by_same(
                map,
                o,
                r2,
                c,
                |d: (int, int)| rows_done(wv, cx as int, d),
                |d: (int, int)| columns_done(wv, min_y + 1, d),
            );
        }
    }
    let mut cy = min_y + 1;
    while cy < max_y
        invariant
            win.wf(),
            wv == win@,
            o == pt(origin),
            r2 == radius_square as int,
            win.min_x == min_x && win.max_x == max_x && win.min_y == min_y && win.max_y == max_y,
            in_window(wv, o),
            win.max_x < map.spec_dimensions().0,
            win.max_y < map.spec_dimensions().1,
            visibles@.len() == win.size(),
            min_y + 1 <= cy,
            cy <= max_y || cy == min_y + 1,
            forall|c: (int, int)|
                in_window(wv, c) ==> #[trigger] visibles@[win.idx(c)] == lit_by(
                    map,
                    o,
                    r2,
                    c,
                    |d: (int, int)| columns_done(wv, cy as int, d),
                ),
        decreases max_y - cy,
    {
        cast_ray(map, visibles, win, origin, (min_x, cy), radius_square);
        cast_ray(map, visibles, win, origin, (max_x, cy), radius_square);
        proof {
            assert forall|c: (int, int)| in_window(wv, c) implies #[trigger] visibles@[win.idx(c)] == lit_by(
                map,
                o,
                r2,
                c,
                |d: (int, int)| columns_done(wv, cy + 1, d),
            ) by {
                lemma_lit_by_extend(
                    map,
                    o,
                    r2,
                    c,
                    |d: (int, int)| columns_done(wv, cy as int, d),
                    |d: (int, int)| columns_done(wv, cy + 1, d),
                    (min_x as int, cy as int),
                    (max_x as int, cy as int),
                );
            }
        }
        cy = cy + 1;
    }
    proof {
        assert forall|c: (int, int)| in_window(wv, c) implies #[trigger] visibles@[win.idx(c)] == lit(
            map,
            o,
            wv,
            r2,
            c,
        ) by {
            lemma_lit_by_same(
                map,
                o,
                r2,
                c,
                |d: (int, int)| columns_done(wv, cy as int, d),
                |d: (int, int)| on_border(wv, d),
            );
        }
    }
}

/// Runs the pass of each quadrant: afterwards the buffer also holds the revealed walls.
fn reveal_walls<M: VisionMap>(
    map: &M,
    visibles: &mut Vec<bool>,
    win: &Window,
    origin: Point,
    radius_square: i64,
)
    requires
        win.wf(),
        old(visibles)@.len() == win.size(),
        win.max_x < map.spec_dimensions().0,
        win.max_y < map.spec_dimensions().1,
        in_window(win@, pt(origin)),
        forall|c: (int, int)|
            in_window(win@, c) ==> #[trigger] old(visibles)@[win.idx(c)] == lit(
                map,
                pt(origin),
                win@,
                radius_square as int,
                c,
            ),
    ensures
        final(visibles)@.len() == old(visibles)@.len(),
        forall|c: (int, int)|
            in_window(win@, c) ==> #[trigger] final(visibles)@[win.idx(c)] == (lit(
                map,
                pt(origin),
                win@,
                radius_square as int,
                c,
            ) || revealed(map, pt(origin), win@, radius_square as int, c)),
{
    let ghost o = pt(origin);
    let ghost r2 = radius_square as int;
    let (x, y) = origin;
    let min_x = win.min_x;
    let min_y = win.min_y;
    let max_x = win.max_x;
    let max_y = win.max_y;
    assert forall|c: (int, int)| in_window(win@, c) implies #[trigger] visibles@[win.idx(c)] == (lit(
        map,
        o,
        win@,
        r2,
        c,
    ) || ((|c: (int, int)| false)(c) && revealed(map, o, win@, r2, c))) by {}
    // South-east
    let ghost b0 = visibles@;
    post_process_vision(map, visibles, win, x + 1, y + 1, max_x, max_y, -1, -1);
    proof {
        lemma_quadrant_pass(
            map, o, win, r2, (x + 1, y + 1, max_x as int, max_y as int), -1, -1, b0, visibles@,
            |c: (int, int)| false,
            |c: (int, int)| c.0 > o.0 && c.1 > o.1,
        );
    }
    // South-west
    let ghost b1 = visibles@;
    post_process_vision(map, visibles, win, min_x, y + 1, x - 1, max_y, 1, -1);
    proof {
        lemma_quadrant_pass(
            map, o, win, r2, (min_x as int, y + 1, x - 1, max_y as int), 1, -1, b1, visibles@,
            |c: (int, int)| c.0 > o.0 && c.1 > o.1,
            |c: (int, int)| c.0 != o.0 && c.1 > o.1,
        );
    }
    // North-west
    let ghost b2 = visibles@;
    post_process_vision(map, visibles, win, min_x, min_y, x - 1, y - 1, 1, 1);
    proof {
        lemma_quadrant_pass(
            map, o, win, r2, (min_x as int, min_y as int, x - 1, y - 1), 1, 1, b2, visibles@,
            |c: (int, int)| c.0 != o.0 && c.1 > o.1,
            |c: (int, int)| c.0 != o.0 && c.1 != o.1 && (c.1 > o.1 || c.0 < o.0),
        );
    }
    // North-east
    let ghost b3 = visibles@;
    post_process_vision(map, visibles, win, x + 1, min_y, max_x, y - 1, -1, 1);
    proof {
        lemma_quadrant_pass(
            map, o, win, r2, (x + 1, min_y as int, max_x as int, y - 1), -1, 1, b3, visibles@,
            |c: (int, int)| c.0 != o.0 && c.1 != o.1 && (c.1 > o.1 || c.0 < o.0),
            |c: (int, int)| c.0 != o.0 && c.1 != o.1,
        );
        assert forall|c: (int, int)| in_window(win@, c) implies #[trigger] visibles@[win.idx(c)] == (lit(
            map,
            o,
            win@,
            r2,
            c,
        ) || revealed(map, o, win@, r2, c)) by {}
    }
}

/// The cells whose flag is set, row by row; without `include_walls`, only the transparent ones.
fn collect_visible<M: VisionMap>(
    map: &M,
    visibles: &Vec<bool>,
    win: &Window,
    include_walls: bool,
) -> (r: Vec<Point>)
    requires
        win.wf(),
        visibles@.len() == win.size(),
        win.max_x < map.spec_dimensions().0,
        win.max_y < map.spec_dimensions().1,
    ensures
        r@.no_duplicates(),
        forall|c: Point| #[trigger] r@.contains(c) <==> (in_window(win@, pt(c)) && visibles@[win.idx(pt(c))]
            && (include_walls || !map.spec_opaque(c.0 as int, c.1 as int))),
{
    let ghost wv = win@;
    let mut out: Vec<Point> = Vec::new();
    let total = win.width * win.height;
    let mut i: usize = 0;
    while i < total
        invariant
            win.wf(),
            wv == win@,
            total == win.size(),
            win.max_x < map.spec_dimensions().0,
            win.max_y < map.spec_dimensions().1,
            visibles@.len() == win.size(),
            0 <= i <= total,
            out@.no_duplicates(),
            forall|c: Point| #[trigger] out@.contains(c) <==> (in_window(wv, pt(c)) && win.idx(pt(c)) < i
                && visibles@[win.idx(pt(c))] && (include_walls || !map.spec_opaque(c.0 as int, c.1 as int))),
        decreases total - i,
    {
        proof {
            lemma_window_cell(win, i as int);
        }
        let ghost prev = out@;
        if visibles[i] {
            let cell_x = win.min_x + (i % win.width) as i32;
            let cell_y = win.min_y + (i / win.width) as i32;
            let c: Point = (cell_x, cell_y);
            assert(pt(c) == win.cell(i as int));
            if include_walls || !map.is_opaque(cell_x, cell_y) {
                out.push(c);
                proof {
                    assert(!prev.contains(c));
                }
            }
        }
        proof {
            assert forall|c2: Point| #[trigger] out@.contains(c2) <==> (in_window(wv, pt(c2)) && win.idx(pt(c2)) < i + 1
                && visibles@[win.idx(pt(c2))] && (include_walls || !map.spec_opaque(c2.0 as int, c2.1 as int))) by {
                if in_window(wv, pt(c2)) {
                    lemma_window_idx(win, pt(c2));
                }
                if out@.len() > prev.len() {
                    if prev.contains(c2) {
                        let k = choose|k: int| 0 <= k < prev.len() && prev[k] == c2;
                        assert(out@[k] == c2);
                    }
                    if c2 == out@[prev.len() as int] {
                        assert(out@.contains(c2));
                    }
                }
            }
        }
        i = i + 1;
    }
    proof {
        assert forall|c: Point| #[trigger] out@.contains(c) <==> (in_window(wv, pt(c)) && visibles@[win.idx(pt(c))]
            && (include_walls || !map.spec_opaque(c.0 as int, c.1 as int))) by {
            if in_window(wv, pt(c)) {
                lemma_window_idx(win, pt(c));
            }
        }
    }
    out
}

/// The cells seen from `(x, y)`, each once, as the model describes them.
#[verifier::rlimit(40)]
fn visible_cells<M: VisionMap>(
    map: &M,
    x: i32,
    y: i32,
    radius: i32,
    include_walls: bool,
) -> (r: Vec<Point>)
    requires
        in_bounds(map.spec_dimensions(), x as int, y as int),
        map.spec_dimensions().0 as int * map.spec_dimensions().1 as int <= usize::MAX,
    ensures
        r@.no_duplicates(),
        forall|c: Point| #[trigger] r@.contains(c) <==> fov_holds(map, pt((x, y)), radius as int, include_walls, pt(c)),
        radius < 1 ==> r@ == seq![(x, y)],
{
    let ghost o = pt((x, y));
    if radius < 1 {
        let r = vec![(x, y)];
        proof {
            assert(r@ =~= seq![(x, y)]);
            assert forall|c: Point| #[trigger] r@.contains(c) <==> fov_holds(map, o, radius as int, include_walls, pt(c)) by {
                if c == (x, y) {
                    assert(r@[0] == c);
                }
            }
        }
        return r;
    }
    let (width, height) = map.dimensions();
    let lo_x: i64 = x as i64 - radius as i64;
    let lo_y: i64 = y as i64 - radius as i64;
    let hi_x: i64 = x as i64 + radius as i64;
    let hi_y: i64 = y as i64 + radius as i64;
    let min_x: i32 = if lo_x > 0 { lo_x as i32 } else { 0 };
    let min_y: i32 = if lo_y > 0 { lo_y as i32 } else { 0 };
    let max_x: i32 = if hi_x < width as i64 - 1 { hi_x as i32 } else { width - 1 };
    let max_y: i32 = if hi_y < height as i64 - 1 { hi_y as i32 } else { height - 1 };
    let ghost wspec = window(map.spec_dimensions(), x as int, y as int, radius as int);
    assert(wspec == (min_x as int, min_y as int, max_x as int, max_y as int));
    if max_x - min_x == 0 || max_y - min_y == 0 {
        let r: Vec<Point> = Vec::new();
        proof {
            assert forall|c: Point| #[trigger] r@.contains(c) <==> fov_holds(map, o, radius as int, include_walls, pt(c)) by {}
        }
        return r;
    }
    let sub_width = (max_x - min_x + 1) as usize;
    let sub_height = (max_y - min_y + 1) as usize;
    proof {
        assert(sub_width * sub_height <= width as int * height as int) by (nonlinear_arith)
            requires 0 < sub_width <= width, 0 < sub_height <= height;
        assert(0 <= radius as int * radius as int <= 0x7fff_ffff * 0x7fff_ffff) by (nonlinear_arith)
            requires 0 <= radius <= 0x7fff_ffff;
    }
    let win = Window { min_x, min_y, max_x, max_y, width: sub_width, height: sub_height };
    let radius_square: i64 = radius as i64 * radius as i64;
    let mut visibles: Vec<bool> = vec![false; sub_width * sub_height];
    proof {
        lemma_window_idx(&win, o);
    }
    let origin_index = (x - min_x) as usize + (y - min_y) as usize * sub_width;
    visibles.set(origin_index, true);
    proof {
        assert forall|c: (int, int)| in_window(win@, c) implies #[trigger] visibles@[win.idx(c)] == (c == o) by {
            lemma_window_idx(&win, c);
            if c != o {
                assert(win.idx(c) != win.idx(o));
            }
        }
    }
    cast_rays(map, &mut visibles, &win, (x, y), radius_square);
    reveal_walls(map, &mut visibles, &win, (x, y), radius_square);
    let r = collect_visible(map, &visibles, &win, include_walls);
    proof {
        assert forall|c: Point| #[trigger] r@.contains(c) <==> fov_holds(map, o, radius as int, include_walls, pt(c)) by {
            if in_window(win@, pt(c)) {
                lemma_window_idx(&win, pt(c));
            }
        }
    }
    r
}

/// Every cell of a field of view lies on the grid.
pub proof fn lemma_fov_in_bounds<M: VisionMap>(
    map: &M,
    o: (int, int),
    radius: int,
    include_walls: bool,
    c: (int, int),
)
    requires
        in_bounds(map.spec_dimensions(), o.0, o.1),
        fov_holds(map, o, radius, include_walls, c),
    ensures
        in_bounds(map.spec_dimensions(), c.0, c.1),
{
}

/// With a radius below 1, the field of view is the origin and nothing else.
pub proof fn lemma_small_radius_sees_origin_only<M: VisionMap>(
    map: &M,
    o: (int, int),
    radius: int,
    include_walls: bool,
    c: (int, int),
)
    requires
        radius < 1,
    ensures
        fov_holds(map, o, radius, include_walls, c) <==> c == o,
{
}

/// With a radius of at least 1, the origin is in its own field of view, unless the window
/// degenerates to one row or column, or walls are left out and the origin is one.
pub proof fn lemma_origin_is_seen<M: VisionMap>(
    map: &M,
    o: (int, int),
    radius: int,
    include_walls: bool,
)
    requires
        in_bounds(map.spec_dimensions(), o.0, o.1),
        radius >= 1,
        !degenerate(window(map.spec_dimensions(), o.0, o.1, radius)),
        include_walls || !map.spec_opaque(o.0, o.1),
    ensures
        fov_holds(map, o, radius, include_walls, o),
{
}

/// A cell lit by the rays lies within the radius.
proof fn lemma_lit_within_radius<M: VisionMap>(
    map: &M,
    o: (int, int),
    win: (int, int, int, int),
    radius_square: int,
    c: (int, int),
)
    requires
        radius_square >= 0,
        lit(map, o, win, radius_square, c),
    ensures
        within_radius(o, c, radius_square),
{
    if c != o {
        let d = choose|d: (int, int)| on_border(win, d) && #[trigger] ray_lights(map, o, d, radius_square, c);
        let j = choose|j: int|
            1 <= j < line_len(o, d) && #[trigger] line_point(o, d, j) == c && within_radius(o, c, radius_square)
                && ray_clear(map, o, d, j);
    } else {
        assert((c.0 - o.0) * (c.0 - o.0) + (c.1 - o.1) * (c.1 - o.1) == 0) by (nonlinear_arith)
            requires c == o;
    }
}

/// Every cell of a field of view with walls lies within the radius of the origin, or is a
/// wall revealed next to a lit transparent cell on its origin-facing side.
pub proof fn lemma_seen_within_radius_or_revealed<M: VisionMap>(
    map: &M,
    o: (int, int),
    radius: int,
    c: (int, int),
)
    requires
        radius >= 1,
        fov_holds(map, o, radius, true, c),
    ensures
        within_radius(o, c, radius * radius) || revealed(
            map,
            o,
            window(map.spec_dimensions(), o.0, o.1, radius),
            radius * radius,
            c,
        ),
{
    let win = window(map.spec_dimensions(), o.0, o.1, radius);
    assert(radius * radius >= 0) by (nonlinear_arith)
        requires radius >= 1;
    if lit(map, o, win, radius * radius, c) {
        lemma_lit_within_radius(map, o, win, radius * radius, c);
    }
}

/// Without walls, a field of view holds no opaque cell, unless the radius is below 1 and the
/// origin itself is opaque.
pub proof fn lemma_no_walls_no_opaque<M: VisionMap>(
    map: &M,
    o: (int, int),
    radius: int,
    c: (int, int),
)
    requires
        radius >= 1 || !map.spec_opaque(o.0, o.1),
        fov_holds(map, o, radius, false, c),
    ensures
        !map.spec_opaque(c.0, c.1),
{
}

/// The cells that an observer at `(x, y)` sees within `radius`, each once, in no given order.
///
/// A radius below 1 sees the origin alone. A window that degenerates to a single row or column
/// sees nothing. Otherwise a cell is seen when a ray lights it or it is a wall revealed by the
/// quadrant pass; without `include_walls`, opaque cells are left out.
pub fn field_of_view<M: VisionMap>(
    map: &M,
    x: i32,
    y: i32,
    radius: i32,
    include_walls: bool,
) -> (r: Vec<Point>)
    requires
        in_bounds(map.spec_dimensions(), x as int, y as int),
        map.spec_dimensions().0 as int * map.spec_dimensions().1 as int <= usize::MAX,
    ensures
        r@.no_duplicates(),
        forall|c: Point| #[trigger] r@.contains(c) <==> fov_holds(map, pt((x, y)), radius as int, include_walls, pt(c)),
        radius < 1 ==> r@ == seq![(x, y)],
        radius >= 1 && !degenerate(window(map.spec_dimensions(), x as int, y as int, radius as int)) && (include_walls
            || !map.spec_opaque(x as int, y as int)) ==> r@.contains((x, y)),
        include_walls && radius >= 1 ==> forall|c: Point|
            #[trigger] r@.contains(c) ==> within_radius(pt((x, y)), pt(c), radius * radius) || revealed(
                map,
                pt((x, y)),
                window(map.spec_dimensions(), x as int, y as int, radius as int),
                radius * radius,
                pt(c),
            ),
        !include_walls && (radius >= 1 || !map.spec_opaque(x as int, y as int)) ==> forall|c: Point|
            #[trigger] r@.contains(c) ==> !map.spec_opaque(c.0 as int, c.1 as int),
        include_walls ==> forall|c: Point|
            #[trigger] r@.contains(c) ==> exists|ch: Seq<(int, int)>| fov_chain(map, pt((x, y)), radius as int, pt(c), ch),
{
    let r = visible_cells(map, x, y, radius, include_walls);
    proof {
        let o = pt((x, y));
        if radius >= 1 && !degenerate(window(map.spec_dimensions(), x as int, y as int, radius as int))
            && (include_walls || !map.spec_opaque(x as int, y as int)) {
            lemma_origin_is_seen(map, o, radius as int, include_walls);
            assert(r@.contains((x, y)) == fov_holds(map, o, radius as int, include_walls, pt((x, y))));
        }
        assert forall|c: Point| #[trigger] r@.contains(c) implies (include_walls && radius >= 1 ==> within_radius(
            o,
            pt(c),
            radius * radius,
        ) || revealed(map, o, window(map.spec_dimensions(), x as int, y as int, radius as int), radius * radius, pt(c)))
            && (!include_walls && (radius >= 1 || !map.spec_opaque(x as int, y as int)) ==> !map.spec_opaque(
            c.0 as int,
            c.1 as int,
        )) by {
            if include_walls && radius >= 1 {
                lemma_seen_within_radius_or_revealed(map, o, radius as int, pt(c));
            }
            if !include_walls && (radius >= 1 || !map.spec_opaque(x as int, y as int)) {
                lemma_no_walls_no_opaque(map, o, radius as int, pt(c));
            }
        }
        if include_walls {
            assert forall|c: Point| #[trigger] r@.contains(c) implies exists|ch: Seq<(int, int)>| fov_chain(
                map,
                o,
                radius as int,
                pt(c),
                ch,
            ) by {
                lemma_fov_connected(map, o, radius as int, pt(c));
            }
        }
    }
    r
}

/// The two cells touch, by a side or a corner, or are the same.
pub open spec fn adjacent8(a: (int, int), b: (int, int)) -> bool {
    -1 <= b.0 - a.0 <= 1 && -1 <= b.1 - a.1 <= 1
}

/// `ch` walks from the origin to `c` through cells of the field of view with walls, each
/// touching the next.
pub open spec fn fov_chain<M: VisionMap>(map: &M, o: (int, int), radius: int, c: (int, int), ch: Seq<(int, int)>) -> bool {
    &&& ch.len() >= 1
    &&& ch[0] == o
    &&& ch.last() == c
    &&& forall|i: int| 0 <= i < ch.len() ==> fov_holds(map, o, radius, true, #[trigger] ch[i])
    &&& forall|i: int| 1 <= i < ch.len() ==> adjacent8(ch[i - 1], #[trigger] ch[i])
}

proof fn lemma_lit_chain<M: VisionMap>(map: &M, o: (int, int), radius: int, c: (int, int))
    requires
        in_bounds(map.spec_dimensions(), o.0, o.1),
        radius >= 1,
        !degenerate(window(map.spec_dimensions(), o.0, o.1, radius)),
        lit(map, o, window(map.spec_dimensions(), o.0, o.1, radius), radius * radius, c),
    ensures
        exists|ch: Seq<(int, int)>| fov_chain(map, o, radius, c, ch),
{
    let win = window(map.spec_dimensions(), o.0, o.1, radius);
    let r2 = radius * radius;
    if c == o {
        let ch = seq![o];
        assert(fov_chain(map, o, radius, c, ch));
    } else {
        let d = choose|d: (int, int)| on_border(win, d) && #[trigger] ray_lights(map, o, d, r2, c);
        let j = choose|j: int|
            1 <= j < line_len(o, d) && #[trigger] line_point(o, d, j) == c && within_radius(o, c, r2)
                && ray_clear(map, o, d, j);
        lemma_line_ends(o, d);
        let ch = line(o, d).take(j + 1);
        assert(ch[0] == o) by {
            assert(line(o, d)[0] == o);
        }
        assert forall|i: int| 0 <= i < ch.len() implies fov_holds(map, o, radius, true, #[trigger] ch[i]) by {
            let p = line_point(o, d, i);
            assert(ch[i] == p);
            lemma_line_point_between(o, d, i);
            if i > 0 {
                lemma_line_distance_grows(o, d, i, j);
                assert(dist2(o, p) <= dist2(o, c));
                assert(ray_clear(map, o, d, i));
                assert(ray_lights(map, o, d, r2, p));
            } else {
                assert(line(o, d)[0] == p);
            }
        }
        assert forall|i: int| 1 <= i < ch.len() implies adjacent8(ch[i - 1], #[trigger] ch[i]) by {
            lemma_line_steps(o, d, i - 1);
            assert(ch[i - 1] == line_point(o, d, i - 1));
            assert(ch[i] == line_point(o, d, i));
        }
        assert(fov_chain(map, o, radius, c, ch));
    }
}

/// With walls included, every cell of the field of view joins the origin through cells of the
/// field of view that touch one after the other: the field of view is one connected region.
pub proof fn lemma_fov_connected<M: VisionMap>(map: &M, o: (int, int), radius: int, c: (int, int))
    requires
        in_bounds(map.spec_dimensions(), o.0, o.1),
        fov_holds(map, o, radius, true, c),
    ensures
        exists|ch: Seq<(int, int)>| fov_chain(map, o, radius, c, ch),
{
    let win = window(map.spec_dimensions(), o.0, o.1, radius);
    let r2 = radius * radius;
    if radius < 1 {
        let ch = seq![o];
        assert(fov_chain(map, o, radius, c, ch));
    } else if lit(map, o, win, r2, c) {
        lemma_lit_chain(map, o, radius, c);
    } else {
        let nx = step_x(o, c);
        let ny = step_y(o, c);
        let n = if !map.spec_opaque(nx.0, nx.1) && lit(map, o, win, r2, nx) { nx } else { ny };
        lemma_lit_chain(map, o, radius, n);
        let ch0 = choose|ch: Seq<(int, int)>| fov_chain(map, o, radius, n, ch);
        let ch = ch0.push(c);
        assert(fov_holds(map, o, radius, true, n));
        assert forall|i: int| 0 <= i < ch.len() implies fov_holds(map, o, radius, true, #[trigger] ch[i]) by {
            if i < ch0.len() {
                assert(ch[i] == ch0[i]);
            }
        }
        assert forall|i: int| 1 <= i < ch.len() implies adjacent8(ch[i - 1], #[trigger] ch[i]) by {
            if i < ch0.len() {
                assert(ch[i] == ch0[i] && ch[i - 1] == ch0[i - 1]);
            } else {
                assert(ch[i - 1] == ch0.last());
            }
        }
        assert(fov_chain(map, o, radius, c, ch));
    }
}

} // verus!
