//! Integer line rasterization (Bresenham), over all eight octants.
use vstd::prelude::*;

use crate::Point;

verus! {

/// Mathematical view of a grid point.
pub open spec fn pt(p: Point) -> (int, int) {
    (p.0 as int, p.1 as int)
}

/// The octant of the direction `start -> end`, numbered 0 to 7: 0 and 1 have `dx, dy >= 0`;
/// 2 and 3 have `dx < 0 <= dy`; 4 and 5 have `dx <= 0`, `dy < 0`; 6 and 7 have `dy < 0 < dx`.
/// In each pair the even octant holds the directions no farther from the quadrant's first
/// axis (x for 0 and 4, y for 2 and 6) than from its second, ties included.
pub open spec fn octant_of(start: (int, int), end: (int, int)) -> int {
    let dx = end.0 - start.0;
    let dy = end.1 - start.1;
    if dy >= 0 {
        if dx >= 0 {
            if dx >= dy { 0 } else { 1 }
        } else {
            if dy >= -dx { 2 } else { 3 }
        }
    } else {
        if dx <= 0 {
            if -dx >= -dy { 4 } else { 5 }
        } else {
            if -dy >= dx { 6 } else { 7 }
        }
    }
}

/// Moves a point of octant `o` into octant 0.
pub open spec fn to_octant0(o: int, p: (int, int)) -> (int, int) {
    if o == 0 { (p.0, p.1) }
    else if o == 1 { (p.1, p.0) }
    else if o == 2 { (p.1, -p.0) }
    else if o == 3 { (-p.0, p.1) }
    else if o == 4 { (-p.0, -p.1) }
    else if o == 5 { (-p.1, -p.0) }
    else if o == 6 { (-p.1, p.0) }
    else { (p.0, -p.1) }
}

/// Moves a point of octant 0 back into octant `o`.
pub open spec fn from_octant0(o: int, p: (int, int)) -> (int, int) {
    if o == 0 { (p.0, p.1) }
    else if o == 1 { (p.1, p.0) }
    else if o == 2 { (-p.1, p.0) }
    else if o == 3 { (-p.0, p.1) }
    else if o == 4 { (-p.0, -p.1) }
    else if o == 5 { (-p.1, -p.0) }
    else if o == 6 { (p.1, -p.0) }
    else { (p.0, -p.1) }
}

pub open spec fn abs(v: int) -> int {
    if v < 0 { -v } else { v }
}

/// Number of points of the line from `start` to `end`: `max(|dx|, |dy|) + 1`.
pub open spec fn line_len(start: (int, int), end: (int, int)) -> int {
    let dx = abs(end.0 - start.0);
    let dy = abs(end.1 - start.1);
    if dx >= dy { dx + 1 } else { dy + 1 }
}

/// The `i`-th point of the line: in octant 0 it is `(x0 + i, y0 + floor(i * dy / dx))`,
/// moved back into the line's own octant.
pub open spec fn line_point(start: (int, int), end: (int, int), i: int) -> (int, int) {
    let o = octant_of(start, end);
    let s = to_octant0(o, start);
    let e = to_octant0(o, end);
    let dx = e.0 - s.0;
    let dy = e.1 - s.1;
    let k = if dx == 0 { 0 } else { (i * dy) / dx };
    from_octant0(o, (s.0 + i, s.1 + k))
}

/// Every point of the line from `start` to `end`, both included, in order.
pub open spec fn line(start: (int, int), end: (int, int)) -> Seq<(int, int)> {
    Seq::new(line_len(start, end) as nat, |i: int| line_point(start, end, i))
}

/// Whether `v` lies between `a` and `b`, in either order.
pub open spec fn between(a: int, b: int, v: int) -> bool {
    (a <= v <= b) || (b <= v <= a)
}

/// In octant 0 the direction has `dx >= dy >= 0`, and the transforms undo each other.
pub proof fn lemma_octant0(start: (int, int), end: (int, int))
    ensures
        0 <= octant_of(start, end) < 8,
        ({
            let o = octant_of(start, end);
            let s = to_octant0(o, start);
            let e = to_octant0(o, end);
            &&& e.0 - s.0 >= e.1 - s.1 >= 0
            &&& from_octant0(o, s) == start
            &&& from_octant0(o, e) == end
            &&& e.0 - s.0 + 1 == line_len(start, end)
        }),
{
}

/// The transform out of octant 0 commutes with adding a canonical offset.
proof fn lemma_from_octant0_between(o: int, s: (int, int), e: (int, int), x: int, y: int)
    requires
        0 <= o < 8,
        s.0 <= x <= e.0,
        s.1 <= y <= e.1,
    ensures
        between(from_octant0(o, s).0, from_octant0(o, e).0, from_octant0(o, (x, y)).0),
        between(from_octant0(o, s).1, from_octant0(o, e).1, from_octant0(o, (x, y)).1),
{
}

/// Each point of a line lies in the box spanned by its two ends.
pub proof fn lemma_line_point_between(start: (int, int), end: (int, int), i: int)
    requires
        0 <= i < line_len(start, end),
    ensures
        between(start.0, end.0, line_point(start, end, i).0),
        between(start.1, end.1, line_point(start, end, i).1),
{
    lemma_octant0(start, end);
    let o = octant_of(start, end);
    let s = to_octant0(o, start);
    let e = to_octant0(o, end);
    let dx = e.0 - s.0;
    let dy = e.1 - s.1;
    let k = if dx == 0 { 0 } else { (i * dy) / dx };
    if dx != 0 {
        assert(0 <= (i * dy) / dx <= dy) by (nonlinear_arith)
            requires 0 <= i <= dx, 0 <= dy <= dx, dx > 0;
    }
    lemma_from_octant0_between(o, s, e, s.0 + i, s.1 + k);
}

/// A line starts at `start`, ends at `end`, and has `max(|dx|, |dy|) + 1` points.
pub proof fn lemma_line_ends(start: (int, int), end: (int, int))
    ensures
        line(start, end).len() == line_len(start, end) >= 1,
        line(start, end)[0] == start,
        line(start, end).last() == end,
{
    lemma_octant0(start, end);
    let o = octant_of(start, end);
    let s = to_octant0(o, start);
    let e = to_octant0(o, end);
    let dx = e.0 - s.0;
    let dy = e.1 - s.1;
    if dx != 0 {
        assert((dx * dy) / dx == dy) by (nonlinear_arith)
            requires dx > 0;
    }
    assert(line(start, end)[0] == line_point(start, end, 0));
    assert(line(start, end).last() == line_point(start, end, dx));
}

/// Consecutive points of a line are distinct cells that touch, sides or corners.
pub proof fn lemma_line_steps(start: (int, int), end: (int, int), i: int)
    requires
        0 <= i,
        i + 1 < line_len(start, end),
    ensures
        ({
            let p = line_point(start, end, i);
            let q = line_point(start, end, i + 1);
            &&& -1 <= q.0 - p.0 <= 1
            &&& -1 <= q.1 - p.1 <= 1
            &&& p != q
        }),
{
    lemma_octant0(start, end);
    let o = octant_of(start, end);
    let s = to_octant0(o, start);
    let e = to_octant0(o, end);
    let dx = e.0 - s.0;
    let dy = e.1 - s.1;
    assert(dx > 0);
    assert(0 <= ((i + 1) * dy) / dx - (i * dy) / dx <= 1) by (nonlinear_arith)
        requires 0 <= i, 0 <= dy <= dx, dx > 0;
}

/// The squared distance from `p` to `q`.
pub open spec fn dist2(p: (int, int), q: (int, int)) -> int {
    (q.0 - p.0) * (q.0 - p.0) + (q.1 - p.1) * (q.1 - p.1)
}

/// Moving out of octant 0 keeps squared distances.
proof fn lemma_from_octant0_dist(o: int, s: (int, int), a: int, b: int)
    requires
        0 <= o < 8,
    ensures
        dist2(from_octant0(o, s), from_octant0(o, (s.0 + a, s.1 + b))) == a * a + b * b,
{
    assert((-a) * (-a) == a * a) by (nonlinear_arith);
    assert((-b) * (-b) == b * b) by (nonlinear_arith);
    assert(b * b + a * a == a * a + b * b);
}

/// Along a line the distance from its start never shrinks.
pub proof fn lemma_line_distance_grows(start: (int, int), end: (int, int), l: int, j: int)
    requires
        0 <= l <= j < line_len(start, end),
    ensures
        dist2(start, line_point(start, end, l)) <= dist2(start, line_point(start, end, j)),
{
    lemma_octant0(start, end);
    let o = octant_of(start, end);
    let s = to_octant0(o, start);
    let e = to_octant0(o, end);
    let dx = e.0 - s.0;
    let dy = e.1 - s.1;
    let kl = if dx == 0 { 0 } else { (l * dy) / dx };
    let kj = if dx == 0 { 0 } else { (j * dy) / dx };
    if dx != 0 {
        assert(0 <= kl <= kj) by (nonlinear_arith)
            requires 0 <= l <= j, 0 <= dy, dx > 0, kl == (l * dy) / dx, kj == (j * dy) / dx;
    }
    lemma_from_octant0_dist(o, s, l, kl);
    lemma_from_octant0_dist(o, s, j, kj);
    assert(l * l + kl * kl <= j * j + kj * kj) by (nonlinear_arith)
        requires 0 <= l <= j, 0 <= kl <= kj;
}

/// An octant, numbered 0 to 7.
pub struct Octant(u8);

impl Octant {
    pub closed spec fn view(&self) -> int {
        self.0 as int
    }

    pub fn from_points(start: Point, end: Point) -> (r: Octant)
        ensures
            r@ == octant_of(pt(start), pt(end)),
    {
        let mut dx: i64 = end.0 as i64 - start.0 as i64;
        let mut dy: i64 = end.1 as i64 - start.1 as i64;
        let mut octant: u8 = 0;
        if dy < 0 {
            dx = -dx;
            dy = -dy;
            octant += 4;
        }
        if dx < 0 {
            let tmp = dx;
            dx = dy;
            dy = -tmp;
            octant += 2;
        }
        if dx < dy {
            octant += 1;
        }
        Octant(octant)
    }

    pub fn to_octant0(&self, p: (i64, i64)) -> (r: (i64, i64))
        requires
            0 <= self@ < 8,
            i64::MIN < p.0,
            i64::MIN < p.1,
        ensures
            (r.0 as int, r.1 as int) == to_octant0(self@, (p.0 as int, p.1 as int)),
    {
        match self.0 {
            0 => (p.0, p.1),
            1 => (p.1, p.0),
            2 => (p.1, -p.0),
            3 => (-p.0, p.1),
            4 => (-p.0, -p.1),
            5 => (-p.1, -p.0),
            6 => (-p.1, p.0),
            _ => (p.0, -p.1),
        }
    }

    pub fn from_octant0(&self, p: (i64, i64)) -> (r: (i64, i64))
        requires
            0 <= self@ < 8,
            i64::MIN < p.0,
            i64::MIN < p.1,
        ensures
            (r.0 as int, r.1 as int) == from_octant0(self@, (p.0 as int, p.1 as int)),
    {
        match self.0 {
            0 => (p.0, p.1),
            1 => (p.1, p.0),
            2 => (-p.1, p.0),
            3 => (-p.0, p.1),
            4 => (-p.0, -p.1),
            5 => (-p.1, -p.0),
            6 => (p.1, -p.0),
            _ => (p.0, -p.1),
        }
    }
}

/// The points of the line from `start` to `end`, both included, handed out one at a time.
pub struct LineBresenham {
    x: i64,
    y: i64,
    dx: i64,
    dy: i64,
    x1: i64,
    y1: i64,
    diff: i64,
    octant: Octant,
    start: Point,
    end: Point,
}

impl LineBresenham {
    /// The line that this value walks.
    pub closed spec fn spec_start(&self) -> Point {
        self.start
    }

    pub closed spec fn spec_end(&self) -> Point {
        self.end
    }

    /// Index, along the line, of the next point to hand out.
    pub closed spec fn position(&self) -> int {
        let s = to_octant0(self.octant@, pt(self.start));
        self.x - s.0
    }

    /// The position stays within the line.
    pub proof fn lemma_position(&self)
        requires
            self.wf(),
        ensures
            0 <= self.position() <= line_len(pt(self.spec_start()), pt(self.spec_end())),
            self.remaining().len() == line_len(pt(self.spec_start()), pt(self.spec_end()))
                - self.position(),
    {
        lemma_octant0(pt(self.start), pt(self.end));
    }

    /// The points not handed out yet.
    pub open spec fn remaining(&self) -> Seq<(int, int)> {
        line(pt(self.spec_start()), pt(self.spec_end())).skip(self.position())
    }

    pub closed spec fn wf(&self) -> bool {
        let start = pt(self.start);
        let end = pt(self.end);
        let o = octant_of(start, end);
        let s = to_octant0(o, start);
        let e = to_octant0(o, end);
        let i = self.x - s.0;
        &&& self.octant@ == o
        &&& self.x1 == e.0
        &&& self.y1 == e.1
        &&& self.dx == e.0 - s.0
        &&& self.dy == e.1 - s.1
        &&& 0 <= i <= self.dx + 1
        &&& i <= self.dx ==> {
            let k = self.y - s.1;
            &&& self.dx > 0 ==> k == (i * self.dy) / (self.dx as int)
            &&& self.dx == 0 ==> k == 0
            &&& self.diff == (i + 1) * self.dy - (k + 1) * self.dx
        }
    }

    /// Creates the line from `start` to `end`.
    pub fn new(start: Point, end: Point) -> (r: LineBresenham)
        ensures
            r.wf(),
            r.spec_start() == start,
            r.spec_end() == end,
            r.position() == 0,
            r.remaining() == line(pt(start), pt(end)),
    {
        proof {
            lemma_octant0(pt(start), pt(end));
        }
        let octant = Octant::from_points(start, end);
        let s = octant.to_octant0((start.0 as i64, start.1 as i64));
        let e = octant.to_octant0((end.0 as i64, end.1 as i64));
        let dx = e.0 - s.0;
        let dy = e.1 - s.1;
        let r = LineBresenham {
            x: s.0,
            y: s.1,
            dx,
            dy,
            x1: e.0,
            y1: e.1,
            diff: dy - dx,
            octant,
            start,
            end,
        };
        proof {
            assert(r.remaining() =~= line(pt(start), pt(end)));
            if dx > 0 {
                assert((0 * dy as int) / (dx as int) == 0) by (nonlinear_arith)
                    requires dx > 0;
            }
            assert((0 + 1) * (dy as int) - (0 + 1) * (dx as int) == dy - dx) by (nonlinear_arith);
        }
        r
    }

    /// How many points are left to hand out.
    pub fn len(&self) -> (r: usize)
        requires
            self.wf(),
            self.remaining().len() <= usize::MAX,
        ensures
            r == self.remaining().len(),
    {
        proof {
            lemma_octant0(pt(self.start), pt(self.end));
        }
        (self.x1 + 1 - self.x) as usize
    }

    /// Hands out the next point of the line, or `None` once its end was handed out.
    pub fn next(&mut self) -> (r: Option<Point>)
        requires
            old(self).wf(),
        ensures
            final(self).wf(),
            final(self).spec_start() == old(self).spec_start(),
            final(self).spec_end() == old(self).spec_end(),
            old(self).remaining().len() == 0 ==> r is None && final(self).remaining().len() == 0,
            old(self).remaining().len() > 0 ==> r is Some && pt(r->0) == old(self).remaining()[0]
                && final(self).remaining() == old(self).remaining().skip(1),
            final(self).position() == if old(self).remaining().len() > 0 {
                old(self).position() + 1
            } else {
                old(self).position()
            },
    {
        let ghost start = pt(self.start);
        let ghost end = pt(self.end);
        let ghost o = octant_of(start, end);
        let ghost s = to_octant0(o, start);
        let ghost i: int = self.x - s.0;
        proof {
            lemma_octant0(start, end);
        }
        if self.x == self.x1 {
            self.x = self.x + 1;
            proof {
                if self.dx > 0 {
                    assert((self.dx as int * self.dy as int) / (self.dx as int) == self.dy as int) by (nonlinear_arith)
                        requires self.dx > 0;
                }
                lemma_line_point_between(start, end, i);
                assert(line(start, end)[i] == line_point(start, end, i));
                assert(self.remaining() =~= old(self).remaining().skip(1));
            }
            let p = self.octant.from_octant0((self.x1, self.y1));
            return Some((p.0 as i32, p.1 as i32));
        }
        if self.x > self.x1 {
            return None;
        }
        let ghost k: int = self.y - s.1;
        proof {
            assert(0 <= (i * self.dy) / (self.dx as int) <= self.dy) by (nonlinear_arith)
                requires 0 <= i <= self.dx, 0 <= self.dy <= self.dx, self.dx > 0;
            lemma_line_point_between(start, end, i);
            assert(line(start, end)[i] == line_point(start, end, i));
        }
        let p = self.octant.from_octant0((self.x, self.y));
        if self.diff >= 0 {
            self.y = self.y + 1;
            self.diff = self.diff - self.dx;
        }
        self.diff = self.diff + self.dy;
        self.x = self.x + 1;
        proof {
            let dx = self.dx as int;
            let dy = self.dy as int;
            assert((i + 1) * dy >= (k + 1) * dx ==> ((i + 1) * dy) / dx == k + 1) by (nonlinear_arith)
                requires k == (i * dy) / dx, dx > 0, 0 <= dy <= dx, 0 <= i;
            assert((i + 1) * dy < (k + 1) * dx ==> ((i + 1) * dy) / dx == k) by (nonlinear_arith)
                requires k == (i * dy) / dx, dx > 0, 0 <= dy <= dx, 0 <= i;
            let k2: int = self.y - s.1;
            let d0: int = old(self).diff as int;
            let d1: int = self.diff as int;
            assert(d1 == (i + 2) * dy - (k2 + 1) * dx) by (nonlinear_arith)
                requires
                    d0 == (i + 1) * dy - (k + 1) * dx,
                    d0 >= 0 ==> k2 == k + 1 && d1 == d0 - dx + dy,
                    d0 < 0 ==> k2 == k && d1 == d0 + dy;
            assert(self.remaining() =~= old(self).remaining().skip(1));
        }
        Some((p.0 as i32, p.1 as i32))
    }

    /// Hands out every point that is left, in order.
    pub fn collect(self) -> (r: Vec<Point>)
        requires
            self.wf(),
        ensures
            r@.map_values(|p: Point| pt(p)) == self.remaining(),
    {
        let mut it = self;
        let mut out: Vec<Point> = Vec::new();
        let ghost all = self.remaining();
        proof {
            lemma_octant0(pt(self.start), pt(self.end));
        }
        while it.x <= it.x1
            invariant
                it.wf(),
                it.spec_start() == self.spec_start(),
                it.spec_end() == self.spec_end(),
                all == out@.map_values(|p: Point| pt(p)) + it.remaining(),
            decreases it.remaining().len(),
        {
            let ghost before = it.remaining();
            let ghost prev = out@;
            let p = it.next();
            match p {
                Some(q) => {
                    out.push(q);
                    assert(before =~= seq![pt(q)] + it.remaining());
                    assert(out@.map_values(|p: Point| pt(p)) =~= prev.map_values(|p: Point| pt(p)).push(pt(q)));
                    assert(all =~= out@.map_values(|p: Point| pt(p)) + it.remaining());
                },
                None => {},
            }
        }
        assert(it.remaining().len() == 0);
        assert(all =~= out@.map_values(|p: Point| pt(p)));
        out
    }
}

} // verus!
