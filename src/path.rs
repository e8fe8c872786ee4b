//! A* shortest paths over grid graphs.
//!
//! Costs are non-negative integers. The bookkeeping lives in flat arrays indexed by
//! `x + y * width`; the frontier is a binary min-heap keyed by `cost + heuristic`.
use vstd::multiset::Multiset;
use vstd::prelude::*;

use crate::fov::{in_bounds, lemma_idx_bounds, lemma_idx_injective};
use crate::heap::MinHeap;
use crate::Point;

verus! {

/// A graph whose nodes are the cells of a grid.
pub trait Graph {
    /// `(width, height)` of the grid.
    spec fn spec_dimensions(&self) -> (i32, i32);

    /// Whether a path may go through the cell `(x, y)`.
    spec fn spec_walkable(&self, x: int, y: int) -> bool;

    /// The cells that one step from `a` may reach, in the order they are offered.
    spec fn spec_neighboors(&self, a: Point) -> Seq<Point>;

    /// The cost of the step from `a` to `b`.
    spec fn spec_cost_between(&self, a: Point, b: Point) -> int;

    /// The estimate of the cost from `a` to `b`.
    spec fn spec_heuristic(&self, a: Point, b: Point) -> int;

    fn dimensions(&self) -> (r: (i32, i32))
        ensures
            r == self.spec_dimensions(),
    ;

    fn is_walkable(&self, x: i32, y: i32) -> (r: bool)
        requires
            in_bounds(self.spec_dimensions(), x as int, y as int),
        ensures
            r == self.spec_walkable(x as int, y as int),
    ;

    /// The cost of the step from `a` to `b`; a higher cost stands for terrain that is harder
    /// to cross. A step may cost nothing.
    fn cost_between(&self, a: Point, b: Point) -> (r: u32)
        requires
            in_bounds(self.spec_dimensions(), a.0 as int, a.1 as int),
            in_bounds(self.spec_dimensions(), b.0 as int, b.1 as int),
        ensures
            r == self.spec_cost_between(a, b),
    ;

    /// An estimate of the cost from `a` to `b`.
    fn heuristic(&self, a: Point, b: Point) -> (r: u64)
        requires
            in_bounds(self.spec_dimensions(), a.0 as int, a.1 as int),
            in_bounds(self.spec_dimensions(), b.0 as int, b.1 as int),
        ensures
            r == self.spec_heuristic(a, b),
    ;

    /// Appends the cells that one step from `a` may reach; they need not be in bounds
    /// nor walkable, the search filters them.
    fn neighboors(&self, a: Point, into: &mut Vec<Point>)
        requires
            i32::MIN < a.0 < i32::MAX,
            i32::MIN < a.1 < i32::MAX,
        ensures
            final(into)@ == old(into)@ + self.spec_neighboors(a),
    ;
}

/// One step of a path: `b` is a walkable cell in bounds that `a` offers as a neighbour.
pub open spec fn is_step<G: Graph>(g: &G, a: Point, b: Point) -> bool {
    &&& in_bounds(g.spec_dimensions(), b.0 as int, b.1 as int)
    &&& g.spec_walkable(b.0 as int, b.1 as int)
    &&& g.spec_neighboors(a).contains(b)
}

/// `p` leads from `from` to `to`, one step at a time.
pub open spec fn is_path<G: Graph>(g: &G, from: Point, to: Point, p: Seq<Point>) -> bool {
    &&& p.len() >= 1
    &&& p[0] == from
    &&& p.last() == to
    &&& forall|i: int| 1 <= i < p.len() ==> #[trigger] is_step(g, p[i - 1], p[i])
}

/// Flat index of a cell.
pub open spec fn index_of(p: Point, width: int) -> int {
    p.0 + p.1 * width
}

/// The cell at a flat index.
pub open spec fn cell_of(i: int, width: int) -> Point {
    ((i % width) as i32, (i / width) as i32)
}

/// Grids whose cell count the flat arrays can index.
pub open spec fn fits(dims: (i32, i32)) -> bool {
    dims.0 > 0 && dims.1 > 0 && dims.0 as int * dims.1 as int <= 0x7fff_ffff
}

proof fn lemma_index_of(p: Point, dims: (i32, i32))
    requires
        fits(dims),
        in_bounds(dims, p.0 as int, p.1 as int),
    ensures
        0 <= index_of(p, dims.0 as int) < dims.0 * dims.1,
        cell_of(index_of(p, dims.0 as int), dims.0 as int) == p,
{
    let w = dims.0 as int;
    let i = index_of(p, w);
    lemma_idx_bounds(w, dims.1 as int, p.0 as int, p.1 as int);
    vstd::arithmetic::div_mod::lemma_fundamental_div_mod(i, w);
    vstd::arithmetic::div_mod::lemma_mod_bound(i, w);
    lemma_idx_injective(w, p.0 as int, p.1 as int, i % w, i / w);
}

proof fn lemma_cell_of(i: int, dims: (i32, i32))
    requires
        fits(dims),
        0 <= i < dims.0 * dims.1,
    ensures
        in_bounds(dims, cell_of(i, dims.0 as int).0 as int, cell_of(i, dims.0 as int).1 as int),
        index_of(cell_of(i, dims.0 as int), dims.0 as int) == i,
{
    let w = dims.0 as int;
    let h = dims.1 as int;
    vstd::arithmetic::div_mod::lemma_fundamental_div_mod(i, w);
    vstd::arithmetic::div_mod::lemma_mod_bound(i, w);
    assert(0 <= i / w < h) by (nonlinear_arith)
        requires 0 <= i < w * h, w > 0, i == w * (i / w) + i % w, 0 <= i % w < w;
    assert(i / w <= i) by (nonlinear_arith)
        requires 0 <= i, w > 0;
    assert(cell_of(i, w).0 as int == i % w);
    assert(cell_of(i, w).1 as int == i / w);
    assert(index_of(cell_of(i, w), w) == i % w + (i / w) * w);
    assert(i % w + (i / w) * w == i) by (nonlinear_arith)
        requires i == w * (i / w) + i % w;
}

proof fn lemma_cell_round_trip(i: int, w: int)
    requires
        0 <= i <= 0x7fff_ffff,
        w > 0,
    ensures
        index_of(cell_of(i, w), w) == i,
{
    vstd::arithmetic::div_mod::lemma_fundamental_div_mod(i, w);
    vstd::arithmetic::div_mod::lemma_mod_bound(i, w);
    assert(i / w <= i) by (nonlinear_arith)
        requires 0 <= i, w > 0;
    assert(0 <= i / w) by (nonlinear_arith)
        requires 0 <= i, w > 0;
    assert(cell_of(i, w).0 as int == i % w);
    assert(cell_of(i, w).1 as int == i / w);
    assert(i % w + (i / w) * w == i) by (nonlinear_arith)
        requires i == w * (i / w) + i % w;
}

/// Flat index of the cell `(x, y)` of a grid `width` wide.
pub fn point_to_index(p: Point, width: i32) -> (r: usize)
    requires
        0 <= p.0 < width,
        0 <= p.1,
        p.0 + p.1 * width <= 0x7fff_ffff,
    ensures
        r == index_of(p, width as int),
{
    proof {
        assert(0 <= p.1 * width) by (nonlinear_arith)
            requires 0 <= p.1, 0 < width;
    }
    (p.0 + p.1 * width) as usize
}

/// The cell at flat index `index` of a grid `width` wide.
pub fn index_to_point(index: usize, width: i32) -> (r: Point)
    requires
        index <= 0x7fff_ffff,
        width > 0,
    ensures
        r == cell_of(index as int, width as int),
{
    proof {
        vstd::arithmetic::div_mod::lemma_mod_bound(index as int, width as int);
        assert(index as int / width as int <= index) by (nonlinear_arith)
            requires 0 <= index, width > 0;
    }
    ((index as i32) % width, (index as i32) / width)
}

/// A first guess at the frontier's size: the square of the Chebyshev distance from `a` to
/// `b`, saturated at `usize::MAX`.
pub fn rough_capacity(a: Point, b: Point) -> (r: usize)
    ensures
        r == if chebyshev(a, b) * chebyshev(a, b) <= usize::MAX {
            chebyshev(a, b) * chebyshev(a, b)
        } else {
            usize::MAX as int
        },
{
    let (xa, ya) = a;
    let (xb, yb) = b;
    let dx: u64 = if xa >= xb { (xa as i64 - xb as i64) as u64 } else { (xb as i64 - xa as i64) as u64 };
    let dy: u64 = if ya >= yb { (ya as i64 - yb as i64) as u64 } else { (yb as i64 - ya as i64) as u64 };
    let distance: u64 = if dx >= dy { dx } else { dy };
    proof {
        assert(distance * distance <= 0xffff_ffff * 0xffff_ffff) by (nonlinear_arith)
            requires distance <= 0xffff_ffff;
    }
    let square: u64 = distance * distance;
    if square <= usize::MAX as u64 {
        square as usize
    } else {
        usize::MAX
    }
}

/// `max(|dx|, |dy|)` between two cells.
pub open spec fn chebyshev(a: Point, b: Point) -> int {
    let dx = if a.0 >= b.0 { a.0 - b.0 } else { b.0 - a.0 };
    let dy = if a.1 >= b.1 { a.1 - b.1 } else { b.1 - a.1 };
    if dx >= dy { dx } else { dy }
}

/// Number of cells that hold a cost.
pub open spec fn count_some(s: Seq<Option<u64>>) -> nat
    decreases s.len(),
{
    if s.len() == 0 {
        0
    } else {
        count_some(s.drop_last()) + if s.last() is Some { 1nat } else { 0nat }
    }
}

/// Sum over the cells of their cost, with `big` for a cell without one: every improvement
/// lowers it, which bounds the search.
pub open spec fn potential(s: Seq<Option<u64>>, big: int) -> int
    decreases s.len(),
{
    if s.len() == 0 {
        0
    } else {
        potential(s.drop_last(), big) + match s.last() {
            Some(c) => c as int,
            None => big,
        }
    }
}

proof fn lemma_count_bound(s: Seq<Option<u64>>)
    ensures
        count_some(s) <= s.len(),
    decreases s.len(),
{
    if s.len() > 0 {
        lemma_count_bound(s.drop_last());
    }
}

proof fn lemma_count_update(s: Seq<Option<u64>>, i: int, v: u64)
    requires
        0 <= i < s.len(),
    ensures
        count_some(s.update(i, Some(v))) == count_some(s) + if s[i] is None { 1int } else { 0int },
    decreases s.len(),
{
    let t = s.update(i, Some(v));
    if i < s.len() - 1 {
        assert(t.drop_last() =~= s.drop_last().update(i, Some(v)));
        lemma_count_update(s.drop_last(), i, v);
    } else {
        assert(t.drop_last() =~= s.drop_last());
    }
}

proof fn lemma_potential_update(s: Seq<Option<u64>>, i: int, v: u64, big: int)
    requires
        0 <= i < s.len(),
    ensures
        potential(s.update(i, Some(v)), big) == potential(s, big) - match s[i] {
            Some(c) => c as int,
            None => big,
        } + v,
    decreases s.len(),
{
    let t = s.update(i, Some(v));
    if i < s.len() - 1 {
        assert(t.drop_last() =~= s.drop_last().update(i, Some(v)));
        lemma_potential_update(s.drop_last(), i, v, big);
    } else {
        assert(t.drop_last() =~= s.drop_last());
    }
}

proof fn lemma_potential_nonneg(s: Seq<Option<u64>>, big: int)
    requires
        big >= 0,
    ensures
        potential(s, big) >= 0,
    decreases s.len(),
{
    if s.len() > 0 {
        lemma_potential_nonneg(s.drop_last(), big);
    }
}

/// The predecessor links: each cell with a cost but the origin has one; each link is a step
/// of the graph from a cell of lower cost, or of equal cost whose cost was last improved earlier
/// (`stamps` records when each cost was last improved, all before `clock`).
pub open spec fn links_ok<G: Graph>(
    g: &G,
    from_index: int,
    costs: Seq<Option<u64>>,
    came_from: Seq<Option<usize>>,
    stamps: Seq<nat>,
    clock: nat,
) -> bool {
    let w = g.spec_dimensions().0 as int;
    let n = costs.len();
    &&& came_from.len() == n
    &&& stamps.len() == n
    &&& forall|i: int| 0 <= i < n ==> #[trigger] stamps[i] < clock
    &&& 0 <= from_index < n
    &&& costs[from_index] == Some(0u64)
    &&& forall|i: int| 0 <= i < n && #[trigger] costs[i] is Some ==> i == from_index || came_from[i] is Some
    &&& forall|i: int|
        0 <= i < n && #[trigger] came_from[i] is Some ==> {
            let u = came_from[i]->0 as int;
            &&& 0 <= u < n
            &&& costs[u] is Some
            &&& costs[i] is Some
            &&& costs[u]->0 < costs[i]->0 || (costs[u]->0 == costs[i]->0 && stamps[u] < stamps[i])
            &&& is_step(g, cell_of(u, w), cell_of(i, w))
        }
}

/// Every link is a step of the graph into the linked cell.
pub open spec fn links_are_steps<G: Graph>(g: &G, came_from: Seq<Option<usize>>) -> bool {
    let w = g.spec_dimensions().0 as int;
    forall|i: int|
        0 <= i < came_from.len() && #[trigger] came_from[i] is Some ==> {
            let u = came_from[i]->0 as int;
            &&& 0 <= u < came_from.len()
            &&& is_step(g, cell_of(u, w), cell_of(i, w))
        }
}

/// Following the links from the cell at `i` walks down `rank` until it reaches `target` or a
/// cell without a link: the walk never comes back to a cell.
pub open spec fn chain_descends(came_from: Seq<Option<usize>>, rank: Seq<nat>, i: int, target: int) -> bool
    decreases rank[i],
{
    if i == target {
        true
    } else if !(0 <= i < came_from.len()) {
        false
    } else if came_from[i] is None {
        true
    } else {
        let u = came_from[i]->0 as int;
        if 0 <= u < came_from.len() && rank[u] < rank[i] {
            chain_descends(came_from, rank, u, target)
        } else {
            false
        }
    }
}

/// Following the links from the cell at `i` leads to the cell at `target`.
pub open spec fn chain_reaches(came_from: Seq<Option<usize>>, rank: Seq<nat>, i: int, target: int) -> bool
    decreases rank[i],
{
    if i == target {
        true
    } else if !(0 <= i < came_from.len()) || came_from[i] is None {
        false
    } else {
        let u = came_from[i]->0 as int;
        if 0 <= u < came_from.len() && rank[u] < rank[i] {
            chain_reaches(came_from, rank, u, target)
        } else {
            false
        }
    }
}

/// Cost, then stamp, folded into one rank: `cost * clock + stamp`, and 0 for a cell without
/// a cost.
pub open spec fn cost_rank(costs: Seq<Option<u64>>, stamps: Seq<nat>, clock: nat) -> Seq<nat> {
    Seq::new(costs.len(), |i: int| match costs[i] {
        Some(c) => (c as nat) * clock + stamps[i],
        None => 0nat,
    })
}

/// Along each link the rank goes down.
proof fn lemma_rank_link<G: Graph>(
    g: &G,
    from_index: int,
    costs: Seq<Option<u64>>,
    came_from: Seq<Option<usize>>,
    stamps: Seq<nat>,
    clock: nat,
    i: int,
)
    requires
        links_ok(g, from_index, costs, came_from, stamps, clock),
        0 <= i < costs.len(),
        came_from[i] is Some,
    ensures
        cost_rank(costs, stamps, clock)[came_from[i]->0 as int] < cost_rank(costs, stamps, clock)[i],
{
    let u = came_from[i]->0 as int;
    let cu = costs[u]->0 as int;
    let ci = costs[i]->0 as int;
    let su = stamps[u] as int;
    let si = stamps[i] as int;
    let k = clock as int;
    assert(su < k && si < k);
    assert(cu * k + su < ci * k + si) by (nonlinear_arith)
        requires cu < ci || (cu == ci && su < si), 0 <= su < k, 0 <= si < k, 0 <= cu, 0 <= ci;
}

/// From every cell, following the links walks down the rank; from a cell with a cost it
/// reaches the origin.
proof fn lemma_chain_from_costs<G: Graph>(
    g: &G,
    from_index: int,
    costs: Seq<Option<u64>>,
    came_from: Seq<Option<usize>>,
    stamps: Seq<nat>,
    clock: nat,
    i: int,
)
    requires
        links_ok(g, from_index, costs, came_from, stamps, clock),
        0 <= i < costs.len(),
    ensures
        chain_descends(came_from, cost_rank(costs, stamps, clock), i, from_index),
        costs[i] is Some ==> chain_reaches(came_from, cost_rank(costs, stamps, clock), i, from_index),
    decreases cost_rank(costs, stamps, clock)[i],
{
    if i != from_index && came_from[i] is Some {
        let u = came_from[i]->0 as int;
        lemma_rank_link(g, from_index, costs, came_from, stamps, clock, i);
        lemma_chain_from_costs(g, from_index, costs, came_from, stamps, clock, u);
    }
}

/// Walks the predecessor links back from `to` to `from` and returns that chain of cells in
/// reverse, from `from` to `to`; `None` when a link is missing before `from` is reached.
fn reconstruct_path<G: Graph>(
    graph: &G,
    from: Point,
    to: Point,
    came_from: &Vec<Option<usize>>,
    width: i32,
    Ghost(rank): Ghost<Seq<nat>>,
) -> (r: Option<Vec<Point>>)
    requires
        fits(graph.spec_dimensions()),
        width == graph.spec_dimensions().0,
        in_bounds(graph.spec_dimensions(), from.0 as int, from.1 as int),
        in_bounds(graph.spec_dimensions(), to.0 as int, to.1 as int),
        graph.spec_dimensions().0 * graph.spec_dimensions().1 <= came_from@.len() <= 0x7fff_ffff,
        chain_descends(came_from@, rank, index_of(to, width as int), index_of(from, width as int)),
    ensures
        r is Some <==> chain_reaches(came_from@, rank, index_of(to, width as int), index_of(from, width as int)),
        r is Some ==> r->0@.len() >= 1 && r->0@[0] == from && r->0@.last() == to,
        r is Some ==> forall|i: int|
            1 <= i < r->0@.len() ==> came_from@[index_of(#[trigger] r->0@[i], width as int)] == Some(
                index_of(r->0@[i - 1], width as int) as usize,
            ),
        r is Some ==> r->0@.no_duplicates(),
        r is Some && links_are_steps(graph, came_from@) ==> is_path(graph, from, to, r->0@),
        from == to ==> r is Some && r->0@ == seq![from],
{
    let ghost dims = graph.spec_dimensions();
    let ghost w = width as int;
    let ghost n = came_from@.len();
    proof {
        lemma_index_of(from, dims);
        lemma_index_of(to, dims);
        assert(dims.0 * dims.1 <= 0x7fff_ffff);
    }
    let target_index = point_to_index(from, width);
    let to_index = point_to_index(to, width);
    // Indices from `to` back to `from`.
    let mut back: Vec<usize> = Vec::new();
    let mut current = to_index;
    while current != target_index
        invariant
            fits(dims),
            dims == graph.spec_dimensions(),
            width == dims.0,
            w == width as int,
            n == came_from@.len(),
            n <= 0x7fff_ffff,
            target_index == index_of(from, w),
            to_index == index_of(to, w),
            target_index < n,
            0 <= current < n,
            chain_descends(came_from@, rank, current as int, target_index as int),
            chain_reaches(came_from@, rank, to_index as int, target_index as int) == chain_reaches(
                came_from@,
                rank,
                current as int,
                target_index as int,
            ),
            back@.len() == 0 ==> current == to_index,
            back@.len() > 0 ==> back@[0] == to_index,
            back@.len() > 0 ==> came_from@[back@.last() as int] == Some(current),
            forall|k: int| 0 <= k < back@.len() ==> 0 <= #[trigger] back@[k] < n,
            forall|k: int| 0 <= k < back@.len() ==> rank[current as int] < rank[#[trigger] back@[k] as int],
            forall|j: int, k: int| 0 <= j < k < back@.len() ==> rank[#[trigger] back@[k] as int] < rank[#[trigger] back@[j] as int],
            forall|j: int|
                0 <= j < back@.len() - 1 ==> came_from@[#[trigger] back@[j] as int] == Some(back@[j + 1]),
        decreases rank[current as int],
    {
        match came_from[current] {
            Some(entry) => {
                proof {
                    assert(came_from@[current as int] is Some);
                }
                back.push(current);
                current = entry;
            },
            None => {
                return None;
            },
        }
    }
    back.push(target_index);
    proof {
        assert(chain_reaches(came_from@, rank, target_index as int, target_index as int));
    }
    let mut path: Vec<Point> = Vec::new();
    let mut k = back.len();
    while k > 0
        invariant
            fits(dims),
            dims == graph.spec_dimensions(),
            width == dims.0,
            w == width as int,
            n == came_from@.len(),
            n <= 0x7fff_ffff,
            target_index == index_of(from, w),
            to_index == index_of(to, w),
            back@.len() >= 1,
            back@[0] == to_index,
            back@.last() == target_index,
            forall|j: int| 0 <= j < back@.len() ==> 0 <= #[trigger] back@[j] < n,
            forall|j: int, k: int| 0 <= j < k < back@.len() ==> rank[#[trigger] back@[k] as int] < rank[#[trigger] back@[j] as int],
            forall|j: int|
                0 <= j < back@.len() - 1 ==> came_from@[#[trigger] back@[j] as int] == Some(back@[j + 1]),
            0 <= k <= back@.len(),
            path@.len() == back@.len() - k,
            forall|j: int|
                0 <= j < path@.len() ==> #[trigger] path@[j] == cell_of(
                    back@[back@.len() - 1 - j] as int,
                    w,
                ),
        decreases k,
    {
        k = k - 1;
        let p = index_to_point(back[k], width);
        path.push(p);
    }
    proof {
        let len = back@.len() as int;
        lemma_index_of(from, dims);
        lemma_index_of(to, dims);
        assert(path@[0] == from);
        assert(path@[len - 1] == to);
        if from == to {
            assert(path@ =~= seq![from]);
        }
        assert forall|i: int| 1 <= i < path@.len() implies came_from@[index_of(#[trigger] path@[i], w)] == Some(
            index_of(path@[i - 1], w) as usize,
        ) by {
            let j = len - 1 - i;
            lemma_cell_round_trip(back@[j] as int, w);
            lemma_cell_round_trip(back@[j + 1] as int, w);
            assert(came_from@[back@[j] as int] == Some(back@[j + 1]));
        }
        assert forall|i: int, j: int| 0 <= i < path@.len() && 0 <= j < path@.len() && i != j implies path@[i]
            != path@[j] by {
            let a = len - 1 - i;
            let b = len - 1 - j;
            lemma_cell_round_trip(back@[a] as int, w);
            lemma_cell_round_trip(back@[b] as int, w);
            if a < b {
                assert(rank[back@[b] as int] < rank[back@[a] as int]);
            } else {
                assert(rank[back@[a] as int] < rank[back@[b] as int]);
            }
        }
        if links_are_steps(graph, came_from@) {
            assert forall|i: int| 1 <= i < path@.len() implies #[trigger] is_step(graph, path@[i - 1], path@[i]) by {
                let j = len - 1 - i;
                assert(came_from@[back@[j] as int] == Some(back@[j + 1]));
            }
        }
    }
    Some(path)
}

/// The largest cost of one step.
pub open spec fn step_cost_max() -> int {
    0xffff_ffff
}

/// No cost exceeds the largest step cost times the number of cells with a cost.
pub open spec fn costs_bounded(costs: Seq<Option<u64>>) -> bool {
    forall|i: int|
        0 <= i < costs.len() && #[trigger] costs[i] is Some ==> costs[i]->0 <= step_cost_max()
            * count_some(costs)
}

/// Every entry of the frontier names a cell with a cost.
pub open spec fn frontier_costed(frontier: Multiset<(u64, usize)>, costs: Seq<Option<u64>>) -> bool {
    forall|e: (u64, usize)|
        #[trigger] frontier.contains(e) ==> (e.1 as int) < costs.len() && costs[e.1 as int] is Some
}

pub open spec fn in_frontier(frontier: Multiset<(u64, usize)>, i: int) -> bool {
    exists|e: (u64, usize)| #[trigger] frontier.contains(e) && e.1 == i
}

/// Each walkable neighbour in bounds of the cell at `i` has a cost.
pub open spec fn expanded<G: Graph>(g: &G, costs: Seq<Option<u64>>, i: int) -> bool {
    let dims = g.spec_dimensions();
    let w = dims.0 as int;
    forall|nb: Point|
        #[trigger] g.spec_neighboors(cell_of(i, w)).contains(nb) && in_bounds(dims, nb.0 as int, nb.1 as int)
            && g.spec_walkable(nb.0 as int, nb.1 as int) ==> costs[index_of(nb, w)] is Some
}

/// Each cell with a cost, but `skip`, waits in the frontier or had its neighbours reached.
pub open spec fn closed_but<G: Graph>(
    g: &G,
    costs: Seq<Option<u64>>,
    frontier: Multiset<(u64, usize)>,
    skip: int,
) -> bool {
    forall|i: int|
        0 <= i < costs.len() && #[trigger] costs[i] is Some && i != skip ==> in_frontier(frontier, i)
            || expanded(g, costs, i)
}

/// Recording a cheaper step into the cell at `ni` keeps the search state sound and lowers
/// the potential.
proof fn lemma_improve<G: Graph>(
    graph: &G,
    from_index: int,
    current_index: int,
    cost_so_far: u64,
    ni: int,
    new_cost: u64,
    priority: u64,
    big: int,
    costs1: Seq<Option<u64>>,
    came1: Seq<Option<usize>>,
    fr1: Multiset<(u64, usize)>,
    costs2: Seq<Option<u64>>,
    came2: Seq<Option<usize>>,
    fr2: Multiset<(u64, usize)>,
    stamps1: Seq<nat>,
    clock1: nat,
)
    requires
        fits(graph.spec_dimensions()),
        costs1.len() == graph.spec_dimensions().0 * graph.spec_dimensions().1,
        0 <= current_index < costs1.len(),
        0 <= ni < costs1.len(),
        costs1[current_index] == Some(cost_so_far),
        cost_so_far <= new_cost <= cost_so_far + step_cost_max(),
        costs1[ni] is None || new_cost < costs1[ni]->0,
        is_step(
            graph,
            cell_of(current_index, graph.spec_dimensions().0 as int),
            cell_of(ni, graph.spec_dimensions().0 as int),
        ),
        big == step_cost_max() * costs1.len() + 1,
        links_ok(graph, from_index, costs1, came1, stamps1, clock1),
        costs_bounded(costs1),
        frontier_costed(fr1, costs1),
        closed_but(graph, costs1, fr1, current_index),
        costs2 == costs1.update(ni, Some(new_cost)),
        came2 == came1.update(ni, Some(current_index as usize)),
        fr2 == fr1.insert((priority, ni as usize)),
    ensures
        links_ok(graph, from_index, costs2, came2, stamps1.update(ni, clock1), clock1 + 1),
        costs_bounded(costs2),
        frontier_costed(fr2, costs2),
        closed_but(graph, costs2, fr2, current_index),
        potential(costs2, big) < potential(costs1, big),
        forall|i: int| 0 <= i < costs1.len() && #[trigger] costs1[i] is Some ==> costs2[i] is Some,
{
    let dims = graph.spec_dimensions();
    let w = dims.0 as int;
    let n = costs1.len();
    assert(ni != current_index);
    lemma_count_update(costs1, ni, new_cost);
    lemma_potential_update(costs1, ni, new_cost, big);
    lemma_count_bound(costs1);
    lemma_count_bound(costs2);
    let c1 = count_some(costs1) as int;
    let c2 = count_some(costs2) as int;
    assert(step_cost_max() * c2 <= step_cost_max() * n) by (nonlinear_arith)
        requires c2 <= n;
    if costs1[ni] is None {
        assert(c2 == c1 + 1);
        assert(step_cost_max() * c1 + step_cost_max() == step_cost_max() * c2) by (nonlinear_arith)
            requires c2 == c1 + 1;
    }
    assert(step_cost_max() * c1 <= step_cost_max() * c2) by (nonlinear_arith)
        requires c1 <= c2;
    assert(new_cost <= step_cost_max() * c2);
    let stamps2 = stamps1.update(ni, clock1);
    assert forall|i: int| 0 <= i < n implies #[trigger] stamps2[i] < clock1 + 1 by {
        if i != ni {
            assert(stamps1[i] < clock1);
        }
    }
    assert forall|i: int| 0 <= i < n && #[trigger] came2[i] is Some implies {
        let u = came2[i]->0 as int;
        &&& 0 <= u < n
        &&& costs2[u] is Some
        &&& costs2[i] is Some
        &&& costs2[u]->0 < costs2[i]->0 || (costs2[u]->0 == costs2[i]->0 && stamps2[u] < stamps2[i])
        &&& is_step(graph, cell_of(u, w), cell_of(i, w))
    } by {
        if i != ni {
            assert(came2[i] == came1[i]);
            let u = came1[i]->0 as int;
            if u == ni {
                assert(costs1[u] is Some);
                assert(costs1[u]->0 <= costs1[i]->0);
            }
        } else {
            assert(stamps1[current_index] < clock1);
        }
    }
    assert forall|i: int| 0 <= i < n && #[trigger] costs2[i] is Some implies i == from_index
        || came2[i] is Some by {
        if i != ni {
            assert(costs2[i] == costs1[i]);
        }
    }
    assert forall|i: int| 0 <= i < n && #[trigger] costs2[i] is Some implies costs2[i]->0
        <= step_cost_max() * count_some(costs2) by {
        if i != ni {
            assert(costs2[i] == costs1[i]);
        }
    }
    assert forall|e: (u64, usize)| #[trigger] fr2.contains(e) implies (e.1 as int) < costs2.len()
        && costs2[e.1 as int] is Some by {
        if e != (priority, ni as usize) {
            assert(fr1.contains(e));
        }
    }
    assert forall|i: int|
        0 <= i < n && #[trigger] costs2[i] is Some && i != current_index implies in_frontier(fr2, i)
        || expanded(graph, costs2, i) by {
        if i == ni {
            assert(fr2.contains((priority, ni as usize)));
        } else {
            assert(costs1[i] is Some);
            if in_frontier(fr1, i) {
                let e = choose|e: (u64, usize)| #[trigger] fr1.contains(e) && e.1 == i;
                assert(fr2.contains(e));
            } else {
                assert(expanded(graph, costs1, i));
                assert forall|nb: Point| #[trigger] graph.spec_neighboors(cell_of(i, w)).contains(nb)
                    && in_bounds(dims, nb.0 as int, nb.1 as int) && graph.spec_walkable(nb.0 as int, nb.1 as int)
                    implies costs2[index_of(nb, w)] is Some by {
                    assert(costs1[index_of(nb, w)] is Some);
                    lemma_index_of(nb, dims);
                }
            }
        }
    }
}

/// The estimate from the cell at `i` to `to`, floored at 0.
pub open spec fn estimate<G: Graph>(g: &G, i: int, to: Point) -> int {
    let h = g.spec_heuristic(cell_of(i, g.spec_dimensions().0 as int), to);
    if h >= 0 { h } else { 0 }
}

/// Each link records a step whose cost, added to the current cost of the predecessor, is
/// no more than the current cost of the linked cell.
pub open spec fn links_tight<G: Graph>(g: &G, costs: Seq<Option<u64>>, came_from: Seq<Option<usize>>) -> bool {
    let w = g.spec_dimensions().0 as int;
    forall|i: int|
        0 <= i < came_from.len() && #[trigger] came_from[i] is Some ==> {
            let u = came_from[i]->0 as int;
            &&& 0 <= u < costs.len()
            &&& costs[u] is Some
            &&& costs[i] is Some
            &&& costs[u]->0 + g.spec_cost_between(cell_of(u, w), cell_of(i, w)) <= costs[i]->0
        }
}

/// No entry of the frontier is below the current cost of its cell.
pub open spec fn entries_above(frontier: Multiset<(u64, usize)>, costs: Seq<Option<u64>>) -> bool {
    forall|e: (u64, usize)|
        #[trigger] frontier.contains(e) ==> (e.1 as int) < costs.len() && costs[e.1 as int] is Some
            && costs[e.1 as int]->0 <= e.0
}

/// Each walkable neighbour in bounds of the cell at `i` costs no more than the cell at `i`
/// plus the step.
pub open spec fn settled<G: Graph>(g: &G, costs: Seq<Option<u64>>, i: int) -> bool {
    let dims = g.spec_dimensions();
    let w = dims.0 as int;
    forall|nb: Point|
        #[trigger] g.spec_neighboors(cell_of(i, w)).contains(nb) && in_bounds(dims, nb.0 as int, nb.1 as int)
            && g.spec_walkable(nb.0 as int, nb.1 as int) ==> costs[index_of(nb, w)] is Some
            && costs[index_of(nb, w)]->0 <= costs[i]->0 + g.spec_cost_between(cell_of(i, w), nb)
}

/// The cell at `i` waits in the frontier with an entry no higher than its cost plus estimate.
pub open spec fn waiting<G: Graph>(
    g: &G,
    frontier: Multiset<(u64, usize)>,
    costs: Seq<Option<u64>>,
    i: int,
    to: Point,
) -> bool {
    exists|e: (u64, usize)|
        #[trigger] frontier.contains(e) && e.1 == i && e.0 <= costs[i]->0 + estimate(g, i, to)
}

/// Each cell with a cost, but `skip`, is settled or waits in the frontier.
pub open spec fn settled_or_waiting<G: Graph>(
    g: &G,
    costs: Seq<Option<u64>>,
    frontier: Multiset<(u64, usize)>,
    to: Point,
    skip: int,
) -> bool {
    forall|i: int|
        0 <= i < costs.len() && #[trigger] costs[i] is Some && i != skip ==> settled(g, costs, i)
            || waiting(g, frontier, costs, i, to)
}

/// Recording a cheaper step into the cell at `ni` keeps the costs tight along the links,
/// the entries above the costs, and every other cell settled or waiting.
proof fn lemma_improve_tight<G: Graph>(
    graph: &G,
    to: Point,
    current_index: int,
    cost_so_far: u64,
    ni: int,
    new_cost: u64,
    hval: u64,
    priority: u64,
    costs1: Seq<Option<u64>>,
    came1: Seq<Option<usize>>,
    fr1: Multiset<(u64, usize)>,
    costs2: Seq<Option<u64>>,
    came2: Seq<Option<usize>>,
    fr2: Multiset<(u64, usize)>,
)
    requires
        fits(graph.spec_dimensions()),
        costs1.len() == graph.spec_dimensions().0 * graph.spec_dimensions().1,
        came1.len() == costs1.len(),
        costs1.len() <= 0x7fff_ffff,
        0 <= current_index < costs1.len(),
        0 <= ni < costs1.len(),
        ni != current_index,
        costs1[current_index] == Some(cost_so_far),
        new_cost == cost_so_far + graph.spec_cost_between(
            cell_of(current_index, graph.spec_dimensions().0 as int),
            cell_of(ni, graph.spec_dimensions().0 as int),
        ),
        costs1[ni] is None || new_cost < costs1[ni]->0,
        hval == graph.spec_heuristic(cell_of(ni, graph.spec_dimensions().0 as int), to),
        new_cost <= priority <= new_cost + hval,
        links_tight(graph, costs1, came1),
        entries_above(fr1, costs1),
        settled_or_waiting(graph, costs1, fr1, to, current_index),
        costs2 == costs1.update(ni, Some(new_cost)),
        came2 == came1.update(ni, Some(current_index as usize)),
        fr2 == fr1.insert((priority, ni as usize)),
    ensures
        links_tight(graph, costs2, came2),
        entries_above(fr2, costs2),
        settled_or_waiting(graph, costs2, fr2, to, current_index),
        forall|i: int|
            0 <= i < costs1.len() && #[trigger] costs1[i] is Some ==> costs2[i] is Some && costs2[i]->0
                <= costs1[i]->0,
{
    let dims = graph.spec_dimensions();
    let w = dims.0 as int;
    assert forall|i: int| 0 <= i < came2.len() && #[trigger] came2[i] is Some implies {
        let u = came2[i]->0 as int;
        &&& 0 <= u < costs2.len()
        &&& costs2[u] is Some
        &&& costs2[i] is Some
        &&& costs2[u]->0 + graph.spec_cost_between(cell_of(u, w), cell_of(i, w)) <= costs2[i]->0
    } by {
        if i != ni {
            assert(came2[i] == came1[i]);
            let u = came1[i]->0 as int;
            assert(costs1[u] is Some);
            assert(costs2[i] == costs1[i]);
            if u == ni {
                assert(costs2[u]->0 <= costs1[u]->0);
            } else {
                assert(costs2[u] == costs1[u]);
            }
        } else {
            assert(came2[i] == Some(current_index as usize));
            assert(costs2[current_index] == costs1[current_index]);
        }
    }
    assert forall|e: (u64, usize)| #[trigger] fr2.contains(e) implies (e.1 as int) < costs2.len()
        && costs2[e.1 as int] is Some && costs2[e.1 as int]->0 <= e.0 by {
        if e != (priority, ni as usize) {
            assert(fr1.contains(e));
            if e.1 as int == ni {
                assert(costs1[ni] is Some);
            } else {
                assert(costs2[e.1 as int] == costs1[e.1 as int]);
            }
        }
    }
    assert forall|i: int|
        0 <= i < costs2.len() && #[trigger] costs2[i] is Some && i != current_index implies settled(
        graph,
        costs2,
        i,
    ) || waiting(graph, fr2, costs2, i, to) by {
        if i == ni {
            assert(fr2.contains((priority, ni as usize)));
        } else {
            assert(costs1[i] is Some);
            if waiting(graph, fr1, costs1, i, to) {
                let e = choose|e: (u64, usize)|
                    #[trigger] fr1.contains(e) && e.1 == i && e.0 <= costs1[i]->0 + estimate(graph, i, to);
                assert(fr2.contains(e));
            } else {
                assert(settled(graph, costs1, i));
                assert forall|nb: Point| #[trigger] graph.spec_neighboors(cell_of(i, w)).contains(nb)
                    && in_bounds(dims, nb.0 as int, nb.1 as int) && graph.spec_walkable(nb.0 as int, nb.1 as int)
                    implies costs2[index_of(nb, w)] is Some && costs2[index_of(nb, w)]->0 <= costs2[i]->0
                    + graph.spec_cost_between(cell_of(i, w), nb) by {
                    lemma_index_of(nb, dims);
                    assert(costs1[index_of(nb, w)] is Some);
                }
            }
        }
    }
}

/// Pushes onto the frontier every walkable neighbour of the cell at `current_index` whose
/// cost this step improves, and records the step.
fn expand<G: Graph>(
    graph: &G,
    current_index: usize,
    to: Point,
    width: i32,
    height: i32,
    neighboors: &mut Vec<Point>,
    frontier: &mut MinHeap,
    costs: &mut Vec<Option<u64>>,
    came_from: &mut Vec<Option<usize>>,
    Ghost(from_index): Ghost<int>,
    Ghost(big): Ghost<int>,
    Ghost(stamps0): Ghost<Seq<nat>>,
    Ghost(clock0): Ghost<nat>,
) -> (stamped: Ghost<(Seq<nat>, nat)>)
    requires
        fits(graph.spec_dimensions()),
        width == graph.spec_dimensions().0,
        height == graph.spec_dimensions().1,
        in_bounds(graph.spec_dimensions(), to.0 as int, to.1 as int),
        old(costs)@.len() == width * height,
        current_index < old(costs)@.len(),
        old(costs)@[current_index as int] is Some,
        links_ok(graph, from_index, old(costs)@, old(came_from)@, stamps0, clock0),
        costs_bounded(old(costs)@),
        old(frontier).wf(),
        frontier_costed(old(frontier)@.to_multiset(), old(costs)@),
        closed_but(graph, old(costs)@, old(frontier)@.to_multiset(), current_index as int),
        links_tight(graph, old(costs)@, old(came_from)@),
        entries_above(old(frontier)@.to_multiset(), old(costs)@),
        settled_or_waiting(graph, old(costs)@, old(frontier)@.to_multiset(), to, current_index as int),
        big == step_cost_max() * (width * height) + 1,
    ensures
        links_tight(graph, final(costs)@, final(came_from)@),
        entries_above(final(frontier)@.to_multiset(), final(costs)@),
        settled_or_waiting(graph, final(costs)@, final(frontier)@.to_multiset(), to, -1),
        forall|i: int|
            0 <= i < old(costs)@.len() && #[trigger] old(costs)@[i] is Some ==> final(costs)@[i]->0 <= old(
                costs,
            )@[i]->0,
        final(costs)@.len() == old(costs)@.len(),
        links_ok(graph, from_index, final(costs)@, final(came_from)@, stamped@.0, stamped@.1),
        costs_bounded(final(costs)@),
        final(frontier).wf(),
        frontier_costed(final(frontier)@.to_multiset(), final(costs)@),
        closed_but(graph, final(costs)@, final(frontier)@.to_multiset(), -1),
        forall|i: int| 0 <= i < old(costs)@.len() && #[trigger] old(costs)@[i] is Some ==> final(costs)@[i] is Some,
        potential(final(costs)@, big) <= potential(old(costs)@, big),
        potential(final(costs)@, big) < potential(old(costs)@, big) || final(frontier)@.len() == old(
            frontier,
        )@.len(),
{
    let ghost dims = graph.spec_dimensions();
    let ghost w = width as int;
    let ghost n = costs@.len();
    let ghost costs0 = costs@;
    let ghost fr0 = frontier@;
    let ghost mut stamps = stamps0;
    let ghost mut clock = clock0;
    proof {
        lemma_cell_of(current_index as int, dims);
        lemma_count_bound(costs@);
        assert(step_cost_max() * count_some(costs@) <= step_cost_max() * 0x7fff_ffff) by (nonlinear_arith)
            requires count_some(costs@) <= n, n <= 0x7fff_ffff;
    }
    let current = index_to_point(current_index, width);
    let cost_so_far: u64 = match costs[current_index] {
        Some(c) => c,
        None => 0,
    };
    neighboors.clear();
    graph.neighboors(current, neighboors);
    assert(neighboors@ =~= graph.spec_neighboors(current));
    let mut k: usize = 0;
    while k < neighboors.len()
        invariant
            fits(dims),
            dims == graph.spec_dimensions(),
            width == dims.0,
            height == dims.1,
            w == width as int,
            n == w * dims.1,
            in_bounds(dims, to.0 as int, to.1 as int),
            in_bounds(dims, current.0 as int, current.1 as int),
            current == cell_of(current_index as int, w),
            index_of(current, w) == current_index,
            costs@.len() == n,
            current_index < n,
            costs@[current_index as int] == Some(cost_so_far),
            cost_so_far <= step_cost_max() * 0x7fff_ffff,
            neighboors@ == graph.spec_neighboors(current),
            big == step_cost_max() * n + 1,
            links_ok(graph, from_index, costs@, came_from@, stamps, clock),
            costs_bounded(costs@),
            frontier.wf(),
            frontier_costed(frontier@.to_multiset(), costs@),
            closed_but(graph, costs@, frontier@.to_multiset(), current_index as int),
            links_tight(graph, costs@, came_from@),
            entries_above(frontier@.to_multiset(), costs@),
            settled_or_waiting(graph, costs@, frontier@.to_multiset(), to, current_index as int),
            forall|i: int| 0 <= i < n && #[trigger] costs0[i] is Some ==> costs@[i] is Some && costs@[i]->0
                <= costs0[i]->0,
            forall|e: (u64, usize)| #[trigger] fr0.to_multiset().contains(e) ==> frontier@.to_multiset().contains(e),
            potential(costs@, big) <= potential(costs0, big),
            potential(costs@, big) < potential(costs0, big) || frontier@.len() == fr0.len(),
            0 <= k <= neighboors@.len(),
            forall|j: int|
                0 <= j < k ==> {
                    let nb = #[trigger] neighboors@[j];
                    in_bounds(dims, nb.0 as int, nb.1 as int) && graph.spec_walkable(nb.0 as int, nb.1 as int)
                        ==> costs@[index_of(nb, w)] is Some && costs@[index_of(nb, w)]->0 <= cost_so_far
                        + graph.spec_cost_between(current, nb)
                },
        decreases neighboors@.len() - k,
    {
        let (x, y) = neighboors[k];
        if x >= 0 && y >= 0 && x < width && y < height && graph.is_walkable(x, y) {
            let next: Point = (x, y);
            proof {
                lemma_index_of(next, dims);
                assert(dims.0 * dims.1 <= 0x7fff_ffff);
            }
            let next_index = point_to_index(next, width);
            let step = graph.cost_between(current, next);
            let new_cost: u64 = cost_so_far + step as u64;
            let better = match costs[next_index] {
                None => true,
                Some(c) => new_cost < c,
            };
            if better {
                let hval = graph.heuristic(next, to);
                let priority = new_cost.saturating_add(hval);
                let ghost costs1 = costs@;
                let ghost came1 = came_from@;
                let ghost fr1 = frontier@;
                frontier.push((priority, next_index));
                came_from.set(next_index, Some(current_index));
                costs.set(next_index, Some(new_cost));
                proof {
                    let ni = next_index as int;
                    assert(graph.spec_neighboors(current).contains(next)) by {
                        assert(neighboors@[k as int] == next);
                    }
                    lemma_index_of(next, dims);
                    lemma_improve(
                        graph, from_index, current_index as int, cost_so_far, ni, new_cost, priority, big,
                        costs1, came1, fr1.to_multiset(), costs@, came_from@, frontier@.to_multiset(),
                        stamps, clock,
                    );
                    stamps = stamps.update(ni, clock);
                    clock = clock + 1;
                    lemma_improve_tight(
                        graph, to, current_index as int, cost_so_far, ni, new_cost, hval, priority,
                        costs1, came1, fr1.to_multiset(), costs@, came_from@, frontier@.to_multiset(),
                    );
                    assert forall|e: (u64, usize)| #[trigger] fr0.to_multiset().contains(e) implies frontier@.to_multiset().contains(e) by {
                        assert(fr1.to_multiset().contains(e));
                    }
                    assert forall|i: int| 0 <= i < n && #[trigger] costs0[i] is Some implies costs@[i] is Some
                        && costs@[i]->0 <= costs0[i]->0 by {
                        assert(costs1[i] is Some);
                    }
                    assert forall|j: int| 0 <= j < k + 1 implies {
                        let nb = #[trigger] neighboors@[j];
                        in_bounds(dims, nb.0 as int, nb.1 as int) && graph.spec_walkable(nb.0 as int, nb.1 as int)
                            ==> costs@[index_of(nb, w)] is Some && costs@[index_of(nb, w)]->0 <= cost_so_far
                            + graph.spec_cost_between(current, nb)
                    } by {
                        let nb = neighboors@[j];
                        if in_bounds(dims, nb.0 as int, nb.1 as int) && graph.spec_walkable(nb.0 as int, nb.1 as int) {
                            lemma_index_of(nb, dims);
                            if j < k {
                                assert(costs1[index_of(nb, w)] is Some);
                            }
                        }
                    }
                }
            } else {
                proof {
                    assert(neighboors@[k as int] == next);
                    lemma_index_of(next, dims);
                }
            }
        }
        k = k + 1;
    }
    proof {
        assert forall|i: int|
            0 <= i < n && #[trigger] costs@[i] is Some && i != -1 implies settled(graph, costs@, i)
            || waiting(graph, frontier@.to_multiset(), costs@, i, to) by {
            if i == current_index as int {
                assert forall|nb: Point| #[trigger] graph.spec_neighboors(cell_of(i, w)).contains(nb)
                    && in_bounds(dims, nb.0 as int, nb.1 as int) && graph.spec_walkable(nb.0 as int, nb.1 as int)
                    implies costs@[index_of(nb, w)] is Some && costs@[index_of(nb, w)]->0 <= costs@[i]->0
                    + graph.spec_cost_between(cell_of(i, w), nb) by {
                    let j = choose|j: int| 0 <= j < neighboors@.len() && neighboors@[j] == nb;
                    assert(neighboors@[j] == nb);
                }
            }
        }
        assert forall|i: int|
            0 <= i < n && #[trigger] costs@[i] is Some && i != -1 implies in_frontier(frontier@.to_multiset(), i)
            || expanded(graph, costs@, i) by {
            if i == current_index as int {
                assert forall|nb: Point| #[trigger] graph.spec_neighboors(cell_of(i, w)).contains(nb)
                    && in_bounds(dims, nb.0 as int, nb.1 as int) && graph.spec_walkable(nb.0 as int, nb.1 as int)
                    implies costs@[index_of(nb, w)] is Some by {
                    let j = choose|j: int| 0 <= j < neighboors@.len() && neighboors@[j] == nb;
                    assert(neighboors@[j] == nb);
                }
            }
        }
    }
    Ghost((stamps, clock))
}

/// When every cell with a cost had its neighbours reached, every path from the origin
/// stays among the cells with a cost.
proof fn lemma_closed_reaches<G: Graph>(
    graph: &G,
    costs: Seq<Option<u64>>,
    from: Point,
    to: Point,
    p: Seq<Point>,
    k: int,
)
    requires
        fits(graph.spec_dimensions()),
        costs.len() == graph.spec_dimensions().0 * graph.spec_dimensions().1,
        in_bounds(graph.spec_dimensions(), from.0 as int, from.1 as int),
        costs[index_of(from, graph.spec_dimensions().0 as int)] is Some,
        forall|i: int| 0 <= i < costs.len() && #[trigger] costs[i] is Some ==> expanded(graph, costs, i),
        is_path(graph, from, to, p),
        0 <= k < p.len(),
    ensures
        in_bounds(graph.spec_dimensions(), p[k].0 as int, p[k].1 as int),
        costs[index_of(p[k], graph.spec_dimensions().0 as int)] is Some,
    decreases k,
{
    let dims = graph.spec_dimensions();
    let w = dims.0 as int;
    if k > 0 {
        lemma_closed_reaches(graph, costs, from, to, p, k - 1);
        let i = index_of(p[k - 1], w);
        lemma_index_of(p[k - 1], dims);
        assert(is_step(graph, p[k - 1], p[k]));
        assert(expanded(graph, costs, i));
        assert(graph.spec_neighboors(cell_of(i, w)).contains(p[k]));
    }
}

/// A path from `from` to `to` over `graph`, both included, or `None` when `to` cannot be
/// reached.
///
/// Each step goes to a walkable neighbour that the graph offers, and no cell repeats. The
/// search is A*: the frontier hands out the lowest `cost + heuristic` first, and the search stops
/// as soon as it hands out `to`. With an admissible heuristic no path is cheaper than the one
/// returned.
#[verifier::rlimit(100)]
pub fn astar_path<G: Graph>(graph: &G, from: Point, to: Point) -> (r: Option<Vec<Point>>)
    requires
        fits(graph.spec_dimensions()),
        in_bounds(graph.spec_dimensions(), from.0 as int, from.1 as int),
        in_bounds(graph.spec_dimensions(), to.0 as int, to.1 as int),
    ensures
        r is Some ==> is_path(graph, from, to, r->0@),
        r is None <==> !(exists|p: Seq<Point>| is_path(graph, from, to, p)),
        r is Some ==> r->0@.no_duplicates(),
        from == to ==> r is Some && r->0@ == seq![from],
        admissible(graph, to) && r is Some ==> forall|q: Seq<Point>|
            #[trigger] is_path(graph, from, to, q) ==> path_cost(graph, r->0@) <= path_cost(graph, q),
{
    broadcast use vstd::seq_lib::group_to_multiset_ensures;

    let ghost dims = graph.spec_dimensions();
    let (width, height) = graph.dimensions();
    let n = (width * height) as usize;
    proof {
        lemma_index_of(from, dims);
        lemma_index_of(to, dims);
    }
    let from_index = point_to_index(from, width);
    let to_index = point_to_index(to, width);
    let ghost big = step_cost_max() * n + 1;
    assert(big >= 1) by (nonlinear_arith)
        requires big == step_cost_max() * n + 1, n >= 0;
    let mut came_from: Vec<Option<usize>> = Vec::new();
    let mut costs: Vec<Option<u64>> = Vec::new();
    while costs.len() < n
        invariant
            costs@.len() == came_from@.len(),
            costs@.len() <= n,
            forall|i: int| 0 <= i < costs@.len() ==> #[trigger] costs@[i] is None && came_from@[i] is None,
        decreases n - costs@.len(),
    {
        costs.push(None);
        came_from.push(None);
    }
    costs.set(from_index, Some(0));
    let mut frontier = MinHeap::with_capacity(rough_capacity(from, to));
    frontier.push((0, from_index));
    let mut neighboors: Vec<Point> = Vec::new();
    let ghost mut stamps: Seq<nat> = Seq::new(n as nat, |i: int| 0nat);
    let ghost mut clock: nat = 1;
    proof {
        assert(frontier@.to_multiset().contains((0u64, from_index)));
        assert forall|i: int| 0 <= i < n && #[trigger] costs@[i] is Some implies costs@[i]->0
            <= step_cost_max() * count_some(costs@) by {}
        assert forall|e: (u64, usize)| #[trigger] frontier@.to_multiset().contains(e) implies (e.1 as int)
            < costs@.len() && costs@[e.1 as int] is Some by {
            assert(Seq::<(u64, usize)>::empty().to_multiset() =~= Multiset::empty());
        }
        assert forall|i: int| 0 <= i < n && #[trigger] costs@[i] is Some && i != -1 implies in_frontier(
            frontier@.to_multiset(),
            i,
        ) || expanded(graph, costs@, i) by {
            assert(i == from_index);
            assert(frontier@.to_multiset().contains((0u64, from_index)));
        }
        assert forall|e: (u64, usize)| #[trigger] frontier@.to_multiset().contains(e) implies (e.1 as int)
            < costs@.len() && costs@[e.1 as int] is Some && costs@[e.1 as int]->0 <= e.0 by {
            assert(Seq::<(u64, usize)>::empty().to_multiset() =~= Multiset::empty());
        }
        assert forall|i: int| 0 <= i < n && #[trigger] costs@[i] is Some && i != -1 implies settled(
            graph,
            costs@,
            i,
        ) || waiting(graph, frontier@.to_multiset(), costs@, i, to) by {
            assert(i == from_index);
            assert(frontier@.to_multiset().contains((0u64, from_index)));
        }
    }
    loop
        invariant_except_break
            closed_but(graph, costs@, frontier@.to_multiset(), -1),
            settled_or_waiting(graph, costs@, frontier@.to_multiset(), to, -1),
        invariant
            fits(dims),
            dims == graph.spec_dimensions(),
            width == dims.0,
            height == dims.1,
            n == width * height,
            in_bounds(dims, to.0 as int, to.1 as int),
            from_index == index_of(from, width as int),
            to_index == index_of(to, width as int),
            from_index < n,
            to_index < n,
            costs@.len() == n,
            big == step_cost_max() * n + 1,
            big >= 1,
            links_ok(graph, from_index as int, costs@, came_from@, stamps, clock),
            costs_bounded(costs@),
            frontier.wf(),
            frontier_costed(frontier@.to_multiset(), costs@),
            links_tight(graph, costs@, came_from@),
            entries_above(frontier@.to_multiset(), costs@),
            in_bounds(dims, from.0 as int, from.1 as int),
        ensures
            (frontier@.len() == 0 && closed_but(graph, costs@, frontier@.to_multiset(), -1))
                || costs@[to_index as int] is Some,
            admissible(graph, to) ==> forall|q: Seq<Point>|
                #[trigger] is_path(graph, from, to, q) ==> costs@[to_index as int] is Some
                    && costs@[to_index as int]->0 <= path_cost(graph, q),
        decreases potential(costs@, big), frontier@.len(),
    {
        proof {
            lemma_potential_nonneg(costs@, big);
        }
        let ghost fr = frontier@;
        match frontier.pop() {
            None => {
                proof {
                    if admissible(graph, to) {
                        assert forall|q: Seq<Point>| #[trigger] is_path(graph, from, to, q) implies costs@[to_index as int]
                            is Some && costs@[to_index as int]->0 <= path_cost(graph, q) by {
                            lemma_path_meets(graph, costs@, fr.to_multiset(), from, to, q, q.len() - 1);
                            assert(fr =~= Seq::<(u64, usize)>::empty());
                            if exists|e: (u64, usize)| #[trigger] fr.to_multiset().contains(e) && e.0 <= path_cost(graph, q) {
                                let e = choose|e: (u64, usize)| #[trigger] fr.to_multiset().contains(e) && e.0 <= path_cost(graph, q);
                                vstd::seq_lib::to_multiset_contains(fr, e);
                            }
                            assert(q.take(q.len() as int) =~= q);
                        }
                    }
                }
                break;
            },
            Some((priority, current_index)) => {
                proof {
                    lemma_after_pop(
                        graph, costs@, fr, frontier@, (priority, current_index), from, to, to_index as int,
                    );
                }
                if current_index == to_index {
                    break;
                }
                let stamped = expand(
                    graph,
                    current_index,
                    to,
                    width,
                    height,
                    &mut neighboors,
                    &mut frontier,
                    &mut costs,
                    &mut came_from,
                    Ghost(from_index as int),
                    Ghost(big),
                    Ghost(stamps),
                    Ghost(clock),
                );
                proof {
                    stamps = stamped@.0;
                    clock = stamped@.1;
                    lemma_potential_nonneg(costs@, big);
                }
            },
        }
    }
    let ghost rank = cost_rank(costs@, stamps, clock);
    proof {
        lemma_chain_from_costs(graph, from_index as int, costs@, came_from@, stamps, clock, to_index as int);
        assert(links_are_steps(graph, came_from@));
    }
    let r = reconstruct_path(graph, from, to, &came_from, width, Ghost(rank));
    proof {
        if admissible(graph, to) && r is Some {
            let p = r->0@;
            lemma_chain_cost(graph, costs@, came_from@, from, p, p.len() - 1);
            assert(p.take(p.len() as int) =~= p);
        }
        if r is None {

            assert(costs@[to_index as int] is None);
            assert(to_index != from_index);
            if exists|p: Seq<Point>| is_path(graph, from, to, p) {
                let p = choose|p: Seq<Point>| is_path(graph, from, to, p);
                assert forall|i: int| 0 <= i < costs@.len() && #[trigger] costs@[i] is Some implies expanded(
                    graph,
                    costs@,
                    i,
                ) by {
                    assert(!in_frontier(frontier@.to_multiset(), i)) by {
                        assert(frontier@ =~= Seq::<(u64, usize)>::empty());
                        assert(frontier@.to_multiset() =~= Multiset::empty());
                    }
                }
                lemma_closed_reaches(graph, costs@, from, to, p, p.len() - 1);
            }
        }
    }
    r
}

/// The sum of the step costs along `p`.
pub open spec fn path_cost<G: Graph>(g: &G, p: Seq<Point>) -> int
    decreases p.len(),
{
    if p.len() <= 1 {
        0
    } else {
        path_cost(g, p.drop_last()) + g.spec_cost_between(p[p.len() - 2], p.last())
    }
}

/// The heuristic towards `to` is never negative and never exceeds the cost of a path to `to`.
pub open spec fn admissible<G: Graph>(g: &G, to: Point) -> bool {
    forall|v: Point, q: Seq<Point>|
        #[trigger] is_path(g, v, to, q) && in_bounds(g.spec_dimensions(), v.0 as int, v.1 as int) ==> 0
            <= g.spec_heuristic(v, to) <= path_cost(g, q)
}

proof fn lemma_path_cost_split<G: Graph>(g: &G, q: Seq<Point>, j: int)
    requires
        0 <= j < q.len(),
    ensures
        path_cost(g, q) == path_cost(g, q.take(j + 1)) + path_cost(g, q.skip(j)),
    decreases q.len(),
{
    if j == q.len() - 1 {
        assert(q.take(j + 1) =~= q);
        assert(q.skip(j).len() == 1);
    } else {
        let d = q.drop_last();
        lemma_path_cost_split(g, d, j);
        assert(d.take(j + 1) =~= q.take(j + 1));
        assert(q.skip(j).drop_last() =~= d.skip(j));
        assert(q.skip(j)[q.skip(j).len() - 2] == q[q.len() - 2]);
    }
}

/// Along any path from the origin, either some entry of the frontier is no higher than the
/// path's cost, or the `k`-th cell already costs no more than the path up to it.
proof fn lemma_path_meets<G: Graph>(
    g: &G,
    costs: Seq<Option<u64>>,
    fr: Multiset<(u64, usize)>,
    from: Point,
    to: Point,
    q: Seq<Point>,
    k: int,
)
    requires
        fits(g.spec_dimensions()),
        costs.len() == g.spec_dimensions().0 * g.spec_dimensions().1,
        in_bounds(g.spec_dimensions(), from.0 as int, from.1 as int),
        costs[index_of(from, g.spec_dimensions().0 as int)] == Some(0u64),
        settled_or_waiting(g, costs, fr, to, -1),
        admissible(g, to),
        is_path(g, from, to, q),
        0 <= k < q.len(),
    ensures
        (exists|e: (u64, usize)| #[trigger] fr.contains(e) && e.0 <= path_cost(g, q)) || (costs[index_of(
            q[k],
            g.spec_dimensions().0 as int,
        )] is Some && costs[index_of(q[k], g.spec_dimensions().0 as int)]->0 <= path_cost(g, q.take(k + 1))),
    decreases k,
{
    let dims = g.spec_dimensions();
    let w = dims.0 as int;
    if k == 0 {
        assert(q.take(1).len() == 1);
    } else {
        lemma_path_meets(g, costs, fr, from, to, q, k - 1);
        if !(exists|e: (u64, usize)| #[trigger] fr.contains(e) && e.0 <= path_cost(g, q)) {
            let a = q[k - 1];
            let v = index_of(a, w);
            if k - 1 > 0 {
                let i = k - 1;
                assert(is_step(g, q[i - 1], q[i]));
            }
            lemma_index_of(a, dims);
            assert(is_step(g, q[k - 1], q[k]));
            lemma_index_of(q[k], dims);
            assert(q.take(k + 1).drop_last() =~= q.take(k));
            assert(q.take(k + 1)[k - 1] == a);
            assert(path_cost(g, q.take(k + 1)) == path_cost(g, q.take(k)) + g.spec_cost_between(a, q[k]));
            assert(costs[v] is Some);
            if !settled(g, costs, v) {
                assert(waiting(g, fr, costs, v, to));
                let e = choose|e: (u64, usize)|
                    #[trigger] fr.contains(e) && e.1 == v && e.0 <= costs[v]->0 + estimate(g, v, to);
                lemma_path_cost_split(g, q, k - 1);
                let sfx = q.skip(k - 1);
                assert forall|i: int| 1 <= i < sfx.len() implies #[trigger] is_step(g, sfx[i - 1], sfx[i]) by {
                    assert(is_step(g, q[k - 1 + i - 1], q[k - 1 + i]));
                }
                assert(is_path(g, a, to, sfx));
                assert(q.take(k) =~= q.take(k - 1 + 1));
                assert(fr.contains(e) && e.0 <= path_cost(g, q));
            }
        }
    }
}

/// Following the links back from the `k`-th cell of `p` costs no more than that cell's cost.
proof fn lemma_chain_cost<G: Graph>(
    g: &G,
    costs: Seq<Option<u64>>,
    came_from: Seq<Option<usize>>,
    from: Point,
    p: Seq<Point>,
    k: int,
)
    requires
        fits(g.spec_dimensions()),
        costs.len() == g.spec_dimensions().0 * g.spec_dimensions().1,
        came_from.len() == costs.len(),
        links_tight(g, costs, came_from),
        costs[index_of(from, g.spec_dimensions().0 as int)] == Some(0u64),
        is_path(g, from, p.last(), p),
        in_bounds(g.spec_dimensions(), from.0 as int, from.1 as int),
        forall|i: int|
            1 <= i < p.len() ==> came_from[index_of(#[trigger] p[i], g.spec_dimensions().0 as int)] == Some(
                index_of(p[i - 1], g.spec_dimensions().0 as int) as usize,
            ),
        0 <= k < p.len(),
    ensures
        costs[index_of(p[k], g.spec_dimensions().0 as int)] is Some,
        path_cost(g, p.take(k + 1)) <= costs[index_of(p[k], g.spec_dimensions().0 as int)]->0,
    decreases k,
{
    let dims = g.spec_dimensions();
    let w = dims.0 as int;
    if k == 0 {
        assert(p.take(1).len() == 1);
    } else {
        lemma_chain_cost(g, costs, came_from, from, p, k - 1);
        if k - 1 > 0 {
            let i = k - 1;
            assert(is_step(g, p[i - 1], p[i]));
        }
        assert(is_step(g, p[k - 1], p[k]));
        lemma_index_of(p[k - 1], dims);
        lemma_index_of(p[k], dims);
        assert(came_from[index_of(p[k], w)] == Some(index_of(p[k - 1], w) as usize));
        assert(p.take(k + 1).drop_last() =~= p.take(k));
        assert(p.take(k + 1)[k - 1] == p[k - 1]);
    }
}

/// Taking an entry of lowest priority out of the frontier leaves every other cell as it was;
/// when the entry is the destination's, no path to it is cheaper than its cost.
proof fn lemma_after_pop<G: Graph>(
    graph: &G,
    costs: Seq<Option<u64>>,
    fr: Seq<(u64, usize)>,
    rest: Seq<(u64, usize)>,
    e0: (u64, usize),
    from: Point,
    to: Point,
    to_index: int,
)
    requires
        fits(graph.spec_dimensions()),
        costs.len() == graph.spec_dimensions().0 * graph.spec_dimensions().1,
        in_bounds(graph.spec_dimensions(), from.0 as int, from.1 as int),
        costs[index_of(from, graph.spec_dimensions().0 as int)] == Some(0u64),
        to_index == index_of(to, graph.spec_dimensions().0 as int),
        fr.to_multiset() =~= rest.to_multiset().insert(e0),
        forall|i: int| 0 <= i < fr.len() ==> e0.0 <= #[trigger] fr[i].0,
        frontier_costed(fr.to_multiset(), costs),
        entries_above(fr.to_multiset(), costs),
        closed_but(graph, costs, fr.to_multiset(), -1),
        settled_or_waiting(graph, costs, fr.to_multiset(), to, -1),
    ensures
        (e0.1 as int) < costs.len(),
        costs[e0.1 as int] is Some,
        frontier_costed(rest.to_multiset(), costs),
        entries_above(rest.to_multiset(), costs),
        closed_but(graph, costs, rest.to_multiset(), e0.1 as int),
        settled_or_waiting(graph, costs, rest.to_multiset(), to, e0.1 as int),
        e0.1 as int == to_index && admissible(graph, to) ==> forall|q: Seq<Point>|
            #[trigger] is_path(graph, from, to, q) ==> costs[to_index] is Some && costs[to_index]->0
                <= path_cost(graph, q),
{
    broadcast use vstd::seq_lib::group_to_multiset_ensures;

    let old_ms = fr.to_multiset();
    let new_ms = rest.to_multiset();
    let n = costs.len();
    assert(old_ms.contains(e0));
    assert forall|e: (u64, usize)| #[trigger] new_ms.contains(e) implies (e.1 as int) < costs.len()
        && costs[e.1 as int] is Some by {
        assert(old_ms.contains(e));
    }
    assert forall|e: (u64, usize)| #[trigger] new_ms.contains(e) implies (e.1 as int) < costs.len()
        && costs[e.1 as int] is Some && costs[e.1 as int]->0 <= e.0 by {
        assert(old_ms.contains(e));
    }
    assert forall|i: int|
        0 <= i < n && #[trigger] costs[i] is Some && i != e0.1 as int implies in_frontier(new_ms, i)
        || expanded(graph, costs, i) by {
        if in_frontier(old_ms, i) {
            let e = choose|e: (u64, usize)| #[trigger] old_ms.contains(e) && e.1 == i;
            assert(e != e0);
            assert(new_ms.contains(e));
        }
    }
    assert forall|i: int|
        0 <= i < n && #[trigger] costs[i] is Some && i != e0.1 as int implies settled(graph, costs, i)
        || waiting(graph, new_ms, costs, i, to) by {
        if waiting(graph, old_ms, costs, i, to) {
            let e = choose|e: (u64, usize)|
                #[trigger] old_ms.contains(e) && e.1 == i && e.0 <= costs[i]->0 + estimate(graph, i, to);
            assert(e != e0);
            assert(new_ms.contains(e));
        }
    }
    if e0.1 as int == to_index && admissible(graph, to) {
        assert forall|q: Seq<Point>| #[trigger] is_path(graph, from, to, q) implies costs[to_index] is Some
            && costs[to_index]->0 <= path_cost(graph, q) by {
            lemma_path_meets(graph, costs, old_ms, from, to, q, q.len() - 1);
            assert(q.take(q.len() as int) =~= q);
            if exists|e: (u64, usize)| #[trigger] old_ms.contains(e) && e.0 <= path_cost(graph, q) {
                let e = choose|e: (u64, usize)| #[trigger] old_ms.contains(e) && e.0 <= path_cost(graph, q);
                vstd::seq_lib::to_multiset_contains(fr, e);
                let j = choose|j: int| 0 <= j < fr.len() && fr[j] == e;
                assert(e0.0 <= fr[j].0);
            }
        }
    }
}

/// On the four-way graph of any grid, the Manhattan estimate never exceeds the cost of a path.
pub proof fn lemma_four_way_admissible<T: PathMap>(map: &T, to: Point)
    ensures
        admissible(&(FourWayGridGraph { map }), to),
{
    let g = FourWayGridGraph { map };
    assert forall|v: Point, q: Seq<Point>|
        #[trigger] is_path(&g, v, to, q) && in_bounds(g.spec_dimensions(), v.0 as int, v.1 as int) implies 0
        <= g.spec_heuristic(v, to) <= path_cost(&g, q) by {
        lemma_four_way_path_cost(map, v, to, q);
    }
}

proof fn lemma_four_way_path_cost<T: PathMap>(map: &T, v: Point, to: Point, q: Seq<Point>)
    requires
        is_path(&(FourWayGridGraph { map }), v, to, q),
        in_bounds(map.spec_dimensions(), v.0 as int, v.1 as int),
    ensures
        0 <= manhattan_cost(v, to) <= path_cost(&(FourWayGridGraph { map }), q),
    decreases q.len(),
{
    let g = FourWayGridGraph { map };
    if q.len() > 1 {
        let sfx = q.skip(1);
        let one = 1int;
        assert(is_step(&g, q[one - 1], q[one]));
        assert forall|i: int| 1 <= i < sfx.len() implies #[trigger] is_step(&g, sfx[i - 1], sfx[i]) by {
            assert(is_step(&g, q[1 + i - 1], q[1 + i]));
        }
        assert(is_path(&g, q[1], to, sfx));
        lemma_four_way_path_cost(map, q[1], to, sfx);
        lemma_path_cost_split(&g, q, 1);
        assert(q.take(2).drop_last() =~= q.take(1));
        assert(q.take(1).len() == 1);
        assert(q.take(2)[0] == q[0] && q.take(2)[1] == q[1]);
        assert(path_cost(&g, q.take(1)) == 0);
        assert(g.spec_cost_between(q[0], q[1]) == four_way_cost(q[0], q[1]));
        assert(path_cost(&g, q.take(2)) == path_cost(&g, q.take(2).drop_last()) + g.spec_cost_between(
            q.take(2)[0],
            q.take(2)[1],
        ));
        let k = choose|k: int| 0 <= k < four_way(v).len() && four_way(v)[k] == q[1];
        lemma_manhattan_consistent(v, to, k);
    }
}

/// On the four-way graph each step costs 1000 or 1001.
proof fn lemma_four_way_cost_bounds<T: PathMap>(map: &T, p: Seq<Point>)
    requires
        p.len() >= 1,
    ensures
        1000 * (p.len() - 1) <= path_cost(&(FourWayGridGraph { map }), p) <= 1001 * (p.len() - 1),
    decreases p.len(),
{
    let g = FourWayGridGraph { map };
    if p.len() > 1 {
        lemma_four_way_cost_bounds(map, p.drop_last());
        assert(g.spec_cost_between(p[p.len() - 2], p.last()) == four_way_cost(p[p.len() - 2], p.last()));
    }
}

/// A path from a walkable origin walks on walkable cells only.
pub proof fn lemma_path_walkable<G: Graph>(g: &G, from: Point, to: Point, p: Seq<Point>)
    requires
        is_path(g, from, to, p),
        g.spec_walkable(from.0 as int, from.1 as int),
    ensures
        forall|i: int| 0 <= i < p.len() ==> g.spec_walkable(#[trigger] p[i].0 as int, p[i].1 as int),
{
    assert forall|i: int| 0 <= i < p.len() implies g.spec_walkable(#[trigger] p[i].0 as int, p[i].1 as int) by {
        if i > 0 {
            assert(is_step(g, p[i - 1], p[i]));
        }
    }
}

/// A grid whose cells a path may go through or not.
pub trait PathMap {
    /// `(width, height)` of the grid.
    spec fn spec_dimensions(&self) -> (i32, i32);

    /// Whether a path may go through the cell `(x, y)`.
    spec fn spec_walkable(&self, x: int, y: int) -> bool;

    fn dimensions(&self) -> (r: (i32, i32))
        ensures
            r == self.spec_dimensions(),
    ;

    fn is_walkable(&self, x: i32, y: i32) -> (r: bool)
        requires
            in_bounds(self.spec_dimensions(), x as int, y as int),
        ensures
            r == self.spec_walkable(x as int, y as int),
    ;
}

/// The four cells next to `a`: south, north, west, east (y grows southwards).
pub open spec fn four_way(a: Point) -> Seq<Point> {
    seq![(a.0, (a.1 + 1) as i32), (a.0, (a.1 - 1) as i32), ((a.0 - 1) as i32, a.1), ((a.0 + 1) as i32, a.1)]
}

/// A step of the four-way graph costs 1000, plus 1 when it leaves a cell with `x + y` even
/// along x, or with `x + y` odd along y.
pub open spec fn four_way_cost(a: Point, b: Point) -> int {
    let parity = (a.0 + a.1) % 2;
    1000 + if (parity == 0 && b.0 != a.0) || (parity == 1 && b.1 != a.1) { 1int } else { 0int }
}

/// The Manhattan distance from `a` to `b`, in thousandths of a step.
pub open spec fn manhattan_cost(a: Point, b: Point) -> int {
    let dx = if a.0 >= b.0 { a.0 - b.0 } else { b.0 - a.0 };
    let dy = if a.1 >= b.1 { a.1 - b.1 } else { b.1 - a.1 };
    1000 * (dx + dy)
}

/// The Manhattan estimate never exceeds one four-way step plus the estimate from where the
/// step lands: it is consistent, and so never overestimates the cost of a path.
pub proof fn lemma_manhattan_consistent(a: Point, b: Point, k: int)
    requires
        0 <= k < 4,
        i32::MIN < a.0 < i32::MAX,
        i32::MIN < a.1 < i32::MAX,
    ensures
        manhattan_cost(a, b) <= four_way_cost(a, four_way(a)[k]) + manhattan_cost(four_way(a)[k], b),
{
}

/// The graph of a grid where a step goes north, east, south or west, never diagonally.
///
/// Costs are in thousandths of a step: a step costs 1000, plus 1 when it leaves a cell with
/// `x + y` even along x, or with `x + y` odd along y. That nudge breaks ties between paths
/// of equal length in favour of straight-looking ones. The heuristic is the Manhattan distance,
/// in the same unit.
pub struct FourWayGridGraph<'a, T: PathMap> {
    pub map: &'a T,
}

impl<'a, T: PathMap> FourWayGridGraph<'a, T> {
    pub fn new(map: &'a T) -> (r: Self)
        ensures
            r.map == map,
    {
        FourWayGridGraph { map }
    }
}

impl<'a, T: PathMap> Graph for FourWayGridGraph<'a, T> {
    open spec fn spec_dimensions(&self) -> (i32, i32) {
        self.map.spec_dimensions()
    }

    open spec fn spec_walkable(&self, x: int, y: int) -> bool {
        self.map.spec_walkable(x, y)
    }

    open spec fn spec_neighboors(&self, a: Point) -> Seq<Point> {
        four_way(a)
    }

    open spec fn spec_cost_between(&self, a: Point, b: Point) -> int {
        four_way_cost(a, b)
    }

    open spec fn spec_heuristic(&self, a: Point, b: Point) -> int {
        manhattan_cost(a, b)
    }

    fn dimensions(&self) -> (r: (i32, i32)) {
        self.map.dimensions()
    }

    fn is_walkable(&self, x: i32, y: i32) -> (r: bool) {
        self.map.is_walkable(x, y)
    }

    fn cost_between(&self, a: Point, b: Point) -> (r: u32) {
        let (x1, y1) = a;
        let (x2, y2) = b;
        let parity = (x1 as i64 + y1 as i64) % 2;
        let nudge: u32 = if (parity == 0 && x2 != x1) || (parity == 1 && y2 != y1) {
            1
        } else {
            0
        };
        1000 + nudge
    }

    fn heuristic(&self, a: Point, b: Point) -> (r: u64) {
        let (xa, ya) = a;
        let (xb, yb) = b;
        let dx: i64 = if xa >= xb { xa as i64 - xb as i64 } else { xb as i64 - xa as i64 };
        let dy: i64 = if ya >= yb { ya as i64 - yb as i64 } else { yb as i64 - ya as i64 };
        (dx + dy) as u64 * 1000
    }

    fn neighboors(&self, a: Point, into: &mut Vec<Point>) {
        let (x, y) = a;
        let ghost start = into@;
        into.push((x, y + 1));
        into.push((x, y - 1));
        into.push((x - 1, y));
        into.push((x + 1, y));
        assert(into@ =~= start + four_way(a));
    }
}

/// A* over the four-way graph of `map`; see `astar_path`. The Manhattan estimate is admissible
/// there, so the path returned is a cheapest one; the tie-break nudge only chooses among the
/// paths with fewest steps, as long as some path has at most 1000 cells.
pub fn astar_path_fourwaygrid<T: PathMap>(map: &T, from: Point, to: Point) -> (r: Option<Vec<Point>>)
    requires
        fits(map.spec_dimensions()),
        in_bounds(map.spec_dimensions(), from.0 as int, from.1 as int),
        in_bounds(map.spec_dimensions(), to.0 as int, to.1 as int),
    ensures
        r is Some ==> is_path(&(FourWayGridGraph { map }), from, to, r->0@),
        r is Some ==> forall|q: Seq<Point>|
            #[trigger] is_path(&(FourWayGridGraph { map }), from, to, q) ==> path_cost(
                &(FourWayGridGraph { map }),
                r->0@,
            ) <= path_cost(&(FourWayGridGraph { map }), q),
        r is Some ==> forall|q: Seq<Point>|
            #[trigger] is_path(&(FourWayGridGraph { map }), from, to, q) && q.len() <= 1000 ==> r->0@.len()
                <= q.len(),
        r is None <==> !(exists|p: Seq<Point>| is_path(&(FourWayGridGraph { map }), from, to, p)),
        r is Some ==> r->0@.no_duplicates(),
        from == to ==> r is Some && r->0@ == seq![from],
{
    let graph = FourWayGridGraph::new(map);
    proof {
        lemma_four_way_admissible(map, to);
    }
    let r = astar_path(&graph, from, to);
    proof {
        if r is Some {
            lemma_four_way_cost_bounds(map, r->0@);
            assert forall|q: Seq<Point>|
                #[trigger] is_path(&(FourWayGridGraph { map }), from, to, q) && q.len() <= 1000 implies r->0@.len()
                    <= q.len() by {
                lemma_four_way_cost_bounds(map, q);
            }
        }
    }
    r
}

/// A grid of walkable and blocked cells, all walkable at first.
pub struct ExampleMap {
    width: i32,
    height: i32,
    walkable: Vec<bool>,
}

impl ExampleMap {
    pub closed spec fn wf(&self) -> bool {
        &&& self.width > 0
        &&& self.height > 0
        &&& self.width * self.height <= 0x7fff_ffff
        &&& self.walkable@.len() == self.width * self.height
    }

    pub fn new(width: i32, height: i32) -> (r: ExampleMap)
        requires
            width > 0,
            height > 0,
            width * height <= 0x7fff_ffff,
        ensures
            r.wf(),
            r.spec_dimensions() == (width, height),
            forall|x: int, y: int| in_bounds((width, height), x, y) ==> #[trigger] r.spec_walkable(x, y),
    {
        let n = (width * height) as usize;
        let mut walkable: Vec<bool> = Vec::new();
        while walkable.len() < n
            invariant
                walkable@.len() <= n,
                forall|i: int| 0 <= i < walkable@.len() ==> #[trigger] walkable@[i],
            decreases n - walkable@.len(),
        {
            walkable.push(true);
        }
        let r = ExampleMap { width, height, walkable };
        proof {
            assert forall|x: int, y: int| in_bounds((width, height), x, y) implies #[trigger] r.spec_walkable(x, y) by {
                lemma_index_of((x as i32, y as i32), (width, height));
            }
        }
        r
    }

    /// Marks the cell `(x, y)` walkable or blocked.
    pub fn set_walkable(&mut self, x: i32, y: i32, is_walkable: bool)
        requires
            old(self).wf(),
            in_bounds(old(self).spec_dimensions(), x as int, y as int),
        ensures
            final(self).wf(),
            final(self).spec_dimensions() == old(self).spec_dimensions(),
            final(self).spec_walkable(x as int, y as int) == is_walkable,
            forall|a: int, b: int|
                in_bounds(old(self).spec_dimensions(), a, b) && (a, b) != (x as int, y as int)
                    ==> #[trigger] final(self).spec_walkable(a, b) == old(self).spec_walkable(a, b),
    {
        proof {
            lemma_index_of((x, y), (self.width, self.height));
        }
        let index = point_to_index((x, y), self.width);
        self.walkable.set(index, is_walkable);
        proof {
            assert forall|a: int, b: int|
                in_bounds(old(self).spec_dimensions(), a, b) && (a, b) != (x as int, y as int) implies #[trigger] self.spec_walkable(a, b)
                    == old(self).spec_walkable(a, b) by {
                lemma_index_of((a as i32, b as i32), (self.width, self.height));
                if a + b * self.width == x + y * self.width {
                    lemma_idx_injective(self.width as int, a, b, x as int, y as int);
                }
            }
        }
    }
}

impl PathMap for ExampleMap {
    closed spec fn spec_dimensions(&self) -> (i32, i32) {
        (self.width, self.height)
    }

    closed spec fn spec_walkable(&self, x: int, y: int) -> bool {
        let i = x + y * self.width;
        i < self.walkable@.len() && self.walkable@[i]
    }

    fn dimensions(&self) -> (r: (i32, i32)) {
        (self.width, self.height)
    }

    fn is_walkable(&self, x: i32, y: i32) -> (r: bool) {
        proof {
            assert(0 <= y as int * self.width as int) by (nonlinear_arith)
                requires 0 <= y, 0 < self.width;
        }
        let len = self.walkable.len();
        match (y as usize).checked_mul(self.width as usize) {
            Some(row) => match row.checked_add(x as usize) {
                Some(index) => index < len && self.walkable[index],
                None => false,
            },
            None => false,
        }
    }
}

} // verus!
