use vstd::prelude::*;
use vstd::std_specs::hash::group_hash_axioms;
use std::collections::HashMap;
use crate::common::edge::Edge;
use crate::common::graph::Graph;
use crate::common::node::Node;
use crate::common::pool::Pool;
use crate::layout::LayoutError;
use crate::layout::node_positioning::spec_node_dims;

verus! {

broadcast use group_hash_axioms;

/// One grid step.
pub const STEP_SIZE: usize = 1;

/// The margin by which every node's rectangle is expanded on all sides.
pub const NODE_MARGIN: usize = 20;

/// The factor splitting a packed cell key into its coordinates.
pub const KEY_BASE: u64 = 0x1_0000_0000;

/// The key a grid cell is filed under in the search maps.
pub open spec fn spec_key(x: usize, y: usize) -> int {
    x * 0x1_0000_0000 + y
}

/// A cell inside the bounding grid.
pub open spec fn spec_in_grid(x: usize, y: usize, w: usize, h: usize) -> bool {
    x < w && y < h
}

/// A point inside a closed rectangle (x1, y1, x2, y2).
pub open spec fn spec_in_rect(x: int, y: int, r: (usize, usize, usize, usize)) -> bool {
    r.0 <= x <= r.2 && r.1 <= y <= r.3
}

/// A cell inside some obstacle of the map.
pub open spec fn spec_in_obstacle(
    x: usize,
    y: usize,
    matrix: Seq<(usize, (usize, usize, usize, usize))>,
) -> bool {
    exists|k: int| 0 <= k < matrix.len() && spec_in_rect(x as int, y as int, (#[trigger] matrix[k]).1)
}

/// Two cells one orthogonal step apart.
pub open spec fn spec_adjacent(a: (usize, usize), b: (usize, usize)) -> bool {
    (if a.0 >= b.0 {
        a.0 - b.0
    } else {
        b.0 - a.0
    }) + (if a.1 >= b.1 {
        a.1 - b.1
    } else {
        b.1 - a.1
    }) == 1
}

/// What find_path promises of a non-empty route: it starts at the given
/// start cell, ends one step from the given end cell, moves orthogonally
/// one step at a time, and — except for the start cell itself — stays in
/// the grid and outside every obstacle.
pub open spec fn spec_path_ok(
    path: Seq<(usize, usize)>,
    start: (usize, usize),
    end: (usize, usize),
    w: usize,
    h: usize,
    matrix: Seq<(usize, (usize, usize, usize, usize))>,
) -> bool {
    &&& path.len() >= 1
    &&& path[0] == start
    &&& spec_near(path.last(), end)
    &&& forall|i: int|
        1 <= i < path.len() ==> spec_in_grid((#[trigger] path[i]).0, path[i].1, w, h)
            && !spec_in_obstacle(path[i].0, path[i].1, matrix)
    &&& forall|i: int| 0 <= i < path.len() - 1 ==> spec_adjacent(#[trigger] path[i], path[i + 1])
}

/// Within one grid step of the end cell on both axes.
pub open spec fn spec_near(a: (usize, usize), end: (usize, usize)) -> bool {
    &&& (if a.0 >= end.0 {
        a.0 - end.0
    } else {
        end.0 - a.0
    }) <= 1
    &&& (if a.1 >= end.1 {
        a.1 - end.1
    } else {
        end.1 - a.1
    }) <= 1
}

/// Whether a cell lies inside the bounding grid.
pub fn is_in_grid(x: usize, y: usize, matrix_width: usize, matrix_height: usize) -> (r: bool)
    ensures
        r == spec_in_grid(x, y, matrix_width, matrix_height),
{
    x < matrix_width && y < matrix_height
}

/// Whether a cell lies inside any node's expanded rectangle.
pub fn is_in_obstacle(
    x: usize,
    y: usize,
    matrix: &Vec<(usize, (usize, usize, usize, usize))>,
) -> (r: bool)
    ensures
        r == spec_in_obstacle(x, y, matrix@),
{
    let m = matrix.len();
    let mut k: usize = 0;
    while k < m
        invariant
            m == matrix@.len(),
            0 <= k <= m,
            forall|q: int| 0 <= q < k ==> !spec_in_rect(x as int, y as int, (#[trigger] matrix@[q]).1),
        decreases m - k,
    {
        let r = matrix[k].1;
        if x >= r.0 && x <= r.2 && y >= r.1 && y <= r.3 {
            return true;
        }
        k += 1;
    }
    false
}

/// Manhattan distance between a cell and the end cell: the search
/// heuristic.
pub fn find_distance_to_end(x: usize, y: usize, end_x: usize, end_y: usize) -> (d: usize)
    requires
        x <= 0x6000_0000,
        y <= 0x6000_0000,
        end_x <= 0x6000_0000,
        end_y <= 0x6000_0000,
    ensures
        d == (if x >= end_x {
            x - end_x
        } else {
            end_x - x
        }) + (if y >= end_y {
            y - end_y
        } else {
            end_y - y
        }),
{
    let dx: usize = if x >= end_x {
        x - end_x
    } else {
        end_x - x
    };
    let dy: usize = if y >= end_y {
        y - end_y
    } else {
        end_y - y
    };
    dx + dy
}

/// The packed key of a cell determines its coordinates.
proof fn lemma_key_decode(x: usize, y: usize)
    requires
        x < 0x1_0000_0000,
        y < 0x1_0000_0000,
    ensures
        spec_key(x, y) / 0x1_0000_0000 == x,
        spec_key(x, y) % 0x1_0000_0000 == y,
        0 <= spec_key(x, y) <= u64::MAX,
{
    let c = 0x1_0000_0000;
    vstd::arithmetic::div_mod::lemma_fundamental_div_mod_converse(
        spec_key(x, y),
        c,
        x as int,
        y as int,
    );
    assert(x * c <= 0xffff_ffff * c) by (nonlinear_arith)
        requires
            x <= 0xffff_ffff,
            c == 0x1_0000_0000,
    ;
}


/// The search-state invariant: every recorded cell except the start is a
/// free in-grid cell whose parent link steps one cell and strictly
/// decreases the recorded cost; the start cell has cost zero and no
/// parent.
#[verifier::opaque]
pub open spec fn spec_search_inv(
    came: Map<u64, (usize, usize)>,
    g: Map<u64, u64>,
    start: (usize, usize),
    w: usize,
    h: usize,
    matrix: Seq<(usize, (usize, usize, usize, usize))>,
) -> bool {
    &&& start.0 <= 0x6000_0000 && start.1 <= 0x6000_0000
    &&& g.dom().contains(spec_key(start.0, start.1) as u64)
    &&& g[spec_key(start.0, start.1) as u64] == 0
    &&& !came.dom().contains(spec_key(start.0, start.1) as u64)
    &&& forall|k: u64| #[trigger] g.dom().contains(k) ==> k == spec_key(start.0, start.1)
        || came.dom().contains(k)
    &&& forall|k: u64| #[trigger] came.dom().contains(k) ==> {
        let x = (k / 0x1_0000_0000) as usize;
        let y = (k % 0x1_0000_0000) as usize;
        let p = came[k];
        &&& g.dom().contains(k)
        &&& x <= 0x6000_0000 && y <= 0x6000_0000
        &&& k == spec_key(x, y)
        &&& spec_in_grid(x, y, w, h)
        &&& !spec_in_obstacle(x, y, matrix)
        &&& p.0 <= 0x6000_0000 && p.1 <= 0x6000_0000
        &&& g.dom().contains(spec_key(p.0, p.1) as u64)
        &&& spec_adjacent((x, y), p)
        &&& g[k] >= g[spec_key(p.0, p.1) as u64] + 1
    }
}

/// The cell a packed key stands for.
pub open spec fn spec_cell_of(k: u64) -> (usize, usize) {
    (((k as int) / 0x1_0000_0000) as usize, ((k as int) % 0x1_0000_0000) as usize)
}

/// Every in-grid, obstacle-free cell one step from the given cell is in
/// the set.
pub open spec fn spec_neighbors_visited(
    visited: Set<u64>,
    x: usize,
    y: usize,
    w: usize,
    h: usize,
    matrix: Seq<(usize, (usize, usize, usize, usize))>,
) -> bool {
    &&& (x < w && y + 1 < h && !spec_in_obstacle(x, (y + 1) as usize, matrix) ==> visited.contains(
        spec_key(x, (y + 1) as usize) as u64,
    ))
    &&& (x + 1 < w && y < h && !spec_in_obstacle((x + 1) as usize, y, matrix) ==> visited.contains(
        spec_key((x + 1) as usize, y) as u64,
    ))
    &&& (y >= 1 && x < w && y - 1 < h && !spec_in_obstacle(x, (y - 1) as usize, matrix)
        ==> visited.contains(spec_key(x, (y - 1) as usize) as u64))
    &&& (x >= 1 && x - 1 < w && y < h && !spec_in_obstacle((x - 1) as usize, y, matrix)
        ==> visited.contains(spec_key((x - 1) as usize, y) as u64))
}

/// A fully processed cell: not within a step of the goal, and with every
/// free in-grid neighbour already in the set.
pub open spec fn spec_expanded(
    visited: Set<u64>,
    k: u64,
    end: (usize, usize),
    w: usize,
    h: usize,
    matrix: Seq<(usize, (usize, usize, usize, usize))>,
) -> bool {
    &&& !spec_near(spec_cell_of(k), end)
    &&& spec_neighbors_visited(visited, spec_cell_of(k).0, spec_cell_of(k).1, w, h, matrix)
}

/// What an empty answer means: the search closed a set of cells around
/// the start — every free in-grid neighbour of a closed cell is closed,
/// and no closed cell comes within a step of the goal. No free
/// four-directional path from the start can then reach the goal's
/// neighbourhood (`lemma_exhausted_blocks_paths`).
pub open spec fn spec_search_exhausted(
    start: (usize, usize),
    end: (usize, usize),
    w: usize,
    h: usize,
    matrix: Seq<(usize, (usize, usize, usize, usize))>,
) -> bool {
    exists|visited: Set<u64>|
        {
            &&& #[trigger] visited.contains(spec_key(start.0, start.1) as u64)
            &&& forall|k: u64| #[trigger] visited.contains(k) ==> spec_expanded(
                visited,
                k,
                end,
                w,
                h,
                matrix,
            )
        }
}

/// A key of the open list.
pub open spec fn spec_key_in_open(open: Seq<(u64, usize, usize)>, k: u64) -> bool {
    exists|q: int| 0 <= q < open.len() && spec_key((#[trigger] open[q]).1, open[q].2) == k
}

/// A well-formed queue: every entry's cell is recorded and within the
/// coordinate range, and no two entries share a cell.
#[verifier::opaque]
pub open spec fn spec_open_ok(open: Seq<(u64, usize, usize)>, dom: Set<u64>) -> bool {
    &&& forall|q: int|
        0 <= q < open.len() ==> dom.contains(
            spec_key((#[trigger] open[q]).1, open[q].2) as u64,
        ) && open[q].1 <= 0x6000_0000 && open[q].2 <= 0x6000_0000
    &&& forall|q1: int, q2: int|
        0 <= q1 < q2 < open.len() ==> spec_key((#[trigger] open[q1]).1, open[q1].2) != spec_key(
            (#[trigger] open[q2]).1,
            open[q2].2,
        )
}

/// Every recorded cell is either still queued or fully processed.
#[verifier::opaque]
pub open spec fn spec_frontier_inv(
    open: Seq<(u64, usize, usize)>,
    dom: Set<u64>,
    end: (usize, usize),
    w: usize,
    h: usize,
    matrix: Seq<(usize, (usize, usize, usize, usize))>,
) -> bool {
    forall|k: u64| #[trigger] dom.contains(k) ==> spec_key_in_open(open, k) || spec_expanded(
        dom,
        k,
        end,
        w,
        h,
        matrix,
    )
}

/// Law: when the search exhausted the reachable cells, no free
/// four-directional path leads from the start to within a step of the
/// goal: whatever free in-grid cells a candidate path walks, its last
/// cell is still not near the goal.
pub proof fn lemma_exhausted_blocks_paths(
    start: (usize, usize),
    end: (usize, usize),
    w: usize,
    h: usize,
    matrix: Seq<(usize, (usize, usize, usize, usize))>,
    cand: Seq<(usize, usize)>,
)
    requires
        spec_search_exhausted(start, end, w, h, matrix),
        w <= 0x6000_0000,
        h <= 0x6000_0000,
        start.0 <= 0x6000_0000,
        start.1 <= 0x6000_0000,
        cand.len() >= 1,
        cand[0] == start,
        forall|i: int|
            1 <= i < cand.len() ==> spec_in_grid((#[trigger] cand[i]).0, cand[i].1, w, h)
                && !spec_in_obstacle(cand[i].0, cand[i].1, matrix),
        forall|i: int| 0 <= i < cand.len() - 1 ==> spec_adjacent(#[trigger] cand[i], cand[i + 1]),
    ensures
        !spec_near(cand.last(), end),
{
    let visited = choose|visited: Set<u64>|
        {
            &&& #[trigger] visited.contains(spec_key(start.0, start.1) as u64)
            &&& forall|k: u64| #[trigger] visited.contains(k) ==> spec_expanded(
                visited,
                k,
                end,
                w,
                h,
                matrix,
            )
        };
    lemma_path_stays_visited(visited, end, w, h, matrix, cand, cand.len() - 1);
    let last = cand.last();
    lemma_key_decode(last.0, last.1);
    assert(spec_cell_of(spec_key(last.0, last.1) as u64) == last);
}

/// Along a free adjacent path out of a closed set's member, every cell is
/// in the closed set.
proof fn lemma_path_stays_visited(
    visited: Set<u64>,
    end: (usize, usize),
    w: usize,
    h: usize,
    matrix: Seq<(usize, (usize, usize, usize, usize))>,
    cand: Seq<(usize, usize)>,
    i: int,
)
    requires
        forall|k: u64| #[trigger] visited.contains(k) ==> spec_expanded(visited, k, end, w, h, matrix),
        w <= 0x6000_0000,
        h <= 0x6000_0000,
        cand.len() >= 1,
        cand[0].0 <= 0x6000_0000,
        cand[0].1 <= 0x6000_0000,
        visited.contains(spec_key(cand[0].0, cand[0].1) as u64),
        forall|j: int|
            1 <= j < cand.len() ==> spec_in_grid((#[trigger] cand[j]).0, cand[j].1, w, h)
                && !spec_in_obstacle(cand[j].0, cand[j].1, matrix),
        forall|j: int| 0 <= j < cand.len() - 1 ==> spec_adjacent(#[trigger] cand[j], cand[j + 1]),
        0 <= i < cand.len(),
    ensures
        visited.contains(spec_key(cand[i].0, cand[i].1) as u64),
    decreases i,
{
    if i > 0 {
        lemma_path_stays_visited(visited, end, w, h, matrix, cand, i - 1);
        let a = cand[i - 1];
        let b = cand[i];
        let ka = spec_key(a.0, a.1) as u64;
        if i == 1 {
            lemma_key_decode(a.0, a.1);
        } else {
            assert(a.0 < w && a.1 < h);
            lemma_key_decode(a.0, a.1);
        }
        assert(spec_cell_of(ka) == a);
        assert(spec_expanded(visited, ka, end, w, h, matrix));
        assert(spec_adjacent(a, b));
        lemma_key_decode(b.0, b.1);
        if b.0 == a.0 && b.1 == a.1 + 1 {
            assert(visited.contains(spec_key(a.0, (a.1 + 1) as usize) as u64));
        } else if b.1 == a.1 && b.0 == a.0 + 1 {
            assert(visited.contains(spec_key((a.0 + 1) as usize, a.1) as u64));
        } else if b.0 == a.0 && a.1 >= 1 && b.1 == a.1 - 1 {
            assert(visited.contains(spec_key(a.0, (a.1 - 1) as usize) as u64));
        } else {
            assert(a.0 >= 1 && b.1 == a.1 && b.0 == a.0 - 1);
            assert(visited.contains(spec_key((a.0 - 1) as usize, a.1) as u64));
        }
    }
}

/// The keys of a grid's cells, enumerated by flattened index.
pub open spec fn spec_grid_keys(n: int, h: int) -> Set<u64>
    decreases n,
{
    if n <= 0 {
        Set::empty()
    } else {
        spec_grid_keys(n - 1, h).insert(
            spec_key((((n - 1) / h) as usize), (((n - 1) % h) as usize)) as u64,
        )
    }
}

/// The grid key set is finite and holds at most one key per cell index.
proof fn lemma_grid_keys_size(n: int, h: int)
    requires
        n >= 0,
        h >= 1,
    ensures
        spec_grid_keys(n, h).finite(),
        spec_grid_keys(n, h).len() <= n,
    decreases n,
{
    if n > 0 {
        lemma_grid_keys_size(n - 1, h);
        vstd::set::axiom_set_insert_finite(
            spec_grid_keys(n - 1, h),
            spec_key((((n - 1) / h) as usize), (((n - 1) % h) as usize)) as u64,
        );
        vstd::set::axiom_set_insert_len(
            spec_grid_keys(n - 1, h),
            spec_key((((n - 1) / h) as usize), (((n - 1) % h) as usize)) as u64,
        );
    }
}

/// A larger enumeration keeps every key of a smaller one.
proof fn lemma_grid_keys_monotone(n1: int, n2: int, h: int, k: u64)
    requires
        0 <= n1 <= n2,
        spec_grid_keys(n1, h).contains(k),
    ensures
        spec_grid_keys(n2, h).contains(k),
    decreases n2 - n1,
{
    if n1 < n2 {
        lemma_grid_keys_monotone(n1, n2 - 1, h, k);
    }
}

/// Every in-grid cell's key is enumerated.
proof fn lemma_grid_keys_contains(w: int, h: int, x: usize, y: usize)
    requires
        1 <= h,
        0 <= w,
        x < w,
        y < h,
        w <= 0x6000_0000,
        h <= 0x6000_0000,
    ensures
        spec_grid_keys(w * h, h).contains(spec_key(x, y) as u64),
{
    let i = x * h + y;
    assert(0 <= i && i + 1 <= w * h && i / h == x && i % h == y) by (nonlinear_arith)
        requires
            0 <= x < w,
            0 <= y < h,
            1 <= h,
            i == x * h + y,
    ;
    assert(spec_grid_keys(i + 1, h).contains(spec_key(x, y) as u64));
    lemma_grid_keys_monotone(i + 1, w * h, h, spec_key(x, y) as u64);
}

/// Walks the parent links back from the hit cell to the start and hands
/// the cells out in start-to-hit order.
#[verifier::rlimit(100)]
#[verifier::spinoff_prover]
fn reconstruct_path(
    came_from: &HashMap<u64, (usize, usize)>,
    g_score: &HashMap<u64, u64>,
    hit: (usize, usize),
    start: (usize, usize),
    matrix_width: usize,
    matrix_height: usize,
    matrix: &Vec<(usize, (usize, usize, usize, usize))>,
) -> (path: Vec<(usize, usize)>)
    requires
        spec_search_inv(came_from@, g_score@, start, matrix_width, matrix_height, matrix@),
        hit.0 <= 0x6000_0000,
        hit.1 <= 0x6000_0000,
        g_score@.dom().contains(spec_key(hit.0, hit.1) as u64),
    ensures
        path@.len() >= 1,
        path@[0] == start,
        path@.last() == hit,
        forall|i: int| 0 <= i < path@.len() - 1 ==> spec_adjacent(#[trigger] path@[i], path@[i + 1]),
        forall|i: int|
            1 <= i < path@.len() ==> spec_in_grid(
                (#[trigger] path@[i]).0,
                path@[i].1,
                matrix_width,
                matrix_height,
            ) && !spec_in_obstacle(path@[i].0, path@[i].1, matrix@),
{
    let mut rev: Vec<(usize, usize)> = Vec::new();
    let mut cx = hit.0;
    let mut cy = hit.1;
    rev.push((cx, cy));
    proof {
        reveal(spec_search_inv);
        lemma_key_decode(cx, cy);
        lemma_key_decode(start.0, start.1);
        if spec_key(cx, cy) != spec_key(start.0, start.1) {
            assert(came_from@.dom().contains(spec_key(cx, cy) as u64));
        } else {
            assert((cx, cy) == start);
        }
    }
    loop
        invariant
            spec_search_inv(came_from@, g_score@, start, matrix_width, matrix_height, matrix@),
            cx <= 0x6000_0000,
            cy <= 0x6000_0000,
            g_score@.dom().contains(spec_key(cx, cy) as u64),
            rev@.len() >= 1,
            rev@.last() == (cx, cy),
            forall|i: int| 0 <= i < rev@.len() - 1 ==> spec_adjacent(#[trigger] rev@[i + 1], rev@[i]),
            forall|i: int|
                0 <= i < rev@.len() - 1 ==> (#[trigger] rev@[i]) != start && spec_in_grid(
                    rev@[i].0,
                    rev@[i].1,
                    matrix_width,
                    matrix_height,
                ) && !spec_in_obstacle(rev@[i].0, rev@[i].1, matrix@),
            ((cx, cy) == start) || (came_from@.dom().contains(spec_key(cx, cy) as u64)
                && spec_in_grid(cx, cy, matrix_width, matrix_height) && !spec_in_obstacle(
                cx,
                cy,
                matrix@,
            )),
            rev@[0] == hit,
        ensures
            rev@.len() >= 1,
            rev@.last() == start,
            rev@[0] == hit,
            forall|i: int| 0 <= i < rev@.len() - 1 ==> spec_adjacent(#[trigger] rev@[i + 1], rev@[i]),
            forall|i: int|
                0 <= i < rev@.len() - 1 ==> (#[trigger] rev@[i]) != start && spec_in_grid(
                    rev@[i].0,
                    rev@[i].1,
                    matrix_width,
                    matrix_height,
                ) && !spec_in_obstacle(rev@[i].0, rev@[i].1, matrix@),
        decreases g_score@[spec_key(cx, cy) as u64],
    {
        proof {
            reveal(spec_search_inv);
            lemma_key_decode(cx, cy);
        }
        let ck: u64 = (cx as u64) * KEY_BASE + (cy as u64);
        let step = came_from.get(&ck);
        match step {
            Option::Some(p) => {
                let px = p.0;
                let py = p.1;
                proof {
                    assert(came_from@.dom().contains(ck));
                    lemma_key_decode(start.0, start.1);
                    assert(ck != spec_key(start.0, start.1) as u64);
                    assert((cx, cy) != start);
                    assert(came_from@[ck] == (px, py));
                    lemma_key_decode(px, py);
                    assert(spec_adjacent((cx, cy), (px, py)));
                    assert(g_score@.dom().contains(spec_key(px, py) as u64));
                    assert(g_score@[spec_key(px, py) as u64] < g_score@[spec_key(cx, cy) as u64]);
                    if spec_key(px, py) as u64 == spec_key(start.0, start.1) as u64 {
                        assert(px == (spec_key(start.0, start.1) / 0x1_0000_0000) as usize);
                        assert((px, py) == start);
                    } else {
                        assert(came_from@.dom().contains(spec_key(px, py) as u64));
                        let kk = spec_key(px, py) as u64;
                        assert((kk / 0x1_0000_0000) as usize == px);
                        assert((kk % 0x1_0000_0000) as usize == py);
                    }
                }
                rev.push((px, py));
                cx = px;
                cy = py;
            },
            Option::None => {
                proof {
                    reveal(spec_search_inv);
                    lemma_key_decode(start.0, start.1);
                    assert((cx, cy) == start);
                }
                break;
            },
        }
    }
    // reverse into start-to-hit order
    let mut path: Vec<(usize, usize)> = Vec::new();
    let total = rev.len();
    let mut t: usize = 0;
    while t < total
        invariant
            total == rev@.len(),
            0 <= t <= total,
            path@.len() == t,
            forall|i: int| 0 <= i < t ==> #[trigger] path@[i] == rev@[total - 1 - i],
        decreases total - t,
    {
        path.push(rev[total - 1 - t]);
        t += 1;
    }
    proof {
        assert(path@[0] == rev@[total - 1]);
        assert(path@.last() == rev@[0]);
        assert forall|i: int| 1 <= i < path@.len() implies spec_in_grid(
            (#[trigger] path@[i]).0,
            path@[i].1,
            matrix_width,
            matrix_height,
        ) && !spec_in_obstacle(path@[i].0, path@[i].1, matrix@) by {
            assert(path@[i] == rev@[total - 1 - i]);
            assert(total - 1 - i < total - 1);
        }
        assert forall|i: int| 0 <= i < path@.len() - 1 implies spec_adjacent(
            #[trigger] path@[i],
            path@[i + 1],
        ) by {
            assert(path@[i] == rev@[total - 1 - i]);
            assert(path@[i + 1] == rev@[total - 2 - i]);
            assert(spec_adjacent(rev@[(total - 2 - i) + 1], rev@[total - 2 - i]));
            assert(spec_adjacent(rev@[total - 1 - i], rev@[total - 2 - i]));
            lemma_adjacent_symmetric(rev@[total - 1 - i], rev@[total - 2 - i]);
        }
    }
    path
}

/// Orthogonal adjacency does not depend on direction.
proof fn lemma_adjacent_symmetric(a: (usize, usize), b: (usize, usize))
    requires
        spec_adjacent(a, b),
    ensures
        spec_adjacent(b, a),
{
}

/// Opens one free neighbouring cell: the first time a free in-grid cell
/// is reached it is recorded with its path cost and queued; a cell is
/// never queued twice.
fn open_neighbor(
    open_set: &mut Vec<(u64, usize, usize)>,
    came_from: &mut HashMap<u64, (usize, usize)>,
    g_score: &mut HashMap<u64, u64>,
    x: usize,
    y: usize,
    nx: usize,
    ny: usize,
    gcur: u64,
    end_x: usize,
    end_y: usize,
    matrix_width: usize,
    matrix_height: usize,
    matrix: &Vec<(usize, (usize, usize, usize, usize))>,
    Ghost(start): Ghost<(usize, usize)>,
)
    requires
        spec_search_inv(old(came_from)@, old(g_score)@, start, matrix_width, matrix_height, matrix@),
        forall|k: u64| #[trigger] old(g_score)@.dom().contains(k)
            ==> old(g_score)@[k] <= old(g_score)@.dom().len(),
        old(g_score)@.dom().finite(),
        old(g_score)@.dom().len() <= 0x4000_0000_0000_0000,
        x <= 0x6000_0000,
        y <= 0x6000_0000,
        end_x <= 0x6000_0000,
        end_y <= 0x6000_0000,
        matrix_width <= 0x6000_0000,
        matrix_height <= 0x6000_0000,
        old(g_score)@.dom().contains(spec_key(x, y) as u64),
        gcur == old(g_score)@[spec_key(x, y) as u64],
        spec_adjacent((nx, ny), (x, y)),
        nx <= 0x6000_0000,
        ny <= 0x6000_0000,
        forall|q: int|
            0 <= q < old(open_set)@.len() ==> old(g_score)@.dom().contains(
                spec_key((#[trigger] old(open_set)@[q]).1, old(open_set)@[q].2) as u64,
            ) && old(open_set)@[q].1 <= 0x6000_0000 && old(open_set)@[q].2 <= 0x6000_0000,
        forall|q1: int, q2: int|
            0 <= q1 < q2 < old(open_set)@.len() ==> spec_key(
                (#[trigger] old(open_set)@[q1]).1,
                old(open_set)@[q1].2,
            ) != spec_key((#[trigger] old(open_set)@[q2]).1, old(open_set)@[q2].2),
    ensures
        spec_search_inv(
            final(came_from)@,
            final(g_score)@,
            start,
            matrix_width,
            matrix_height,
            matrix@,
        ),
        forall|k: u64| #[trigger] final(g_score)@.dom().contains(k)
            ==> final(g_score)@[k] <= final(g_score)@.dom().len(),
        final(g_score)@.dom().finite(),
        ({
            let fresh = spec_in_grid(nx, ny, matrix_width, matrix_height) && !spec_in_obstacle(
                nx,
                ny,
                matrix@,
            ) && !old(g_score)@.dom().contains(spec_key(nx, ny) as u64);
            if fresh {
                &&& final(g_score)@.dom() == old(g_score)@.dom().insert(spec_key(nx, ny) as u64)
                &&& final(g_score)@.dom().len() == old(g_score)@.dom().len() + 1
                &&& final(open_set)@.len() == old(open_set)@.len() + 1
                &&& final(open_set)@ == old(open_set)@.push(final(open_set)@.last())
                &&& final(open_set)@.last().1 == nx && final(open_set)@.last().2 == ny
            } else {
                &&& final(g_score)@ == old(g_score)@
                &&& final(open_set)@ == old(open_set)@
            }
        }),
        spec_in_grid(nx, ny, matrix_width, matrix_height) && !spec_in_obstacle(nx, ny, matrix@)
            ==> final(g_score)@.dom().contains(spec_key(nx, ny) as u64),
        final(g_score)@.dom().contains(spec_key(x, y) as u64),
        final(g_score)@[spec_key(x, y) as u64] == old(g_score)@[spec_key(x, y) as u64],
        forall|k: u64| #[trigger] old(g_score)@.dom().contains(k) ==> final(g_score)@.dom().contains(
            k,
        ) && final(g_score)@[k] == old(g_score)@[k],
        forall|q1: int, q2: int|
            0 <= q1 < q2 < final(open_set)@.len() ==> spec_key(
                (#[trigger] final(open_set)@[q1]).1,
                final(open_set)@[q1].2,
            ) != spec_key((#[trigger] final(open_set)@[q2]).1, final(open_set)@[q2].2),
        forall|q: int|
            0 <= q < final(open_set)@.len() ==> final(g_score)@.dom().contains(
                spec_key((#[trigger] final(open_set)@[q]).1, final(open_set)@[q].2) as u64,
            ) && final(open_set)@[q].1 <= 0x6000_0000 && final(open_set)@[q].2 <= 0x6000_0000,
        old(open_set)@.len() <= final(open_set)@.len(),
        forall|q: int| 0 <= q < old(open_set)@.len() ==> #[trigger] final(open_set)@[q] == old(
            open_set,
        )@[q],
{
    proof {
        reveal(spec_search_inv);
        lemma_key_decode(x, y);
        lemma_key_decode(nx, ny);
        lemma_key_decode(start.0, start.1);
    }
    if is_in_grid(nx, ny, matrix_width, matrix_height) && !is_in_obstacle(nx, ny, matrix) {
        let nk: u64 = (nx as u64) * KEY_BASE + (ny as u64);
        let already = g_score.contains_key(&nk);
        if !already {
            let tentative: u64 = gcur + 1;
            proof {
                if nk == spec_key(start.0, start.1) as u64 {
                    assert(old(g_score)@.dom().contains(nk));
                }
                assert(nk != spec_key(start.0, start.1) as u64);
            }
            came_from.insert(nk, (x, y));
            g_score.insert(nk, tentative);
            let h_score = find_distance_to_end(nx, ny, end_x, end_y);
            let f: u64 = tentative + (h_score as u64);
            open_set.push((f, nx, ny));
            proof {
                assert((nk as int / 0x1_0000_0000) as usize == nx);
                assert((nk as int % 0x1_0000_0000) as usize == ny);
                assert(spec_adjacent((nx, ny), (x, y)));
                vstd::set::axiom_set_insert_len(old(g_score)@.dom(), nk);
                vstd::set::axiom_set_insert_finite(old(g_score)@.dom(), nk);
                assert(final(g_score)@.dom() =~= old(g_score)@.dom().insert(nk));
            }
        }
    }
}


// ---------------------------------------------------------------------------
// The public stage: obstacle map, candidate enumeration, routing.
// ---------------------------------------------------------------------------

/// A node that has received full coordinates.
pub open spec fn spec_placed(n: Node) -> bool {
    n.x is Some && n.y is Some && n.x_offset is Some && n.y_offset is Some
}

/// A node's expanded obstacle rectangle: its rendered box, shifted by its
/// sub-offsets and widened by the margin on all sides.
pub open spec fn spec_rect_of(n: Node) -> (usize, usize, usize, usize) {
    let x = n.x->0;
    let y = n.y->0;
    let xo = n.x_offset->0;
    let yo = n.y_offset->0;
    let w = spec_node_dims(n).0;
    let h = spec_node_dims(n).1;
    (
        (x + xo - 20) as usize,
        (y + yo - 20) as usize,
        (x + xo + w + 20) as usize,
        (y + yo + h + 20) as usize,
    )
}

/// Structural limits on placed coordinates under which the whole grid
/// arithmetic fits a machine word.
pub open spec fn spec_routing_limits(pools: Seq<Pool>) -> bool {
    forall|pi: int, li: int, ni: int|
        0 <= pi < pools.len() && 0 <= li < (#[trigger] pools[pi]).lanes@.len() && 0 <= ni
            < (#[trigger] pools[pi].lanes@[li]).layers@.len() ==> {
            let n = (#[trigger] pools[pi].lanes@[li].layers@[ni]);
            spec_placed(n) ==> {
                &&& n.x->0 <= 0x4000_0000
                &&& n.y->0 <= 0x4000_0000
                &&& n.x_offset->0 <= 0x10_0000
                &&& n.y_offset->0 <= 0x10_0000
                &&& n.x->0 + n.x_offset->0 >= 20
                &&& n.y->0 + n.y_offset->0 >= 20
            }
        }
}

/// Some pool of the list holds a placed node with the given id.
pub open spec fn spec_has_placed(pools: Seq<Pool>, id: usize) -> bool {
    exists|pi: int, li: int, ni: int|
        0 <= pi < pools.len() && 0 <= li < (#[trigger] pools[pi]).lanes@.len() && 0 <= ni
            < (#[trigger] pools[pi].lanes@[li]).layers@.len() && (#[trigger] pools[pi].lanes@[li].layers@[ni]).id
            == id && spec_placed(pools[pi].lanes@[li].layers@[ni])
}

/// A point inside the expanded rectangle of some placed node.
pub open spec fn spec_in_some_node_rect(pools: Seq<Pool>, x: usize, y: usize) -> bool {
    exists|pi: int, li: int, ni: int|
        0 <= pi < pools.len() && 0 <= li < (#[trigger] pools[pi]).lanes@.len() && 0 <= ni
            < (#[trigger] pools[pi].lanes@[li]).layers@.len() && spec_placed(
            #[trigger] pools[pi].lanes@[li].layers@[ni],
        ) && spec_in_rect(x as int, y as int, spec_rect_of(pools[pi].lanes@[li].layers@[ni]))
}

/// One obstacle entry that stands for a placed node of the pools.
pub open spec fn spec_entry_matches(
    pools: Seq<Pool>,
    entry: (usize, (usize, usize, usize, usize)),
) -> bool {
    exists|pi: int, li: int, ni: int|
        0 <= pi < pools.len() && 0 <= li < (#[trigger] pools[pi]).lanes@.len() && 0 <= ni
            < (#[trigger] pools[pi].lanes@[li]).layers@.len() && spec_placed(
            #[trigger] pools[pi].lanes@[li].layers@[ni],
        ) && entry == (
            pools[pi].lanes@[li].layers@[ni].id,
            spec_rect_of(pools[pi].lanes@[li].layers@[ni]),
        )
}

/// The obstacle map lists exactly the placed nodes' expanded rectangles.
pub open spec fn spec_obstacles_ok(
    pools: Seq<Pool>,
    obs: Seq<(usize, (usize, usize, usize, usize))>,
) -> bool {
    &&& forall|k: int| 0 <= k < obs.len() ==> spec_entry_matches(pools, #[trigger] obs[k])
    &&& forall|pi: int, li: int, ni: int|
        0 <= pi < pools.len() && 0 <= li < (#[trigger] pools[pi]).lanes@.len() && 0 <= ni
            < (#[trigger] pools[pi].lanes@[li]).layers@.len() && spec_placed(
            #[trigger] pools[pi].lanes@[li].layers@[ni],
        ) ==> obs.contains(
            (
                pools[pi].lanes@[li].layers@[ni].id,
                spec_rect_of(pools[pi].lanes@[li].layers@[ni]),
            ),
        )
}

/// After one queued entry is taken out by a swap with the last entry,
/// exactly the other keys remain queued.
proof fn lemma_open_after_pop(open1: Seq<(u64, usize, usize)>, open2: Seq<(u64, usize, usize)>, best: int)
    requires
        0 <= best < open1.len(),
        open2 == open1.update(best, open1.last()).drop_last(),
        forall|q: int|
            0 <= q < open1.len() ==> (#[trigger] open1[q]).1 <= 0x6000_0000 && open1[q].2
                <= 0x6000_0000,
        forall|q1: int, q2: int|
            0 <= q1 < q2 < open1.len() ==> spec_key((#[trigger] open1[q1]).1, open1[q1].2)
                != spec_key((#[trigger] open1[q2]).1, open1[q2].2),
    ensures
        forall|k: u64|
            #[trigger] spec_key_in_open(open2, k) <==> (spec_key_in_open(open1, k) && k != spec_key(
                open1[best].1,
                open1[best].2,
            ) as u64),
        forall|q1: int, q2: int|
            0 <= q1 < q2 < open2.len() ==> spec_key((#[trigger] open2[q1]).1, open2[q1].2)
                != spec_key((#[trigger] open2[q2]).1, open2[q2].2),
        forall|q: int|
            0 <= q < open2.len() ==> exists|q1: int|
                0 <= q1 < open1.len() && open1[q1] == #[trigger] open2[q],
{
    let k0 = spec_key(open1[best].1, open1[best].2) as u64;
    assert forall|q: int| 0 <= q < open2.len() implies exists|q1: int|
        0 <= q1 < open1.len() && open1[q1] == #[trigger] open2[q] by {
        if q == best {
            assert(open1[open1.len() - 1] == open2[q]);
        } else {
            assert(open1[q] == open2[q]);
        }
    }
    assert forall|k: u64| #[trigger] spec_key_in_open(open2, k) implies (spec_key_in_open(open1, k)
        && k != k0) by {
        let q = choose|q: int| 0 <= q < open2.len() && spec_key((#[trigger] open2[q]).1, open2[q].2) == k;
        assert(open2[q] == open1.update(best, open1.last())[q]);
        lemma_key_decode(open1[best].1, open1[best].2);
        if q == best {
            assert(best < open1.len() - 1);
            assert(open2[q] == open1[open1.len() - 1]);
            lemma_key_decode(open1[open1.len() - 1].1, open1[open1.len() - 1].2);
            assert(spec_key(open1[open1.len() - 1].1, open1[open1.len() - 1].2) == k);
            assert(spec_key_in_open(open1, k));
            assert(spec_key(open1[open1.len() - 1].1, open1[open1.len() - 1].2) != spec_key(
                open1[best].1,
                open1[best].2,
            ));
            assert(k != spec_key(open1[best].1, open1[best].2) as u64);
        } else {
            assert(open2[q] == open1[q]);
            lemma_key_decode(open1[q].1, open1[q].2);
            assert(spec_key(open1[q].1, open1[q].2) == k);
            assert(spec_key_in_open(open1, k));
            if q < best {
                assert(spec_key(open1[q].1, open1[q].2) != spec_key(open1[best].1, open1[best].2));
            } else {
                assert(spec_key(open1[best].1, open1[best].2) != spec_key(open1[q].1, open1[q].2));
            }
            assert(k != spec_key(open1[best].1, open1[best].2) as u64);
        }
    }
    assert forall|k: u64|
        spec_key_in_open(open1, k) && k != k0 implies #[trigger] spec_key_in_open(open2, k) by {
        let q = choose|q: int| 0 <= q < open1.len() && spec_key((#[trigger] open1[q]).1, open1[q].2) == k;
        lemma_key_decode(open1[q].1, open1[q].2);
        lemma_key_decode(open1[best].1, open1[best].2);
        if q == best {
            assert(false);
        } else if q == open1.len() - 1 {
            assert(best < open1.len() - 1);
            assert(open2[best] == open1[q]);
            assert(spec_key(open2[best].1, open2[best].2) == k);
        } else {
            assert(open2[q] == open1[q]);
        }
    }
    assert forall|q1: int, q2: int|
        0 <= q1 < q2 < open2.len() implies spec_key((#[trigger] open2[q1]).1, open2[q1].2)
            != spec_key((#[trigger] open2[q2]).1, open2[q2].2) by {
        let a1: int = if q1 == best {
            open1.len() - 1
        } else {
            q1
        };
        let a2: int = if q2 == best {
            open1.len() - 1
        } else {
            q2
        };
        assert(open2[q1] == open1[a1]);
        assert(open2[q2] == open1[a2]);
        assert(a1 != a2);
    }
}

/// One opening step of the queue and the recorded set: either nothing
/// happened, or exactly one new in-grid cell was recorded and queued.
pub open spec fn spec_opened_step(
    op: Seq<(u64, usize, usize)>,
    on: Seq<(u64, usize, usize)>,
    dp: Set<u64>,
    dn: Set<u64>,
    w: usize,
    h: usize,
) -> bool {
    ||| (on == op && dn == dp)
    ||| (on == op.push(on.last()) && on.last().1 <= 0x6000_0000 && on.last().2 <= 0x6000_0000
        && spec_in_grid(on.last().1, on.last().2, w, h) && !dp.contains(
        spec_key(on.last().1, on.last().2) as u64,
    ) && dn == dp.insert(spec_key(on.last().1, on.last().2) as u64))
}

/// After a cell's four neighbours were opened, every recorded cell is
/// again queued or fully processed.
#[verifier::rlimit(100)]
#[verifier::spinoff_prover]
proof fn lemma_expand_frontier_core(
    x: usize,
    y: usize,
    end_x: usize,
    end_y: usize,
    matrix_width: usize,
    matrix_height: usize,
    matrix: Seq<(usize, (usize, usize, usize, usize))>,
    open_popped: Seq<(u64, usize, usize)>,
    o1: Seq<(u64, usize, usize)>,
    o2: Seq<(u64, usize, usize)>,
    o3: Seq<(u64, usize, usize)>,
    open4: Seq<(u64, usize, usize)>,
    dom_pre: Set<u64>,
    d1: Set<u64>,
    d2: Set<u64>,
    d3: Set<u64>,
    dom4: Set<u64>,
    start: (usize, usize),
    big: Set<u64>,
    wtot: int,
    htot: int,
)
    requires
        x <= 0x6000_0000,
        y <= 0x6000_0000,
        end_x <= 0x6000_0000,
        end_y <= 0x6000_0000,
        matrix_width <= 0x6000_0000,
        matrix_height <= 0x6000_0000,
        wtot == matrix_width as int,
        htot == (if matrix_height >= 1 {
            matrix_height as int
        } else {
            1
        }),
        big == spec_grid_keys(wtot * htot, htot).insert(spec_key(start.0, start.1) as u64),
        big.finite(),
        big.len() <= wtot * htot + 1,
        dom_pre.finite(),
        forall|k: u64| #[trigger] dom_pre.contains(k) ==> big.contains(k),
        dom_pre.contains(spec_key(x, y) as u64),
        !spec_near((x, y), (end_x, end_y)),
        spec_opened_step(open_popped, o1, dom_pre, d1, matrix_width, matrix_height),
        spec_opened_step(o1, o2, d1, d2, matrix_width, matrix_height),
        spec_opened_step(o2, o3, d2, d3, matrix_width, matrix_height),
        spec_opened_step(o3, open4, d3, dom4, matrix_width, matrix_height),
        x < matrix_width && y + 1 < matrix_height && !spec_in_obstacle(
            x,
            (y + 1) as usize,
            matrix,
        ) ==> dom4.contains(spec_key(x, (y + 1) as usize) as u64),
        x + 1 < matrix_width && y < matrix_height && !spec_in_obstacle(
            (x + 1) as usize,
            y,
            matrix,
        ) ==> dom4.contains(spec_key((x + 1) as usize, y) as u64),
        y >= 1 && x < matrix_width && y - 1 < matrix_height && !spec_in_obstacle(
            x,
            (y - 1) as usize,
            matrix,
        ) ==> dom4.contains(spec_key(x, (y - 1) as usize) as u64),
        x >= 1 && x - 1 < matrix_width && y < matrix_height && !spec_in_obstacle(
            (x - 1) as usize,
            y,
            matrix,
        ) ==> dom4.contains(spec_key((x - 1) as usize, y) as u64),
        forall|q: int|
            0 <= q < open_popped.len() ==> dom_pre.contains(
                spec_key((#[trigger] open_popped[q]).1, open_popped[q].2) as u64,
            ) && open_popped[q].1 <= 0x6000_0000 && open_popped[q].2 <= 0x6000_0000,
        forall|q1: int, q2: int|
            0 <= q1 < q2 < open_popped.len() ==> spec_key(
                (#[trigger] open_popped[q1]).1,
                open_popped[q1].2,
            ) != spec_key((#[trigger] open_popped[q2]).1, open_popped[q2].2),
        forall|k: u64|
            dom_pre.contains(k) && k != spec_key(x, y) as u64 ==> spec_key_in_open(open_popped, k)
                || #[trigger] spec_expanded(
                dom_pre,
                k,
                (end_x, end_y),
                matrix_width,
                matrix_height,
                matrix,
            ),
    ensures
        spec_frontier_inv(open4, dom4, (end_x, end_y), matrix_width, matrix_height, matrix),
        forall|k: u64| #[trigger] dom_pre.contains(k) ==> dom4.contains(k),
        dom4.finite(),
        open4.len() + dom_pre.len() == open_popped.len() + dom4.len(),
        dom_pre.len() <= dom4.len(),
{
    reveal(spec_open_ok);
    reveal(spec_frontier_inv);
    let end = (end_x, end_y);
    let k0: u64 = spec_key(x, y) as u64;
    lemma_key_decode(x, y);
    assert forall|q: int| 0 <= q < open_popped.len() implies #[trigger] open4[q]
        == open_popped[q] by {
        assert(o1[q] == open_popped[q]);
        assert(o2[q] == o1[q]);
        assert(o3[q] == o2[q]);
    }
    assert forall|q: int| 0 <= q < o1.len() implies #[trigger] open4[q] == o1[q] by {
        assert(o2[q] == o1[q]);
        assert(o3[q] == o2[q]);
    }
    assert forall|q: int| 0 <= q < o2.len() implies #[trigger] open4[q] == o2[q] by {
        assert(o3[q] == o2[q]);
    }
    assert forall|k: u64| #[trigger] dom_pre.contains(k) implies dom4.contains(k) by {
        assert(d1.contains(k) && d2.contains(k) && d3.contains(k));
    }
    if o1 != open_popped {
        vstd::set::axiom_set_insert_len(dom_pre, spec_key(o1.last().1, o1.last().2) as u64);
        vstd::set::axiom_set_insert_finite(dom_pre, spec_key(o1.last().1, o1.last().2) as u64);
    }
    if o2 != o1 {
        vstd::set::axiom_set_insert_len(d1, spec_key(o2.last().1, o2.last().2) as u64);
        vstd::set::axiom_set_insert_finite(d1, spec_key(o2.last().1, o2.last().2) as u64);
    }
    if o3 != o2 {
        vstd::set::axiom_set_insert_len(d2, spec_key(o3.last().1, o3.last().2) as u64);
        vstd::set::axiom_set_insert_finite(d2, spec_key(o3.last().1, o3.last().2) as u64);
    }
    if open4 != o3 {
        vstd::set::axiom_set_insert_len(d3, spec_key(open4.last().1, open4.last().2) as u64);
        vstd::set::axiom_set_insert_finite(d3, spec_key(open4.last().1, open4.last().2) as u64);
    }
    assert(spec_cell_of(k0) == (x, y));
    assert(spec_neighbors_visited(dom4, x, y, matrix_width, matrix_height, matrix));
    assert(spec_expanded(dom4, k0, end, matrix_width, matrix_height, matrix));
    assert forall|k: u64| #[trigger] dom4.contains(k) implies spec_key_in_open(open4, k)
        || spec_expanded(dom4, k, end, matrix_width, matrix_height, matrix) by {
        if k == k0 {
        } else if dom_pre.contains(k) {
            if spec_key_in_open(open_popped, k) {
                let q = choose|q: int|
                    0 <= q < open_popped.len() && spec_key(
                        (#[trigger] open_popped[q]).1,
                        open_popped[q].2,
                    ) == k;
                assert(open4[q] == open_popped[q]);
                assert(spec_key_in_open(open4, k));
            } else {
                assert(spec_expanded(dom_pre, k, end, matrix_width, matrix_height, matrix));
                assert(spec_expanded(dom4, k, end, matrix_width, matrix_height, matrix));
            }
        } else if d1.contains(k) {
            assert(o1 == open_popped.push(o1.last()));
            assert(spec_key(o1.last().1, o1.last().2) == k);
            assert(open4[o1.len() - 1] == o1[o1.len() - 1]);
            assert(spec_key_in_open(open4, k));
        } else if d2.contains(k) {
            assert(o2 == o1.push(o2.last()));
            assert(spec_key(o2.last().1, o2.last().2) == k);
            assert(open4[o2.len() - 1] == o2[o2.len() - 1]);
            assert(spec_key_in_open(open4, k));
        } else if d3.contains(k) {
            assert(o3 == o2.push(o3.last()));
            assert(spec_key(o3.last().1, o3.last().2) == k);
            assert(open4[o3.len() - 1] == o3[o3.len() - 1]);
            assert(spec_key_in_open(open4, k));
        } else {
            assert(open4 == o3.push(open4.last()));
            assert(spec_key(open4.last().1, open4.last().2) == k);
            assert(spec_key_in_open(open4, k));
        }
    }
    assert(spec_frontier_inv(open4, dom4, end, matrix_width, matrix_height, matrix));
}

/// After the four openings the queue is well-formed again.
#[verifier::rlimit(100)]
#[verifier::spinoff_prover]
proof fn lemma_expand_open_ok(
    x: usize,
    y: usize,
    end_x: usize,
    end_y: usize,
    matrix_width: usize,
    matrix_height: usize,
    matrix: Seq<(usize, (usize, usize, usize, usize))>,
    open_popped: Seq<(u64, usize, usize)>,
    o1: Seq<(u64, usize, usize)>,
    o2: Seq<(u64, usize, usize)>,
    o3: Seq<(u64, usize, usize)>,
    open4: Seq<(u64, usize, usize)>,
    dom_pre: Set<u64>,
    d1: Set<u64>,
    d2: Set<u64>,
    d3: Set<u64>,
    dom4: Set<u64>,
    start: (usize, usize),
    big: Set<u64>,
    wtot: int,
    htot: int,
)
    requires
        x <= 0x6000_0000,
        y <= 0x6000_0000,
        end_x <= 0x6000_0000,
        end_y <= 0x6000_0000,
        matrix_width <= 0x6000_0000,
        matrix_height <= 0x6000_0000,
        wtot == matrix_width as int,
        htot == (if matrix_height >= 1 {
            matrix_height as int
        } else {
            1
        }),
        big == spec_grid_keys(wtot * htot, htot).insert(spec_key(start.0, start.1) as u64),
        big.finite(),
        big.len() <= wtot * htot + 1,
        dom_pre.finite(),
        forall|k: u64| #[trigger] dom_pre.contains(k) ==> big.contains(k),
        dom_pre.contains(spec_key(x, y) as u64),
        !spec_near((x, y), (end_x, end_y)),
        spec_opened_step(open_popped, o1, dom_pre, d1, matrix_width, matrix_height),
        spec_opened_step(o1, o2, d1, d2, matrix_width, matrix_height),
        spec_opened_step(o2, o3, d2, d3, matrix_width, matrix_height),
        spec_opened_step(o3, open4, d3, dom4, matrix_width, matrix_height),
        x < matrix_width && y + 1 < matrix_height && !spec_in_obstacle(
            x,
            (y + 1) as usize,
            matrix,
        ) ==> dom4.contains(spec_key(x, (y + 1) as usize) as u64),
        x + 1 < matrix_width && y < matrix_height && !spec_in_obstacle(
            (x + 1) as usize,
            y,
            matrix,
        ) ==> dom4.contains(spec_key((x + 1) as usize, y) as u64),
        y >= 1 && x < matrix_width && y - 1 < matrix_height && !spec_in_obstacle(
            x,
            (y - 1) as usize,
            matrix,
        ) ==> dom4.contains(spec_key(x, (y - 1) as usize) as u64),
        x >= 1 && x - 1 < matrix_width && y < matrix_height && !spec_in_obstacle(
            (x - 1) as usize,
            y,
            matrix,
        ) ==> dom4.contains(spec_key((x - 1) as usize, y) as u64),
        forall|q: int|
            0 <= q < open_popped.len() ==> dom_pre.contains(
                spec_key((#[trigger] open_popped[q]).1, open_popped[q].2) as u64,
            ) && open_popped[q].1 <= 0x6000_0000 && open_popped[q].2 <= 0x6000_0000,
        forall|q1: int, q2: int|
            0 <= q1 < q2 < open_popped.len() ==> spec_key(
                (#[trigger] open_popped[q1]).1,
                open_popped[q1].2,
            ) != spec_key((#[trigger] open_popped[q2]).1, open_popped[q2].2),
        forall|k: u64|
            dom_pre.contains(k) && k != spec_key(x, y) as u64 ==> spec_key_in_open(open_popped, k)
                || #[trigger] spec_expanded(
                dom_pre,
                k,
                (end_x, end_y),
                matrix_width,
                matrix_height,
                matrix,
            ),
    ensures
        spec_open_ok(open4, dom4),
{
    reveal(spec_open_ok);
    let end = (end_x, end_y);
    let k0: u64 = spec_key(x, y) as u64;
    lemma_key_decode(x, y);
    assert forall|q: int| 0 <= q < open_popped.len() implies #[trigger] open4[q]
        == open_popped[q] by {
        assert(o1[q] == open_popped[q]);
        assert(o2[q] == o1[q]);
        assert(o3[q] == o2[q]);
    }
    assert forall|q: int| 0 <= q < o1.len() implies #[trigger] open4[q] == o1[q] by {
        assert(o2[q] == o1[q]);
        assert(o3[q] == o2[q]);
    }
    assert forall|q: int| 0 <= q < o2.len() implies #[trigger] open4[q] == o2[q] by {
        assert(o3[q] == o2[q]);
    }
    assert forall|k: u64| #[trigger] dom_pre.contains(k) implies dom4.contains(k) by {
        assert(d1.contains(k) && d2.contains(k) && d3.contains(k));
    }
    if o1 != open_popped {
        vstd::set::axiom_set_insert_len(dom_pre, spec_key(o1.last().1, o1.last().2) as u64);
        vstd::set::axiom_set_insert_finite(dom_pre, spec_key(o1.last().1, o1.last().2) as u64);
    }
    if o2 != o1 {
        vstd::set::axiom_set_insert_len(d1, spec_key(o2.last().1, o2.last().2) as u64);
        vstd::set::axiom_set_insert_finite(d1, spec_key(o2.last().1, o2.last().2) as u64);
    }
    if o3 != o2 {
        vstd::set::axiom_set_insert_len(d2, spec_key(o3.last().1, o3.last().2) as u64);
        vstd::set::axiom_set_insert_finite(d2, spec_key(o3.last().1, o3.last().2) as u64);
    }
    if open4 != o3 {
        vstd::set::axiom_set_insert_len(d3, spec_key(open4.last().1, open4.last().2) as u64);
        vstd::set::axiom_set_insert_finite(d3, spec_key(open4.last().1, open4.last().2) as u64);
    }
    assert forall|q: int| 0 <= q < open4.len() implies dom4.contains(
        spec_key((#[trigger] open4[q]).1, open4[q].2) as u64,
    ) && open4[q].1 <= 0x6000_0000 && open4[q].2 <= 0x6000_0000 by {
        if q < open_popped.len() {
            assert(open4[q] == open_popped[q]);
        } else if q < o1.len() {
            assert(open4[q] == o1[q]);
            assert(o1 == open_popped.push(o1.last()));
        } else if q < o2.len() {
            assert(open4[q] == o2[q]);
            assert(o2 == o1.push(o2.last()));
        } else if q < o3.len() {
            assert(open4[q] == o3[q]);
            assert(o3 == o2.push(o3.last()));
        } else {
            assert(open4 == o3.push(open4.last()));
        }
    }
    assert forall|q1: int, q2: int| 0 <= q1 < q2 < open4.len() implies spec_key(
        (#[trigger] open4[q1]).1,
        open4[q1].2,
    ) != spec_key((#[trigger] open4[q2]).1, open4[q2].2) by {
        // the earlier entry's key was already recorded when the later
        // entry was pushed, and pushes only add unrecorded keys
        let ka = spec_key(open4[q1].1, open4[q1].2) as u64;
        lemma_key_decode(open4[q1].1, open4[q1].2);
        lemma_key_decode(open4[q2].1, open4[q2].2);
        if q2 < open_popped.len() {
            assert(open4[q1] == open_popped[q1] && open4[q2] == open_popped[q2]);
        } else if q2 < o1.len() {
            assert(o1 == open_popped.push(o1.last()));
            assert(open4[q2] == o1.last());
            assert(dom_pre.contains(ka));
            assert(!dom_pre.contains(spec_key(o1.last().1, o1.last().2) as u64));
        } else if q2 < o2.len() {
            assert(o2 == o1.push(o2.last()));
            assert(open4[q2] == o2.last());
            assert(d1.contains(ka)) by {
                if q1 < open_popped.len() {
                    assert(open4[q1] == open_popped[q1]);
                } else {
                    assert(o1 == open_popped.push(o1.last()));
                    assert(open4[q1] == o1.last());
                }
            }
            assert(!d1.contains(spec_key(o2.last().1, o2.last().2) as u64));
        } else if q2 < o3.len() {
            assert(o3 == o2.push(o3.last()));
            assert(open4[q2] == o3.last());
            assert(d2.contains(ka)) by {
                if q1 < open_popped.len() {
                    assert(open4[q1] == open_popped[q1]);
                } else if q1 < o1.len() {
                    assert(o1 == open_popped.push(o1.last()));
                    assert(open4[q1] == o1.last());
                } else {
                    assert(o2 == o1.push(o2.last()));
                    assert(open4[q1] == o2.last());
                }
            }
            assert(!d2.contains(spec_key(o3.last().1, o3.last().2) as u64));
        } else {
            assert(open4 == o3.push(open4.last()));
            assert(open4[q2] == open4.last());
            assert(d3.contains(ka)) by {
                if q1 < open_popped.len() {
                    assert(open4[q1] == open_popped[q1]);
                } else if q1 < o1.len() {
                    assert(o1 == open_popped.push(o1.last()));
                    assert(open4[q1] == o1.last());
                } else if q1 < o2.len() {
                    assert(o2 == o1.push(o2.last()));
                    assert(open4[q1] == o2.last());
                } else {
                    assert(o3 == o2.push(o3.last()));
                    assert(open4[q1] == o3.last());
                }
            }
            assert(!d3.contains(spec_key(open4.last().1, open4.last().2) as u64));
        }
    }
    assert(spec_open_ok(open4, dom4));
}

/// After the four openings the recorded set still lies in the key
/// pool.
#[verifier::rlimit(100)]
#[verifier::spinoff_prover]
proof fn lemma_expand_pool(
    x: usize,
    y: usize,
    end_x: usize,
    end_y: usize,
    matrix_width: usize,
    matrix_height: usize,
    matrix: Seq<(usize, (usize, usize, usize, usize))>,
    open_popped: Seq<(u64, usize, usize)>,
    o1: Seq<(u64, usize, usize)>,
    o2: Seq<(u64, usize, usize)>,
    o3: Seq<(u64, usize, usize)>,
    open4: Seq<(u64, usize, usize)>,
    dom_pre: Set<u64>,
    d1: Set<u64>,
    d2: Set<u64>,
    d3: Set<u64>,
    dom4: Set<u64>,
    start: (usize, usize),
    big: Set<u64>,
    wtot: int,
    htot: int,
)
    requires
        x <= 0x6000_0000,
        y <= 0x6000_0000,
        end_x <= 0x6000_0000,
        end_y <= 0x6000_0000,
        matrix_width <= 0x6000_0000,
        matrix_height <= 0x6000_0000,
        wtot == matrix_width as int,
        htot == (if matrix_height >= 1 {
            matrix_height as int
        } else {
            1
        }),
        big == spec_grid_keys(wtot * htot, htot).insert(spec_key(start.0, start.1) as u64),
        big.finite(),
        big.len() <= wtot * htot + 1,
        dom_pre.finite(),
        forall|k: u64| #[trigger] dom_pre.contains(k) ==> big.contains(k),
        dom_pre.contains(spec_key(x, y) as u64),
        !spec_near((x, y), (end_x, end_y)),
        spec_opened_step(open_popped, o1, dom_pre, d1, matrix_width, matrix_height),
        spec_opened_step(o1, o2, d1, d2, matrix_width, matrix_height),
        spec_opened_step(o2, o3, d2, d3, matrix_width, matrix_height),
        spec_opened_step(o3, open4, d3, dom4, matrix_width, matrix_height),
        x < matrix_width && y + 1 < matrix_height && !spec_in_obstacle(
            x,
            (y + 1) as usize,
            matrix,
        ) ==> dom4.contains(spec_key(x, (y + 1) as usize) as u64),
        x + 1 < matrix_width && y < matrix_height && !spec_in_obstacle(
            (x + 1) as usize,
            y,
            matrix,
        ) ==> dom4.contains(spec_key((x + 1) as usize, y) as u64),
        y >= 1 && x < matrix_width && y - 1 < matrix_height && !spec_in_obstacle(
            x,
            (y - 1) as usize,
            matrix,
        ) ==> dom4.contains(spec_key(x, (y - 1) as usize) as u64),
        x >= 1 && x - 1 < matrix_width && y < matrix_height && !spec_in_obstacle(
            (x - 1) as usize,
            y,
            matrix,
        ) ==> dom4.contains(spec_key((x - 1) as usize, y) as u64),
        forall|q: int|
            0 <= q < open_popped.len() ==> dom_pre.contains(
                spec_key((#[trigger] open_popped[q]).1, open_popped[q].2) as u64,
            ) && open_popped[q].1 <= 0x6000_0000 && open_popped[q].2 <= 0x6000_0000,
        forall|q1: int, q2: int|
            0 <= q1 < q2 < open_popped.len() ==> spec_key(
                (#[trigger] open_popped[q1]).1,
                open_popped[q1].2,
            ) != spec_key((#[trigger] open_popped[q2]).1, open_popped[q2].2),
        forall|k: u64|
            dom_pre.contains(k) && k != spec_key(x, y) as u64 ==> spec_key_in_open(open_popped, k)
                || #[trigger] spec_expanded(
                dom_pre,
                k,
                (end_x, end_y),
                matrix_width,
                matrix_height,
                matrix,
            ),
    ensures
        forall|k: u64| #[trigger] dom4.contains(k) ==> big.contains(k),
        dom4.finite(),
        dom4.len() <= wtot * htot + 1,
{
    reveal(spec_open_ok);
    let end = (end_x, end_y);
    let k0: u64 = spec_key(x, y) as u64;
    lemma_key_decode(x, y);
    assert forall|q: int| 0 <= q < open_popped.len() implies #[trigger] open4[q]
        == open_popped[q] by {
        assert(o1[q] == open_popped[q]);
        assert(o2[q] == o1[q]);
        assert(o3[q] == o2[q]);
    }
    assert forall|q: int| 0 <= q < o1.len() implies #[trigger] open4[q] == o1[q] by {
        assert(o2[q] == o1[q]);
        assert(o3[q] == o2[q]);
    }
    assert forall|q: int| 0 <= q < o2.len() implies #[trigger] open4[q] == o2[q] by {
        assert(o3[q] == o2[q]);
    }
    assert forall|k: u64| #[trigger] dom_pre.contains(k) implies dom4.contains(k) by {
        assert(d1.contains(k) && d2.contains(k) && d3.contains(k));
    }
    if o1 != open_popped {
        vstd::set::axiom_set_insert_len(dom_pre, spec_key(o1.last().1, o1.last().2) as u64);
        vstd::set::axiom_set_insert_finite(dom_pre, spec_key(o1.last().1, o1.last().2) as u64);
    }
    if o2 != o1 {
        vstd::set::axiom_set_insert_len(d1, spec_key(o2.last().1, o2.last().2) as u64);
        vstd::set::axiom_set_insert_finite(d1, spec_key(o2.last().1, o2.last().2) as u64);
    }
    if o3 != o2 {
        vstd::set::axiom_set_insert_len(d2, spec_key(o3.last().1, o3.last().2) as u64);
        vstd::set::axiom_set_insert_finite(d2, spec_key(o3.last().1, o3.last().2) as u64);
    }
    if open4 != o3 {
        vstd::set::axiom_set_insert_len(d3, spec_key(open4.last().1, open4.last().2) as u64);
        vstd::set::axiom_set_insert_finite(d3, spec_key(open4.last().1, open4.last().2) as u64);
    }
    assert forall|k: u64| #[trigger] dom4.contains(k) implies big.contains(k) by {
        if !dom_pre.contains(k) {
            let cell = spec_cell_of(k);
            assert(spec_in_grid(cell.0, cell.1, matrix_width, matrix_height) && cell.0
                <= 0x6000_0000 && cell.1 <= 0x6000_0000) by {
                if d1.contains(k) && !dom_pre.contains(k) {
                    lemma_key_decode(o1.last().1, o1.last().2);
                } else if d2.contains(k) && !d1.contains(k) {
                    lemma_key_decode(o2.last().1, o2.last().2);
                } else if d3.contains(k) && !d2.contains(k) {
                    lemma_key_decode(o3.last().1, o3.last().2);
                } else {
                    lemma_key_decode(open4.last().1, open4.last().2);
                }
            }
            assert(matrix_height >= 1);
            lemma_grid_keys_contains(wtot, htot, cell.0, cell.1);
            lemma_key_decode(cell.0, cell.1);
            assert(spec_key(cell.0, cell.1) == k as int);
            assert(spec_grid_keys(wtot * htot, htot).contains(k));
        }
    }
    vstd::set_lib::lemma_len_subset(dom4, big);
}

/// Expands one dequeued cell: opens its four neighbours and thereby
/// finishes processing it — afterwards every recorded cell is again
/// queued or fully processed, and the queue grew exactly by the newly
/// recorded cells.
#[verifier::rlimit(100)]
#[verifier::spinoff_prover]
fn expand_cell(
    open_set: &mut Vec<(u64, usize, usize)>,
    came_from: &mut HashMap<u64, (usize, usize)>,
    g_score: &mut HashMap<u64, u64>,
    x: usize,
    y: usize,
    end_x: usize,
    end_y: usize,
    matrix_width: usize,
    matrix_height: usize,
    matrix: &Vec<(usize, (usize, usize, usize, usize))>,
    Ghost(start): Ghost<(usize, usize)>,
    Ghost(big): Ghost<Set<u64>>,
    Ghost(wtot): Ghost<int>,
    Ghost(htot): Ghost<int>,
)
    requires
        spec_search_inv(old(came_from)@, old(g_score)@, start, matrix_width, matrix_height, matrix@),
        forall|k: u64| #[trigger] old(g_score)@.dom().contains(k)
            ==> old(g_score)@[k] <= old(g_score)@.dom().len(),
        old(g_score)@.dom().finite(),
        forall|k: u64| #[trigger] old(g_score)@.dom().contains(k) ==> big.contains(k),
        big.finite(),
        big == spec_grid_keys(wtot * htot, htot).insert(spec_key(start.0, start.1) as u64),
        big.len() <= wtot * htot + 1,
        old(g_score)@.dom().len() <= wtot * htot + 1,
        wtot * htot + 1 <= 0x2400_0000_0000_0001,
        wtot == matrix_width as int,
        htot == (if matrix_height >= 1 {
            matrix_height as int
        } else {
            1
        }),
        x <= 0x6000_0000,
        y <= 0x6000_0000,
        end_x <= 0x6000_0000,
        end_y <= 0x6000_0000,
        matrix_width <= 0x6000_0000,
        matrix_height <= 0x6000_0000,
        old(g_score)@.dom().contains(spec_key(x, y) as u64),
        !spec_near((x, y), (end_x, end_y)),
        spec_open_ok(old(open_set)@, old(g_score)@.dom()),
        forall|k: u64|
            old(g_score)@.dom().contains(k) && k != spec_key(x, y) as u64
                ==> spec_key_in_open(old(open_set)@, k) || #[trigger] spec_expanded(
                old(g_score)@.dom(),
                k,
                (end_x, end_y),
                matrix_width,
                matrix_height,
                matrix@,
            ),
    ensures
        spec_search_inv(
            final(came_from)@,
            final(g_score)@,
            start,
            matrix_width,
            matrix_height,
            matrix@,
        ),
        forall|k: u64| #[trigger] final(g_score)@.dom().contains(k)
            ==> final(g_score)@[k] <= final(g_score)@.dom().len(),
        final(g_score)@.dom().finite(),
        forall|k: u64| #[trigger] final(g_score)@.dom().contains(k) ==> big.contains(k),
        final(g_score)@.dom().len() <= wtot * htot + 1,
        forall|k: u64| #[trigger] old(g_score)@.dom().contains(k) ==> final(g_score)@.dom().contains(
            k,
        ),
        spec_open_ok(final(open_set)@, final(g_score)@.dom()),
        spec_frontier_inv(
            final(open_set)@,
            final(g_score)@.dom(),
            (end_x, end_y),
            matrix_width,
            matrix_height,
            matrix@,
        ),
        final(open_set)@.len() + old(g_score)@.dom().len() == old(open_set)@.len()
            + final(g_score)@.dom().len(),
        old(g_score)@.dom().len() <= final(g_score)@.dom().len(),
{
    let ghost k0: u64 = spec_key(x, y) as u64;
    proof {
        reveal(spec_open_ok);
        lemma_key_decode(x, y);
    }
    let ghost dom_pre = g_score@.dom();
    let ghost open_popped = open_set@;
    let gk: u64 = (x as u64) * KEY_BASE + (y as u64);
    let gcur: u64 = match g_score.get(&gk) {
        Option::Some(v) => *v,
        Option::None => 0,
    };
    proof {
        assert(g_score@.dom().contains(gk));
        assert(gcur == g_score@[gk]);
    }
    let ghost dom_pre = g_score@.dom();
    let ghost open_popped = open_set@;
    if y < matrix_height {
        open_neighbor(
            open_set,
            came_from,
            g_score,
            x,
            y,
            x,
            y + STEP_SIZE,
            gcur,
            end_x,
            end_y,
            matrix_width,
            matrix_height,
            matrix,
            Ghost(start),
        );
    }
    let ghost d1 = g_score@.dom();
    let ghost o1 = open_set@;
    if x < matrix_width {
        open_neighbor(
            open_set,
            came_from,
            g_score,
            x,
            y,
            x + STEP_SIZE,
            y,
            gcur,
            end_x,
            end_y,
            matrix_width,
            matrix_height,
            matrix,
            Ghost(start),
        );
    }
    let ghost d2 = g_score@.dom();
    let ghost o2 = open_set@;
    if y >= STEP_SIZE {
        open_neighbor(
            open_set,
            came_from,
            g_score,
            x,
            y,
            x,
            y - STEP_SIZE,
            gcur,
            end_x,
            end_y,
            matrix_width,
            matrix_height,
            matrix,
            Ghost(start),
        );
    }
    let ghost d3 = g_score@.dom();
    let ghost o3 = open_set@;
    if x >= STEP_SIZE {
        open_neighbor(
            open_set,
            came_from,
            g_score,
            x,
            y,
            x - STEP_SIZE,
            y,
            gcur,
            end_x,
            end_y,
            matrix_width,
            matrix_height,
            matrix,
            Ghost(start),
        );
    }
    proof {
        reveal(spec_search_inv);
        reveal(spec_open_ok);
        let dom4 = g_score@.dom();
        let open4 = open_set@;
        // each guarded call made at most one opening step
        assert(spec_opened_step(open_popped, o1, dom_pre, d1, matrix_width, matrix_height));
        assert(spec_opened_step(o1, o2, d1, d2, matrix_width, matrix_height));
        assert(spec_opened_step(o2, o3, d2, d3, matrix_width, matrix_height));
        assert(spec_opened_step(o3, open4, d3, dom4, matrix_width, matrix_height));
        // each free in-grid neighbour was opened by its call
        assert(x < matrix_width && y + 1 < matrix_height && !spec_in_obstacle(
            x,
            (y + 1) as usize,
            matrix@,
        ) ==> d1.contains(spec_key(x, (y + 1) as usize) as u64));
        assert(x + 1 < matrix_width && y < matrix_height && !spec_in_obstacle(
            (x + 1) as usize,
            y,
            matrix@,
        ) ==> d2.contains(spec_key((x + 1) as usize, y) as u64));
        assert(y >= 1 && x < matrix_width && y - 1 < matrix_height && !spec_in_obstacle(
            x,
            (y - 1) as usize,
            matrix@,
        ) ==> d3.contains(spec_key(x, (y - 1) as usize) as u64));
        assert(x >= 1 && x - 1 < matrix_width && y < matrix_height && !spec_in_obstacle(
            (x - 1) as usize,
            y,
            matrix@,
        ) ==> dom4.contains(spec_key((x - 1) as usize, y) as u64));
        assert forall|k: u64| #[trigger] d1.contains(k) implies dom4.contains(k) by {
            assert(d2.contains(k) && d3.contains(k));
        }
        assert forall|k: u64| #[trigger] d2.contains(k) implies dom4.contains(k) by {
            assert(d3.contains(k));
        }
        lemma_expand_frontier_core(
            x,
            y,
            end_x,
            end_y,
            matrix_width,
            matrix_height,
            matrix@,
            open_popped,
            o1,
            o2,
            o3,
            open4,
            dom_pre,
            d1,
            d2,
            d3,
            dom4,
            start,
            big,
            wtot,
            htot,
        );
        lemma_expand_open_ok(
            x,
            y,
            end_x,
            end_y,
            matrix_width,
            matrix_height,
            matrix@,
            open_popped,
            o1,
            o2,
            o3,
            open4,
            dom_pre,
            d1,
            d2,
            d3,
            dom4,
            start,
            big,
            wtot,
            htot,
        );
        lemma_expand_pool(
            x,
            y,
            end_x,
            end_y,
            matrix_width,
            matrix_height,
            matrix@,
            open_popped,
            o1,
            o2,
            o3,
            open4,
            dom_pre,
            d1,
            d2,
            d3,
            dom4,
            start,
            big,
            wtot,
            htot,
        );
    }
}

/// Runs a four-directional grid search from the start cell towards the
/// end cell over the obstacle map. A non-empty answer is a path of the
/// promised shape; an empty answer means the search closed every free
/// cell reachable from the start without coming within one step of the
/// end, so no such path exists.
#[verifier::rlimit(100)]
#[verifier::spinoff_prover]
pub fn find_path(
    cur_x: usize,
    cur_y: usize,
    end_x: usize,
    end_y: usize,
    matrix_width: usize,
    matrix_height: usize,
    matrix: &Vec<(usize, (usize, usize, usize, usize))>,
) -> (path: Vec<(usize, usize)>)
    requires
        cur_x <= 0x6000_0000,
        cur_y <= 0x6000_0000,
        end_x <= 0x6000_0000,
        end_y <= 0x6000_0000,
        matrix_width <= 0x6000_0000,
        matrix_height <= 0x6000_0000,
    ensures
        path@.len() > 0 ==> spec_path_ok(
            path@,
            (cur_x, cur_y),
            (end_x, end_y),
            matrix_width,
            matrix_height,
            matrix@,
        ),
        path@.len() == 0 ==> spec_search_exhausted(
            (cur_x, cur_y),
            (end_x, end_y),
            matrix_width,
            matrix_height,
            matrix@,
        ),
{
    let start: (usize, usize) = (cur_x, cur_y);
    let start_key: u64 = (cur_x as u64) * KEY_BASE + (cur_y as u64);
    proof {
        lemma_key_decode(cur_x, cur_y);
    }
    let mut open_set: Vec<(u64, usize, usize)> = Vec::new();
    open_set.push((0, cur_x, cur_y));
    let mut came_from: HashMap<u64, (usize, usize)> = HashMap::new();
    let mut g_score: HashMap<u64, u64> = HashMap::new();
    g_score.insert(start_key, 0);
    let ghost wtot: int = matrix_width as int;
    let ghost htot: int = if matrix_height >= 1 {
        matrix_height as int
    } else {
        1
    };
    let ghost cap: int = wtot * htot + 1;
    let ghost big: Set<u64> = spec_grid_keys(wtot * htot, htot).insert(start_key);
    proof {
        reveal(spec_search_inv);
        assert(spec_search_inv(came_from@, g_score@, start, matrix_width, matrix_height, matrix@));
        assert(wtot * htot >= 0) by (nonlinear_arith)
            requires
                wtot >= 0,
                htot >= 1,
        ;
        lemma_grid_keys_size(wtot * htot, htot);
        vstd::set::axiom_set_insert_finite(spec_grid_keys(wtot * htot, htot), start_key);
        vstd::set::axiom_set_insert_len(spec_grid_keys(wtot * htot, htot), start_key);
        assert(big.finite() && big.len() <= cap);
        assert(g_score@.dom() =~= Set::<u64>::empty().insert(start_key));
        vstd::set::axiom_set_insert_len(Set::<u64>::empty(), start_key);
        vstd::set::axiom_set_insert_finite(Set::<u64>::empty(), start_key);
        assert(spec_key(open_set@[0].1, open_set@[0].2) == start_key);
        assert(spec_key_in_open(open_set@, start_key));
        reveal(spec_open_ok);
        assert(spec_open_ok(open_set@, g_score@.dom()));
        reveal(spec_frontier_inv);
        assert(spec_frontier_inv(
            open_set@,
            g_score@.dom(),
            (end_x, end_y),
            matrix_width,
            matrix_height,
            matrix@,
        ));
        assert(cap <= 0x2400_0000_0000_0001) by (nonlinear_arith)
            requires
                0 <= wtot <= 0x6000_0000,
                1 <= htot <= 0x6000_0000,
                cap == wtot * htot + 1,
        ;
    }
    loop
        invariant
            start == (cur_x, cur_y),
            cur_x <= 0x6000_0000,
            cur_y <= 0x6000_0000,
            end_x <= 0x6000_0000,
            end_y <= 0x6000_0000,
            matrix_width <= 0x6000_0000,
            matrix_height <= 0x6000_0000,
            start_key == spec_key(cur_x, cur_y),
            wtot == matrix_width as int,
            htot == (if matrix_height >= 1 {
                matrix_height as int
            } else {
                1
            }),
            cap == wtot * htot + 1,
            cap <= 0x2400_0000_0000_0001,
            big == spec_grid_keys(wtot * htot, htot).insert(start_key),
            big.finite(),
            big.len() <= cap,
            spec_search_inv(came_from@, g_score@, start, matrix_width, matrix_height, matrix@),
            forall|k: u64| #[trigger] g_score@.dom().contains(k) ==> g_score@[k] <= g_score@.dom().len(),
            g_score@.dom().finite(),
            forall|k: u64| #[trigger] g_score@.dom().contains(k) ==> big.contains(k),
            g_score@.dom().len() <= cap,
            g_score@.dom().contains(start_key),
            spec_open_ok(open_set@, g_score@.dom()),
            spec_frontier_inv(
                open_set@,
                g_score@.dom(),
                (end_x, end_y),
                matrix_width,
                matrix_height,
                matrix@,
            ),
        ensures
            open_set@.len() == 0,
        decreases cap - g_score@.dom().len(), open_set@.len(),
    {
        if open_set.len() == 0 {
            break;
        }
        // pop the entry with the least estimate, ties to the latest grid
        // position, as a binary max-heap over the negated estimate would
        let mut best: usize = 0;
        let mut q: usize = 1;
        while q < open_set.len()
            invariant
                open_set@.len() > 0,
                0 <= best < open_set@.len(),
                1 <= q <= open_set@.len(),
            decreases open_set@.len() - q,
        {
            let a = open_set[q];
            let b = open_set[best];
            if a.0 < b.0 || (a.0 == b.0 && (a.1 > b.1 || (a.1 == b.1 && a.2 > b.2))) {
                best = q;
            }
            q += 1;
        }
        let ghost open_pre = open_set@;
        let entry = open_set.swap_remove(best);
        let x = entry.1;
        let y = entry.2;
        let ghost k0: u64 = spec_key(x, y) as u64;
        proof {
            reveal(spec_open_ok);
            lemma_key_decode(x, y);
            assert(open_pre[best as int] == entry);
            assert(open_set@ =~= open_pre.update(best as int, open_pre.last()).drop_last());
            lemma_open_after_pop(open_pre, open_set@, best as int);
        }
        let dx: usize = if x >= end_x {
            x - end_x
        } else {
            end_x - x
        };
        let dy: usize = if y >= end_y {
            y - end_y
        } else {
            end_y - y
        };
        if dx <= STEP_SIZE && dy <= STEP_SIZE {
            let path = reconstruct_path(
                &came_from,
                &g_score,
                (x, y),
                start,
                matrix_width,
                matrix_height,
                matrix,
            );
            proof {
                assert(spec_near((x, y), (end_x, end_y)));
            }
            return path;
        }
        let gk: u64 = (x as u64) * KEY_BASE + (y as u64);
        let gcur: u64 = match g_score.get(&gk) {
            Option::Some(v) => *v,
            Option::None => 0,
        };
        proof {
            assert(g_score@.dom().contains(gk));
            assert(gcur == g_score@[gk]);
        }
        proof {
            assert(!spec_near((x, y), (end_x, end_y)));
            reveal(spec_frontier_inv);
            assert forall|k: u64|
                g_score@.dom().contains(k) && k != spec_key(x, y) as u64 implies spec_key_in_open(
                open_set@,
                k,
            ) || #[trigger] spec_expanded(
                g_score@.dom(),
                k,
                (end_x, end_y),
                matrix_width,
                matrix_height,
                matrix@,
            ) by {
                assert(spec_key_in_open(open_pre, k) || spec_expanded(
                    g_score@.dom(),
                    k,
                    (end_x, end_y),
                    matrix_width,
                    matrix_height,
                    matrix@,
                ));
            }
        }
        expand_cell(
            &mut open_set,
            &mut came_from,
            &mut g_score,
            x,
            y,
            end_x,
            end_y,
            matrix_width,
            matrix_height,
            matrix,
            Ghost(start),
            Ghost(big),
            Ghost(wtot),
            Ghost(htot),
        );
    }
    proof {
        reveal(spec_frontier_inv);
        assert forall|k: u64| #[trigger] g_score@.dom().contains(k) implies spec_expanded(
            g_score@.dom(),
            k,
            (end_x, end_y),
            matrix_width,
            matrix_height,
            matrix@,
        ) by {
            assert(!spec_key_in_open(open_set@, k));
        }
        assert(g_score@.dom().contains(spec_key(start.0, start.1) as u64));
        assert(spec_search_exhausted(
            (cur_x, cur_y),
            (end_x, end_y),
            matrix_width,
            matrix_height,
            matrix@,
        ));
    }
    Vec::new()
}

/// A cell outside the obstacle map is outside every placed node's
/// expanded rectangle.
proof fn lemma_free_cell_avoids_nodes(
    pools: Seq<Pool>,
    obs: Seq<(usize, (usize, usize, usize, usize))>,
    x: usize,
    y: usize,
)
    requires
        spec_obstacles_ok(pools, obs),
        !spec_in_obstacle(x, y, obs),
    ensures
        !spec_in_some_node_rect(pools, x, y),
{
    if spec_in_some_node_rect(pools, x, y) {
        let (pi, li, ni) = choose|pi: int, li: int, ni: int|
            0 <= pi < pools.len() && 0 <= li < (#[trigger] pools[pi]).lanes@.len() && 0 <= ni
                < (#[trigger] pools[pi].lanes@[li]).layers@.len() && spec_placed(
                #[trigger] pools[pi].lanes@[li].layers@[ni],
            ) && spec_in_rect(x as int, y as int, spec_rect_of(pools[pi].lanes@[li].layers@[ni]));
        let entry = (
            pools[pi].lanes@[li].layers@[ni].id,
            spec_rect_of(pools[pi].lanes@[li].layers@[ni]),
        );
        assert(obs.contains(entry));
        let k = choose|k: int| 0 <= k < obs.len() && obs[k] == entry;
        assert(spec_in_rect(x as int, y as int, obs[k].1));
    }
}

/// One of the three exit candidates of an expanded rectangle: the
/// boundary point `p` is the top, right or bottom midpoint of the
/// unexpanded box (the margin undone), and `c` the matching search cell
/// on the expanded rectangle, one margin further out.
pub open spec fn spec_exit_pair(
    r: (usize, usize, usize, usize),
    p: (usize, usize),
    c: (usize, usize),
) -> bool {
    let cx = r.0 + (r.2 - r.0) / 2;
    let my = r.1 + (r.3 - r.1) / 2;
    ||| (p == ((cx as usize, (r.1 + 20) as usize)) && c == ((cx as usize, r.1)))
    ||| (p == (((r.2 - 20) as usize, my as usize)) && c == ((r.2, my as usize)))
    ||| (p == ((cx as usize, (r.3 - 20) as usize)) && c == ((cx as usize, r.3)))
}

/// One of the three entry candidates of an expanded rectangle: the
/// boundary point `p` is the top, left or bottom midpoint of the
/// unexpanded box, and `c` the matching search cell on the expanded
/// rectangle, one margin further out.
pub open spec fn spec_entry_cand(
    r: (usize, usize, usize, usize),
    p: (usize, usize),
    c: (usize, usize),
) -> bool {
    let cx = r.0 + (r.2 - r.0) / 2;
    let my = r.1 + (r.3 - r.1) / 2;
    ||| (p == ((cx as usize, (r.1 + 20) as usize)) && c == ((cx as usize, r.1)))
    ||| (p == (((r.0 + 20) as usize, my as usize)) && c == ((r.0, my as usize)))
    ||| (p == ((cx as usize, (r.3 - 20) as usize)) && c == ((cx as usize, r.3)))
}

/// The path's last two waypoints against the target's expanded rectangle:
/// the final waypoint is one of the three entry boundary midpoints and
/// the waypoint before it lies within a grid step of that candidate's
/// search cell on the expanded rectangle.
pub open spec fn spec_entry_pair(
    r: (usize, usize, usize, usize),
    p: (usize, usize),
    q: (usize, usize),
) -> bool {
    let cx = r.0 + (r.2 - r.0) / 2;
    let my = r.1 + (r.3 - r.1) / 2;
    ||| (p == ((cx as usize, (r.1 + 20) as usize)) && spec_near(q, ((cx as usize, r.1))))
    ||| (p == (((r.0 + 20) as usize, my as usize)) && spec_near(q, ((r.0, my as usize))))
    ||| (p == ((cx as usize, (r.3 - 20) as usize)) && spec_near(q, ((cx as usize, r.3))))
}

/// One of the three exit search cells of an expanded rectangle: the top,
/// right or bottom midpoint of the expanded box itself.
pub open spec fn spec_exit_cell(r: (usize, usize, usize, usize), c: (usize, usize)) -> bool {
    let cx = r.0 + (r.2 - r.0) / 2;
    let my = r.1 + (r.3 - r.1) / 2;
    ||| c == ((cx as usize, r.1))
    ||| c == ((r.2, my as usize))
    ||| c == ((cx as usize, r.3))
}

/// One of the three entry search cells of an expanded rectangle: the top,
/// left or bottom midpoint of the expanded box itself.
pub open spec fn spec_entry_cell(r: (usize, usize, usize, usize), c: (usize, usize)) -> bool {
    let cx = r.0 + (r.2 - r.0) / 2;
    let my = r.1 + (r.3 - r.1) / 2;
    ||| c == ((cx as usize, r.1))
    ||| c == ((r.0, my as usize))
    ||| c == ((cx as usize, r.3))
}

/// Every one of the nine exit/entry candidate pairs between the two
/// rectangles exhausts its grid search without coming within a step of
/// the entry cell.
pub open spec fn spec_candidates_exhausted(
    obs: Seq<(usize, (usize, usize, usize, usize))>,
    w: usize,
    h: usize,
    fr: (usize, usize, usize, usize),
    tr: (usize, usize, usize, usize),
) -> bool {
    forall|ec: (usize, usize), nc: (usize, usize)|
        spec_exit_cell(fr, ec) && spec_entry_cell(tr, nc) ==> #[trigger] spec_search_exhausted(
            ec,
            nc,
            w,
            h,
            obs,
        )
}

/// Why an edge between two placed endpoints may be left unrouted: over
/// the obstacle map of the placed nodes and a bounding grid that covers
/// every expanded rectangle, all nine exit/entry candidate searches
/// close without reaching the entry cell's neighbourhood — by
/// `lemma_exhausted_blocks_paths`, no free four-directional route joins
/// any candidate pair.
pub open spec fn spec_edge_unroutable(pools: Seq<Pool>, e_from: usize, e_to: usize) -> bool {
    exists|
        obs: Seq<(usize, (usize, usize, usize, usize))>,
        w: usize,
        h: usize,
        fr: (usize, usize, usize, usize),
        tr: (usize, usize, usize, usize),
    |
        #![trigger spec_obstacles_ok(pools, obs), spec_candidates_exhausted(obs, w, h, fr, tr)]
        {
            &&& spec_obstacles_ok(pools, obs)
            &&& obs.contains((e_from, fr))
            &&& obs.contains((e_to, tr))
            &&& w <= 0x6000_0000
            &&& h <= 0x6000_0000
            &&& forall|k: int|
                0 <= k < obs.len() ==> (#[trigger] obs[k]).1.2 <= w && obs[k].1.3 <= h
            &&& spec_candidates_exhausted(obs, w, h, fr, tr)
        }
}

/// One routed edge: at least the exit and entry boundary points and one
/// grid cell between them; orthogonal unit steps along the grid part;
/// every interior waypoint past the exit cell clear of every placed
/// node's expanded rectangle; the first point one of the source node's
/// three exit boundary midpoints with the second point its search cell
/// one margin further out, and the last point one of the target node's
/// three entry boundary midpoints with the point before it within a grid
/// step of that candidate's search cell.
pub open spec fn spec_edge_routed(
    pools: Seq<Pool>,
    e_from: usize,
    e_to: usize,
    pts: Seq<(usize, usize)>,
) -> bool {
    &&& pts.len() >= 3
    &&& forall|i: int|
        2 <= i < pts.len() - 1 ==> !spec_in_some_node_rect(pools, (#[trigger] pts[i]).0, pts[i].1)
    &&& forall|i: int| 1 <= i < pts.len() - 2 ==> spec_adjacent(#[trigger] pts[i], pts[i + 1])
    &&& exists|pi: int, li: int, ni: int|
        0 <= pi < pools.len() && 0 <= li < (#[trigger] pools[pi]).lanes@.len() && 0 <= ni
            < (#[trigger] pools[pi].lanes@[li]).layers@.len() && (#[trigger] pools[pi].lanes@[li].layers@[ni]).id
            == e_from && spec_placed(pools[pi].lanes@[li].layers@[ni]) && spec_exit_pair(
            spec_rect_of(pools[pi].lanes@[li].layers@[ni]),
            pts[0],
            pts[1],
        )
    &&& exists|pi: int, li: int, ni: int|
        0 <= pi < pools.len() && 0 <= li < (#[trigger] pools[pi]).lanes@.len() && 0 <= ni
            < (#[trigger] pools[pi].lanes@[li]).layers@.len() && (#[trigger] pools[pi].lanes@[li].layers@[ni]).id
            == e_to && spec_placed(pools[pi].lanes@[li].layers@[ni]) && spec_entry_pair(
            spec_rect_of(pools[pi].lanes@[li].layers@[ni]),
            pts.last(),
            pts[pts.len() - 2],
        )
}

/// Builds the obstacle map: every placed node's expanded rectangle keyed
/// by node id, and the bounding grid that encloses them all with padding.
fn build_obstacle_map(pools: &Vec<Pool>) -> (r: (
    Vec<(usize, (usize, usize, usize, usize))>,
    usize,
    usize,
))
    requires
        spec_routing_limits(pools@),
    ensures
        spec_obstacles_ok(pools@, r.0@),
        r.1 <= 0x6000_0000,
        r.2 <= 0x6000_0000,
        forall|k: int|
            0 <= k < r.0@.len() ==> {
                let rect = (#[trigger] r.0@[k]).1;
                &&& rect.0 + 40 <= rect.2
                &&& rect.1 + 40 <= rect.3
                &&& rect.2 <= 0x4200_0000
                &&& rect.3 <= 0x4200_0000
                &&& rect.2 <= r.1
                &&& rect.3 <= r.2
            },
{
    let mut matrix: Vec<(usize, (usize, usize, usize, usize))> = Vec::new();
    let mut matrix_width: usize = 0;
    let mut matrix_height: usize = 0;
    let np = pools.len();
    let mut pi: usize = 0;
    while pi < np
        invariant
            np == pools@.len(),
            0 <= pi <= np,
            spec_routing_limits(pools@),
            matrix_width <= 0x4300_0000,
            matrix_height <= 0x4300_0000,
            forall|k: int| 0 <= k < matrix@.len() ==> spec_entry_matches(pools@, #[trigger] matrix@[k]),
            forall|a: int, b: int, c: int|
                0 <= a < pi && 0 <= b < (#[trigger] pools@[a]).lanes@.len() && 0 <= c
                    < (#[trigger] pools@[a].lanes@[b]).layers@.len() && spec_placed(
                    #[trigger] pools@[a].lanes@[b].layers@[c],
                ) ==> matrix@.contains(
                    (
                        pools@[a].lanes@[b].layers@[c].id,
                        spec_rect_of(pools@[a].lanes@[b].layers@[c]),
                    ),
                ),
            forall|k: int|
                0 <= k < matrix@.len() ==> {
                    let rect = (#[trigger] matrix@[k]).1;
                    &&& rect.0 + 40 <= rect.2
                    &&& rect.1 + 40 <= rect.3
                    &&& rect.2 <= 0x4200_0000
                    &&& rect.3 <= 0x4200_0000
                    &&& rect.2 <= matrix_width
                    &&& rect.3 <= matrix_height
                },
        decreases np - pi,
    {
        let nl = pools[pi].lanes.len();
        let mut li: usize = 0;
        while li < nl
            invariant
                np == pools@.len(),
                0 <= pi < np,
                nl == pools@[pi as int].lanes@.len(),
                0 <= li <= nl,
                spec_routing_limits(pools@),
                matrix_width <= 0x4300_0000,
                matrix_height <= 0x4300_0000,
                forall|k: int| 0 <= k < matrix@.len() ==> spec_entry_matches(pools@, #[trigger] matrix@[k]),
                forall|a: int, b: int, c: int|
                    0 <= a < pools@.len() && 0 <= b < (#[trigger] pools@[a]).lanes@.len() && 0 <= c
                        < (#[trigger] pools@[a].lanes@[b]).layers@.len() && spec_placed(
                        #[trigger] pools@[a].lanes@[b].layers@[c],
                    ) && (a < pi || (a == pi && b < li)) ==> matrix@.contains(
                        (
                            pools@[a].lanes@[b].layers@[c].id,
                            spec_rect_of(pools@[a].lanes@[b].layers@[c]),
                        ),
                    ),
                forall|k: int|
                    0 <= k < matrix@.len() ==> {
                        let rect = (#[trigger] matrix@[k]).1;
                        &&& rect.0 + 40 <= rect.2
                        &&& rect.1 + 40 <= rect.3
                        &&& rect.2 <= 0x4200_0000
                        &&& rect.3 <= 0x4200_0000
                        &&& rect.2 <= matrix_width
                        &&& rect.3 <= matrix_height
                    },
            decreases nl - li,
        {
            let nn = pools[pi].lanes[li].layers.len();
            let mut ni: usize = 0;
            while ni < nn
                invariant
                    np == pools@.len(),
                    0 <= pi < np,
                    nl == pools@[pi as int].lanes@.len(),
                    0 <= li < nl,
                    nn == pools@[pi as int].lanes@[li as int].layers@.len(),
                    0 <= ni <= nn,
                    spec_routing_limits(pools@),
                    matrix_width <= 0x4300_0000,
                    matrix_height <= 0x4300_0000,
                    forall|k: int| 0 <= k < matrix@.len() ==> spec_entry_matches(pools@, #[trigger] matrix@[k]),
                    forall|a: int, b: int, c: int|
                        0 <= a < pools@.len() && 0 <= b < (#[trigger] pools@[a]).lanes@.len() && 0 <= c
                            < (#[trigger] pools@[a].lanes@[b]).layers@.len() && spec_placed(
                            #[trigger] pools@[a].lanes@[b].layers@[c],
                        ) && (a < pi || (a == pi && b < li) || (a == pi && b == li && c < ni))
                            ==> matrix@.contains(
                            (
                                pools@[a].lanes@[b].layers@[c].id,
                                spec_rect_of(pools@[a].lanes@[b].layers@[c]),
                            ),
                        ),
                    forall|k: int|
                        0 <= k < matrix@.len() ==> {
                            let rect = (#[trigger] matrix@[k]).1;
                            &&& rect.0 + 40 <= rect.2
                            &&& rect.1 + 40 <= rect.3
                            &&& rect.2 <= 0x4200_0000
                            &&& rect.3 <= 0x4200_0000
                            &&& rect.2 <= matrix_width
                            &&& rect.3 <= matrix_height
                        },
                decreases nn - ni,
            {
                let node_ref = &pools[pi].lanes[li].layers[ni];
                let placed = match (node_ref.x, node_ref.y, node_ref.x_offset, node_ref.y_offset) {
                    (Option::Some(_), Option::Some(_), Option::Some(_), Option::Some(_)) => true,
                    _ => false,
                };
                if placed {
                    let x = match node_ref.x {
                        Option::Some(v) => v,
                        Option::None => 0,
                    };
                    let y = match node_ref.y {
                        Option::Some(v) => v,
                        Option::None => 0,
                    };
                    let xo = match node_ref.x_offset {
                        Option::Some(v) => v,
                        Option::None => 0,
                    };
                    let yo = match node_ref.y_offset {
                        Option::Some(v) => v,
                        Option::None => 0,
                    };
                    let dims: (usize, usize) = match &node_ref.event {
                        Option::Some(e) => crate::common::bpmn_event::get_node_size(e),
                        Option::None => (100, 80),
                    };
                    proof {
                        crate::layout::node_positioning::lemma_node_dims_bounds(*node_ref);
                    }
                    let x2: usize = x + xo + dims.0 + 20;
                    let y2: usize = y + yo + dims.1 + 20;
                    if x2 > matrix_width {
                        matrix_width = x2 + 50;
                    }
                    if y2 > matrix_height {
                        matrix_height = y2 + 50;
                    }
                    let ghost pre = matrix@;
                    matrix.push((node_ref.id, (x + xo - 20, y + yo - 20, x2, y2)));
                    proof {
                        assert(spec_placed(pools@[pi as int].lanes@[li as int].layers@[ni as int]));
                        assert(matrix@.last() == (
                            pools@[pi as int].lanes@[li as int].layers@[ni as int].id,
                            spec_rect_of(pools@[pi as int].lanes@[li as int].layers@[ni as int]),
                        ));
                        assert(spec_entry_matches(pools@, matrix@.last()));
                        assert forall|k: int| 0 <= k < matrix@.len() implies spec_entry_matches(
                            pools@,
                            #[trigger] matrix@[k],
                        ) by {
                            if k < pre.len() {
                                assert(matrix@[k] == pre[k]);
                            } else {
                                assert(matrix@[k] == matrix@.last());
                            }
                        }
                        assert forall|a: int, b: int, c: int|
                            0 <= a < pools@.len() && 0 <= b < (#[trigger] pools@[a]).lanes@.len() && 0
                                <= c < (#[trigger] pools@[a].lanes@[b]).layers@.len() && spec_placed(
                                #[trigger] pools@[a].lanes@[b].layers@[c],
                            ) && (a < pi || (a == pi && b < li) || (a == pi && b == li && c < ni + 1))
                                implies matrix@.contains(
                                (
                                    pools@[a].lanes@[b].layers@[c].id,
                                    spec_rect_of(pools@[a].lanes@[b].layers@[c]),
                                ),
                            ) by {
                            let entry = (
                                pools@[a].lanes@[b].layers@[c].id,
                                spec_rect_of(pools@[a].lanes@[b].layers@[c]),
                            );
                            if a == pi && b == li && c == ni {
                                assert(matrix@.last() == entry);
                            } else {
                                assert(pre.contains(entry));
                                let k = choose|k: int| 0 <= k < pre.len() && pre[k] == entry;
                                assert(matrix@[k] == entry);
                            }
                        }
                    }
                }
                ni += 1;
            }
            li += 1;
        }
        pi += 1;
    }
    (matrix, matrix_width, matrix_height)
}

/// Looks up the first obstacle entry carrying the given node id.
fn find_rect(
    matrix: &Vec<(usize, (usize, usize, usize, usize))>,
    id: usize,
) -> (r: Option<(usize, usize, usize, usize)>)
    ensures
        match r {
            Some(rect) => exists|k: int|
                0 <= k < matrix@.len() && (#[trigger] matrix@[k]) == (id, rect),
            None => forall|k: int| 0 <= k < matrix@.len() ==> (#[trigger] matrix@[k]).0 != id,
        },
{
    let m = matrix.len();
    let mut k: usize = 0;
    while k < m
        invariant
            m == matrix@.len(),
            0 <= k <= m,
            forall|q: int| 0 <= q < k ==> (#[trigger] matrix@[q]).0 != id,
        decreases m - k,
    {
        if matrix[k].0 == id {
            return Some(matrix[k].1);
        }
        k += 1;
    }
    None
}


/// Some edge of the list touches the given node id.
pub open spec fn spec_edge_endpoint(edges: Seq<Edge>, id: usize) -> bool {
    exists|k: int| 0 <= k < edges.len() && ((#[trigger] edges[k]).from == id || edges[k].to == id)
}

/// A diagnostic that names a real edge of the list which kept its old
/// state.
pub open spec fn spec_diag_witnessed(pre: Seq<Edge>, post: Seq<Edge>, d: (usize, usize)) -> bool {
    exists|k: int|
        0 <= k < pre.len() && post.len() == pre.len() && d == ((#[trigger] pre[k]).from, pre[k].to)
            && post[k] == pre[k]
}

/// An edge carrying everything but its routed points unchanged.
pub open spec fn spec_edge_same_but_points(pre: Edge, post: Edge) -> bool {
    &&& post.from == pre.from
    &&& post.to == pre.to
    &&& post.text == pre.text
    &&& post.pool == pre.pool
    &&& post.lane == pre.lane
}

/// Routes every edge with orthogonal bend points: an obstacle map of every
/// placed node's expanded rectangle is built, up to three exit and three
/// entry candidates are tried per edge, and the shortest grid path found
/// becomes the edge's waypoints, framed by the true boundary exit and
/// entry coordinates. An edge whose endpoints admit no path is left
/// unrouted and reported in the returned diagnostics; an edge whose
/// endpoint does not resolve to a placed node aborts the stage before
/// anything is touched.
#[verifier::rlimit(100)]
#[verifier::spinoff_prover]
pub fn assign_bend_points(graph: &mut Graph) -> (r: Result<Vec<(usize, usize)>, LayoutError>)
    requires
        spec_routing_limits(old(graph).pools@),
    ensures
        final(graph).pools == old(graph).pools,
        final(graph).last_node_id == old(graph).last_node_id,
        final(graph).edges@.len() == old(graph).edges@.len(),
        forall|k: int|
            0 <= k < old(graph).edges@.len() ==> spec_edge_same_but_points(
                old(graph).edges@[k],
                #[trigger] final(graph).edges@[k],
            ),
        (r is Ok) <==> (forall|k: int|
            0 <= k < old(graph).edges@.len() ==> spec_has_placed(
                old(graph).pools@,
                (#[trigger] old(graph).edges@[k]).from,
            ) && spec_has_placed(old(graph).pools@, old(graph).edges@[k].to)),
        match r {
            Ok(diags) => {
                &&& forall|k: int|
                    0 <= k < old(graph).edges@.len() ==> ((#[trigger] final(graph).edges@[k]).adjusted_points
                        matches Some(pts) && spec_edge_routed(
                        old(graph).pools@,
                        old(graph).edges@[k].from,
                        old(graph).edges@[k].to,
                        pts@,
                    )) || (final(graph).edges@[k] == old(graph).edges@[k] && diags@.contains(
                        (old(graph).edges@[k].from, old(graph).edges@[k].to),
                    ))
                &&& forall|j: int|
                    0 <= j < diags@.len() ==> spec_diag_witnessed(
                        old(graph).edges@,
                        final(graph).edges@,
                        #[trigger] diags@[j],
                    )
                &&& forall|j: int|
                    0 <= j < diags@.len() ==> spec_edge_unroutable(
                        old(graph).pools@,
                        (#[trigger] diags@[j]).0,
                        diags@[j].1,
                    )
            },
            Err(e) => {
                &&& *final(graph) == *old(graph)
                &&& match e {
                    LayoutError::MissingNode(id) => spec_edge_endpoint(old(graph).edges@, id)
                        && !crate::common::graph::spec_graph_has_node_id(*old(graph), id),
                    LayoutError::UnplacedNode(id) => spec_edge_endpoint(old(graph).edges@, id)
                        && !spec_has_placed(old(graph).pools@, id),
                    LayoutError::InfeasibleLane(_) => false,
                    LayoutError::SolverFailed(_) => false,
                }
            },
        },
{
    let built = build_obstacle_map(&graph.pools);
    let matrix = built.0;
    let mw = built.1;
    let mh = built.2;
    let ne = graph.edges.len();
    // validate that every endpoint resolves to a placed node
    let mut k: usize = 0;
    while k < ne
        invariant
            ne == graph.edges@.len(),
            0 <= k <= ne,
            *graph == *old(graph),
            spec_obstacles_ok(old(graph).pools@, matrix@),
            forall|q: int|
                0 <= q < k ==> spec_has_placed(
                    old(graph).pools@,
                    (#[trigger] graph.edges@[q]).from,
                ) && spec_has_placed(old(graph).pools@, graph.edges@[q].to),
        decreases ne - k,
    {
        let from = graph.edges[k].from;
        let to = graph.edges[k].to;
        let fr = find_rect(&matrix, from);
        if fr.is_none() {
            proof {
                assert(!spec_has_placed(old(graph).pools@, from)) by {
                    if spec_has_placed(old(graph).pools@, from) {
                        let (pi, li, ni) = choose|pi: int, li: int, ni: int|
                            0 <= pi < old(graph).pools@.len() && 0 <= li
                                < (#[trigger] old(graph).pools@[pi]).lanes@.len() && 0 <= ni
                                < (#[trigger] old(graph).pools@[pi].lanes@[li]).layers@.len()
                                && (#[trigger] old(graph).pools@[pi].lanes@[li].layers@[ni]).id == from
                                && spec_placed(old(graph).pools@[pi].lanes@[li].layers@[ni]);
                        let entry = (
                            old(graph).pools@[pi].lanes@[li].layers@[ni].id,
                            spec_rect_of(old(graph).pools@[pi].lanes@[li].layers@[ni]),
                        );
                        assert(matrix@.contains(entry));
                        let w = choose|w: int| 0 <= w < matrix@.len() && matrix@[w] == entry;
                        assert(matrix@[w].0 == from);
                    }
                }
            }
            proof {
                assert(old(graph).edges@[k as int].from == from);
                assert(spec_edge_endpoint(old(graph).edges@, from));
                assert(!(spec_has_placed(old(graph).pools@, old(graph).edges@[k as int].from)
                    && spec_has_placed(old(graph).pools@, old(graph).edges@[k as int].to)));
            }
            let present = graph.get_node_by_id(from);
            match present {
                Option::Some(_) => {
                    return Err(LayoutError::UnplacedNode(from));
                },
                Option::None => {
                    return Err(LayoutError::MissingNode(from));
                },
            }
        }
        let tr = find_rect(&matrix, to);
        if tr.is_none() {
            proof {
                assert(!spec_has_placed(old(graph).pools@, to)) by {
                    if spec_has_placed(old(graph).pools@, to) {
                        let (pi, li, ni) = choose|pi: int, li: int, ni: int|
                            0 <= pi < old(graph).pools@.len() && 0 <= li
                                < (#[trigger] old(graph).pools@[pi]).lanes@.len() && 0 <= ni
                                < (#[trigger] old(graph).pools@[pi].lanes@[li]).layers@.len()
                                && (#[trigger] old(graph).pools@[pi].lanes@[li].layers@[ni]).id == to
                                && spec_placed(old(graph).pools@[pi].lanes@[li].layers@[ni]);
                        let entry = (
                            old(graph).pools@[pi].lanes@[li].layers@[ni].id,
                            spec_rect_of(old(graph).pools@[pi].lanes@[li].layers@[ni]),
                        );
                        assert(matrix@.contains(entry));
                        let w = choose|w: int| 0 <= w < matrix@.len() && matrix@[w] == entry;
                        assert(matrix@[w].0 == to);
                    }
                }
            }
            proof {
                assert(old(graph).edges@[k as int].to == to);
                assert(spec_edge_endpoint(old(graph).edges@, to));
                assert(!(spec_has_placed(old(graph).pools@, old(graph).edges@[k as int].from)
                    && spec_has_placed(old(graph).pools@, old(graph).edges@[k as int].to)));
            }
            let present = graph.get_node_by_id(to);
            match present {
                Option::Some(_) => {
                    return Err(LayoutError::UnplacedNode(to));
                },
                Option::None => {
                    return Err(LayoutError::MissingNode(to));
                },
            }
        }
        proof {
            let frect = fr->0;
            let fk = choose|w: int| 0 <= w < matrix@.len() && matrix@[w] == (from, frect);
            assert(spec_entry_matches(old(graph).pools@, matrix@[fk]));
            let trect = tr->0;
            let tk = choose|w: int| 0 <= w < matrix@.len() && matrix@[w] == (to, trect);
            assert(spec_entry_matches(old(graph).pools@, matrix@[tk]));
        }
        k += 1;
    }
    // route every edge
    let mut diags: Vec<(usize, usize)> = Vec::new();
    let ghost mut diag_src: Seq<int> = Seq::empty();
    let mut k2: usize = 0;
    while k2 < ne
        invariant
            ne == graph.edges@.len(),
            ne == old(graph).edges@.len(),
            0 <= k2 <= ne,
            graph.pools == old(graph).pools,
            graph.last_node_id == old(graph).last_node_id,
            mw <= 0x6000_0000,
            mh <= 0x6000_0000,
            spec_obstacles_ok(old(graph).pools@, matrix@),
            forall|w: int|
                0 <= w < matrix@.len() ==> {
                    let rect = (#[trigger] matrix@[w]).1;
                    &&& rect.0 + 40 <= rect.2
                    &&& rect.1 + 40 <= rect.3
                    &&& rect.2 <= 0x4200_0000
                    &&& rect.3 <= 0x4200_0000
                    &&& rect.2 <= mw
                    &&& rect.3 <= mh
                },
            forall|q: int|
                0 <= q < ne ==> spec_has_placed(
                    old(graph).pools@,
                    (#[trigger] old(graph).edges@[q]).from,
                ) && spec_has_placed(old(graph).pools@, old(graph).edges@[q].to),
            forall|q: int| k2 <= q < ne ==> #[trigger] graph.edges@[q] == old(graph).edges@[q],
            forall|q: int|
                0 <= q < k2 ==> spec_edge_same_but_points(
                    old(graph).edges@[q],
                    #[trigger] graph.edges@[q],
                ),
            forall|q: int|
                0 <= q < k2 ==> ((#[trigger] graph.edges@[q]).adjusted_points matches Some(pts)
                    && spec_edge_routed(
                    old(graph).pools@,
                    old(graph).edges@[q].from,
                    old(graph).edges@[q].to,
                    pts@,
                )) || (graph.edges@[q] == old(graph).edges@[q] && diags@.contains(
                    (old(graph).edges@[q].from, old(graph).edges@[q].to),
                )),
            diag_src.len() == diags@.len(),
            forall|j: int|
                0 <= j < diags@.len() ==> 0 <= #[trigger] diag_src[j] < k2 && diags@[j] == (
                    old(graph).edges@[diag_src[j]].from,
                    old(graph).edges@[diag_src[j]].to,
                ) && graph.edges@[diag_src[j]] == old(graph).edges@[diag_src[j]],
            forall|j: int|
                0 <= j < diags@.len() ==> spec_edge_unroutable(
                    old(graph).pools@,
                    (#[trigger] diags@[j]).0,
                    diags@[j].1,
                ),
        decreases ne - k2,
    {
        let from = graph.edges[k2].from;
        let to = graph.edges[k2].to;
        let frect = match find_rect(&matrix, from) {
            Option::Some(rect) => rect,
            Option::None => {
                proof {
                    assert(spec_has_placed(old(graph).pools@, old(graph).edges@[k2 as int].from));
                    lemma_placed_id_has_entry(old(graph).pools@, matrix@, from);
                    assert(false);
                }
                return Err(LayoutError::MissingNode(from));
            },
        };
        let trect = match find_rect(&matrix, to) {
            Option::Some(rect) => rect,
            Option::None => {
                proof {
                    assert(spec_has_placed(old(graph).pools@, old(graph).edges@[k2 as int].to));
                    lemma_placed_id_has_entry(old(graph).pools@, matrix@, to);
                    assert(false);
                }
                return Err(LayoutError::MissingNode(to));
            },
        };
        proof {
            let fk = choose|w: int| 0 <= w < matrix@.len() && matrix@[w] == (from, frect);
            assert(spec_entry_matches(old(graph).pools@, matrix@[fk]));
            let tk = choose|w: int| 0 <= w < matrix@.len() && matrix@[w] == (to, trect);
            assert(spec_entry_matches(old(graph).pools@, matrix@[tk]));
        }
        let fcx: usize = frect.0 + (frect.2 - frect.0) / 2;
        let fmy: usize = frect.1 + (frect.3 - frect.1) / 2;
        let tcx: usize = trect.0 + (trect.2 - trect.0) / 2;
        let tmy: usize = trect.1 + (trect.3 - trect.1) / 2;
        let starts: Vec<(usize, usize, usize, usize)> = vec![
            (fcx, frect.1, fcx, frect.1 + 20),
            (frect.2, fmy, frect.2 - 20, fmy),
            (fcx, frect.3, fcx, frect.3 - 20),
        ];
        let ends: Vec<(usize, usize, usize, usize)> = vec![
            (tcx, trect.1, tcx, trect.1 + 20),
            (trect.0, tmy, trect.0 + 20, tmy),
            (tcx, trect.3, tcx, trect.3 - 20),
        ];
        let mut best: Option<Vec<(usize, usize)>> = None;
        let mut best_len: usize = 0;
        let mut si: usize = 0;
        while si < 3
            invariant
                0 <= si <= 3,
                starts@.len() == 3,
                ends@.len() == 3,
                mw <= 0x6000_0000,
                mh <= 0x6000_0000,
                spec_obstacles_ok(old(graph).pools@, matrix@),
                forall|c: int| 0 <= c < 3 ==> (#[trigger] starts@[c]).0 <= 0x6000_0000
                    && starts@[c].1 <= 0x6000_0000 && spec_exit_pair(
                    frect,
                    (starts@[c].2, starts@[c].3),
                    (starts@[c].0, starts@[c].1),
                ),
                forall|c: int| 0 <= c < 3 ==> (#[trigger] ends@[c]).0 <= 0x6000_0000
                    && ends@[c].1 <= 0x6000_0000 && spec_entry_cand(
                    trect,
                    (ends@[c].2, ends@[c].3),
                    (ends@[c].0, ends@[c].1),
                ),
                forall|ec: (usize, usize)| spec_exit_cell(frect, ec) ==> exists|c: int|
                    0 <= c < 3 && ec == ((#[trigger] starts@[c]).0, starts@[c].1),
                forall|nc: (usize, usize)| spec_entry_cell(trect, nc) ==> exists|c: int|
                    0 <= c < 3 && nc == ((#[trigger] ends@[c]).0, ends@[c].1),
                exists|w: int| 0 <= w < matrix@.len() && #[trigger] matrix@[w] == (from, frect),
                exists|w: int| 0 <= w < matrix@.len() && #[trigger] matrix@[w] == (to, trect),
                match best {
                    Some(p) => spec_edge_routed(old(graph).pools@, from, to, p@),
                    None => true,
                },
                best is None ==> forall|a: int, b: int|
                    0 <= a < 3 && 0 <= b < 3 && a < si ==> #[trigger] spec_search_exhausted(
                        ((starts@[a].0, starts@[a].1)),
                        ((ends@[b].0, ends@[b].1)),
                        mw,
                        mh,
                        matrix@,
                    ),
            decreases 3 - si,
        {
            let st = starts[si];
            let mut ei: usize = 0;
            while ei < 3
                invariant
                    0 <= ei <= 3,
                    starts@.len() == 3,
                    ends@.len() == 3,
                    0 <= si < 3,
                    st == starts@[si as int],
                    mw <= 0x6000_0000,
                    mh <= 0x6000_0000,
                    spec_obstacles_ok(old(graph).pools@, matrix@),
                    forall|c: int| 0 <= c < 3 ==> (#[trigger] starts@[c]).0 <= 0x6000_0000
                        && starts@[c].1 <= 0x6000_0000 && spec_exit_pair(
                        frect,
                        (starts@[c].2, starts@[c].3),
                        (starts@[c].0, starts@[c].1),
                    ),
                    forall|c: int| 0 <= c < 3 ==> (#[trigger] ends@[c]).0 <= 0x6000_0000
                        && ends@[c].1 <= 0x6000_0000 && spec_entry_cand(
                        trect,
                        (ends@[c].2, ends@[c].3),
                        (ends@[c].0, ends@[c].1),
                    ),
                    exists|w: int| 0 <= w < matrix@.len() && #[trigger] matrix@[w] == (from, frect),
                    exists|w: int| 0 <= w < matrix@.len() && #[trigger] matrix@[w] == (to, trect),
                    match best {
                        Some(p) => spec_edge_routed(old(graph).pools@, from, to, p@),
                        None => true,
                    },
                    best is None ==> forall|a: int, b: int|
                        0 <= a < 3 && 0 <= b < 3 && (a < si || (a == si && b < ei))
                            ==> #[trigger] spec_search_exhausted(
                            ((starts@[a].0, starts@[a].1)),
                            ((ends@[b].0, ends@[b].1)),
                            mw,
                            mh,
                            matrix@,
                        ),
                decreases 3 - ei,
            {
                let en = ends[ei];
                let path = find_path(st.0, st.1, en.0, en.1, mw, mh, &matrix);
                if path.len() > 0 {
                    let length = path.len();
                    let take: bool = match &best {
                        Option::Some(_) => length <= best_len,
                        Option::None => true,
                    };
                    if take {
                        let mut pts: Vec<(usize, usize)> = Vec::new();
                        pts.push((st.2, st.3));
                        let mut t: usize = 0;
                        while t < length
                            invariant
                                length == path@.len(),
                                0 <= t <= length,
                                pts@.len() == t + 1,
                                pts@[0] == (st.2, st.3),
                                forall|i: int| 0 <= i < t ==> #[trigger] pts@[i + 1] == path@[i],
                            decreases length - t,
                        {
                            pts.push(path[t]);
                            t += 1;
                        }
                        let ghost pts_mid = pts@;
                        pts.push((en.2, en.3));
                        proof {
                            let pl = pts@;
                            assert(pl.len() == length + 2);
                            assert forall|j: int| 1 <= j <= length implies #[trigger] pl[j]
                                == path@[j - 1] by {
                                assert(pl[j] == pts_mid[j]);
                                assert(pts_mid[(j - 1) + 1] == path@[j - 1]);
                            }
                            assert forall|i: int| 2 <= i < pl.len() - 1 implies
                                !spec_in_some_node_rect(
                                old(graph).pools@,
                                (#[trigger] pl[i]).0,
                                pl[i].1,
                            ) by {
                                assert(pl[i] == path@[i - 1]);
                                assert(!spec_in_obstacle(path@[i - 1].0, path@[i - 1].1, matrix@));
                                lemma_free_cell_avoids_nodes(
                                    old(graph).pools@,
                                    matrix@,
                                    path@[i - 1].0,
                                    path@[i - 1].1,
                                );
                            }
                            assert forall|i: int| 1 <= i < pl.len() - 2 implies spec_adjacent(
                                #[trigger] pl[i],
                                pl[i + 1],
                            ) by {
                                assert(pl[i] == path@[i - 1]);
                                assert(pl[i + 1] == path@[i]);
                                assert(spec_adjacent(path@[i - 1], path@[(i - 1) + 1]));
                            }
                            let fk = choose|w: int|
                                0 <= w < matrix@.len() && #[trigger] matrix@[w] == (from, frect);
                            assert(spec_entry_matches(old(graph).pools@, matrix@[fk]));
                            let tk = choose|w: int|
                                0 <= w < matrix@.len() && #[trigger] matrix@[w] == (to, trect);
                            assert(spec_entry_matches(old(graph).pools@, matrix@[tk]));
                            assert(pl[0] == (st.2, st.3));
                            assert(pl.last() == (en.2, en.3));
                            assert(pl[1] == path@[0]);
                            assert(path@[0] == (st.0, st.1));
                            assert(spec_exit_pair(frect, (st.2, st.3), (st.0, st.1)));
                            assert(pl[pl.len() - 2] == path@[length - 1]);
                            assert(spec_near(path@[length - 1], (en.0, en.1)));
                            assert(spec_entry_cand(trect, (en.2, en.3), (en.0, en.1)));
                            assert(spec_entry_pair(trect, pl.last(), pl[pl.len() - 2]));
                            assert(spec_edge_routed(old(graph).pools@, from, to, pl));
                        }
                        best = Some(pts);
                        best_len = length;
                    }
                }
                proof {
                    if best is None {
                        assert(path@.len() == 0);
                        assert(spec_search_exhausted(
                            ((st.0, st.1)),
                            ((en.0, en.1)),
                            mw,
                            mh,
                            matrix@,
                        ));
                        assert(st == starts@[si as int]);
                        assert(en == ends@[ei as int]);
                    }
                }
                ei += 1;
            }
            si += 1;
        }
        proof {
            if best is None {
                assert forall|ec: (usize, usize), nc: (usize, usize)|
                    spec_exit_cell(frect, ec) && spec_entry_cell(
                        trect,
                        nc,
                    ) implies #[trigger] spec_search_exhausted(ec, nc, mw, mh, matrix@) by {
                    let c1 = choose|c: int|
                        0 <= c < 3 && ec == ((#[trigger] starts@[c]).0, starts@[c].1);
                    let c2 = choose|c: int|
                        0 <= c < 3 && nc == ((#[trigger] ends@[c]).0, ends@[c].1);
                    assert(spec_search_exhausted(
                        ((starts@[c1].0, starts@[c1].1)),
                        ((ends@[c2].0, ends@[c2].1)),
                        mw,
                        mh,
                        matrix@,
                    ));
                }
                assert(spec_candidates_exhausted(matrix@, mw, mh, frect, trect));
                let fw = choose|w: int|
                    0 <= w < matrix@.len() && #[trigger] matrix@[w] == (from, frect);
                assert(matrix@.contains((from, frect)));
                let tw = choose|w: int|
                    0 <= w < matrix@.len() && #[trigger] matrix@[w] == (to, trect);
                assert(matrix@.contains((to, trect)));
                assert(spec_edge_unroutable(old(graph).pools@, from, to));
            }
        }
        let ghost edges_pre = graph.edges@;
        let ghost diags_pre = diags@;
        match best {
            Option::Some(pts) => {
                let ghost the_pts = pts;
                let edge_ref = &mut graph.edges[k2];
                edge_ref.adjusted_points = Some(pts);
                proof {
                    assert(graph.edges@ == edges_pre.update(k2 as int, graph.edges@[k2 as int]));
                    assert(graph.edges@[k2 as int].adjusted_points == Some(the_pts));
                    assert(spec_edge_routed(
                        old(graph).pools@,
                        old(graph).edges@[k2 as int].from,
                        old(graph).edges@[k2 as int].to,
                        the_pts@,
                    ));
                    assert forall|q: int| 0 <= q < k2 implies #[trigger] graph.edges@[q]
                        == edges_pre[q] by {
                    }
                    assert forall|j: int| 0 <= j < diags@.len() implies 0 <= #[trigger] diag_src[j]
                        < k2 + 1 && diags@[j] == (
                        old(graph).edges@[diag_src[j]].from,
                        old(graph).edges@[diag_src[j]].to,
                    ) && graph.edges@[diag_src[j]] == old(graph).edges@[diag_src[j]] by {
                        assert(graph.edges@[diag_src[j]] == edges_pre[diag_src[j]]);
                    }
                }
            },
            Option::None => {
                diags.push((from, to));
                proof {
                    diag_src = diag_src.push(k2 as int);
                    assert(diags@ == diags_pre.push((from, to)));
                    assert forall|j: int| 0 <= j < diags_pre.len() implies #[trigger] diags@[j]
                        == diags_pre[j] by {
                    }
                    assert(diags@.last() == (from, to));
                    assert(diags@.contains((from, to))) by {
                        assert(diags@[diags@.len() - 1] == (from, to));
                    }
                    assert forall|q: int|
                        0 <= q < k2 && diags_pre.contains(
                            ((#[trigger] old(graph).edges@[q]).from, old(graph).edges@[q].to),
                        ) implies diags@.contains(
                        (old(graph).edges@[q].from, old(graph).edges@[q].to),
                    ) by {
                        let d = (old(graph).edges@[q].from, old(graph).edges@[q].to);
                        let j = choose|j: int| 0 <= j < diags_pre.len() && diags_pre[j] == d;
                        assert(diags@[j] == d);
                    }
                    assert forall|j: int| 0 <= j < diags@.len() implies 0 <= #[trigger] diag_src[j]
                        < k2 + 1 && diags@[j] == (
                        old(graph).edges@[diag_src[j]].from,
                        old(graph).edges@[diag_src[j]].to,
                    ) && graph.edges@[diag_src[j]] == old(graph).edges@[diag_src[j]] by {
                        if j < diags_pre.len() {
                            assert(diags@[j] == diags_pre[j]);
                        } else {
                            assert(diag_src[j] == k2 as int);
                            assert(diags@[j] == (from, to));
                            assert(graph.edges@[k2 as int] == old(graph).edges@[k2 as int]);
                        }
                    }
                }
            },
        }
        k2 += 1;
    }
    proof {
        assert forall|j: int| 0 <= j < diags@.len() implies spec_diag_witnessed(
            old(graph).edges@,
            graph.edges@,
            #[trigger] diags@[j],
        ) by {
            let q0 = diag_src[j];
            assert(0 <= q0 < old(graph).edges@.len() && diags@[j] == (
                old(graph).edges@[q0].from,
                old(graph).edges@[q0].to,
            ) && graph.edges@[q0] == old(graph).edges@[q0]);
        }
    }
    proof {
        assert(ne == old(graph).edges@.len());
        assert(forall|k: int|
            0 <= k < old(graph).edges@.len() ==> ((#[trigger] graph.edges@[k]).adjusted_points
                matches Some(pts) && spec_edge_routed(
                old(graph).pools@,
                old(graph).edges@[k].from,
                old(graph).edges@[k].to,
                pts@,
            )) || (graph.edges@[k] == old(graph).edges@[k] && diags@.contains(
                (old(graph).edges@[k].from, old(graph).edges@[k].to),
            )));
        assert(forall|k: int|
            0 <= k < old(graph).edges@.len() ==> spec_has_placed(
                old(graph).pools@,
                (#[trigger] old(graph).edges@[k]).from,
            ) && spec_has_placed(old(graph).pools@, old(graph).edges@[k].to));
        assert(forall|k: int|
            0 <= k < old(graph).edges@.len() ==> spec_edge_same_but_points(
                old(graph).edges@[k],
                #[trigger] graph.edges@[k],
            ));
        assert(graph.pools == old(graph).pools);
        assert(graph.last_node_id == old(graph).last_node_id);
        assert(graph.edges@.len() == old(graph).edges@.len());
    }
    Ok(diags)
}

/// A placed node's id always has an obstacle entry.
proof fn lemma_placed_id_has_entry(
    pools: Seq<Pool>,
    obs: Seq<(usize, (usize, usize, usize, usize))>,
    id: usize,
)
    requires
        spec_obstacles_ok(pools, obs),
        spec_has_placed(pools, id),
    ensures
        exists|w: int| 0 <= w < obs.len() && (#[trigger] obs[w]).0 == id,
{
    let (pi, li, ni) = choose|pi: int, li: int, ni: int|
        0 <= pi < pools.len() && 0 <= li < (#[trigger] pools[pi]).lanes@.len() && 0 <= ni
            < (#[trigger] pools[pi].lanes@[li]).layers@.len() && (#[trigger] pools[pi].lanes@[li].layers@[ni]).id
            == id && spec_placed(pools[pi].lanes@[li].layers@[ni]);
    let entry = (pools[pi].lanes@[li].layers@[ni].id, spec_rect_of(pools[pi].lanes@[li].layers@[ni]));
    assert(obs.contains(entry));
    let w = choose|w: int| 0 <= w < obs.len() && obs[w] == entry;
    assert(obs[w].0 == id);
}

} // verus!
