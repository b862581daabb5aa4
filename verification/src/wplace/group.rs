//! Groups points of a pixel grid into clusters of 8-connected points.
//!
//! The clustering of the tool has three steps: the connected groups
//! (`find_groups`, sorted by `sort_groups_by_size`); merging small groups
//! into groups whose centers are close (`merge_close_small_groups`); and
//! attaching the small groups that are left to the nearest large group
//! (`attach_small_groups`).  Centers and distances are floating-point
//! figures that the caller computes; these functions take the decisions
//! that follow from them as arguments.
use std::collections::{HashMap, HashSet, VecDeque};
use vstd::multiset::Multiset;
use vstd::prelude::*;

verus! {

broadcast use {vstd::std_specs::hash::group_hash_axioms, vstd::std_specs::vecdeque::group_vec_dequeue_axioms};

/// A point: x, y and a color id.
pub type Point = (i32, i32, i32);

/// The cell of a point.
pub open spec fn cell(p: Point) -> (i32, i32) {
    (p.0, p.1)
}

/// The cells of the points and their colors; a later point overrides the
/// color of an earlier one at the same cell.
pub open spec fn cell_map(points: Seq<Point>) -> Map<(i32, i32), i32>
    decreases points.len(),
{
    if points.len() == 0 {
        Map::empty()
    } else {
        cell_map(points.drop_last()).insert(cell(points.last()), points.last().2)
    }
}

/// The cells are the cells of the points.
pub proof fn lemma_cell_map(points: Seq<Point>)
    ensures
        cell_map(points).dom().finite(),
        forall|c: (i32, i32)| cell_map(points).contains_key(c) <==> exists|i: int| 0 <= i < points.len() && #[trigger] cell(points[i]) == c,
    decreases points.len(),
{
    if points.len() > 0 {
        let q = points.drop_last();
        lemma_cell_map(q);
        assert forall|c: (i32, i32)| cell_map(points).contains_key(c) <==> exists|i: int| 0 <= i < points.len() && #[trigger] cell(points[i]) == c by {
            if cell_map(points).contains_key(c) && c != cell(points.last()) {
                let i = choose|i: int| 0 <= i < q.len() && #[trigger] cell(q[i]) == c;
                assert(cell(points[i]) == c);
            }
            if exists|i: int| 0 <= i < points.len() && #[trigger] cell(points[i]) == c {
                let i = choose|i: int| 0 <= i < points.len() && #[trigger] cell(points[i]) == c;
                if i < points.len() - 1 {
                    assert(cell(q[i]) == c);
                }
            }
        }
    }
}

/// Two different cells that touch by a side or a corner.
pub open spec fn adjacent(a: (i32, i32), b: (i32, i32)) -> bool {
    &&& a != b
    &&& -1 <= a.0 - b.0 <= 1
    &&& -1 <= a.1 - b.1 <= 1
}

/// The cells of `v` that lie in `cells` have all their neighbors in `cells`
/// inside `v`.
pub open spec fn closed(v: Set<(i32, i32)>, cells: Set<(i32, i32)>) -> bool {
    forall|a: (i32, i32), b: (i32, i32)|
        v.contains(a) && cells.contains(b) && #[trigger] adjacent(a, b) ==> v.contains(b)
}

/// Every point of the group after the first touches an earlier one.
pub open spec fn linked(g: Seq<Point>) -> bool {
    forall|k: int| 0 < k < g.len() ==> exists|j: int| 0 <= j < k && adjacent(cell(g[j]), #[trigger] cell(g[k]))
}

/// Cell `c` is the cell of a point of `g`.
pub open spec fn in_group(g: Seq<Point>, c: (i32, i32)) -> bool {
    exists|k: int| 0 <= k < g.len() && #[trigger] cell(g[k]) == c
}

/// No cell occurs twice in `g`.
pub open spec fn cells_distinct(g: Seq<Point>) -> bool {
    forall|i: int, j: int| 0 <= i < j < g.len() ==> cell(#[trigger] g[i]) != cell(#[trigger] g[j])
}

/// Key of a cell in the hash tables; `cell_key` is one-to-one.
pub open spec fn cell_key(c: (i32, i32)) -> i64 {
    (c.0 * 4294967296 + (c.1 + 2147483648)) as i64
}

/// Distinct cells have distinct keys, and the key needs no truncation.
pub proof fn lemma_cell_key(a: (i32, i32), b: (i32, i32))
    ensures
        i64::MIN <= a.0 * 4294967296 + (a.1 + 2147483648) <= i64::MAX,
        cell_key(a) == cell_key(b) <==> a == b,
{
}

fn key_of(x: i32, y: i32) -> (k: i64)
    ensures
        k == cell_key((x, y)),
{
    proof {
        lemma_cell_key((x, y), (x, y));
    }
    (x as i64) * 4294967296 + (y as i64 + 2147483648)
}

/// Offset number `k` of the eight neighbors, in the order the search visits
/// them.
pub open spec fn direction(k: int) -> (i32, i32) {
    if k == 0 {
        (-1i32, -1i32)
    } else if k == 1 {
        (-1i32, 0i32)
    } else if k == 2 {
        (-1i32, 1i32)
    } else if k == 3 {
        (0i32, -1i32)
    } else if k == 4 {
        (0i32, 1i32)
    } else if k == 5 {
        (1i32, -1i32)
    } else if k == 6 {
        (1i32, 0i32)
    } else {
        (1i32, 1i32)
    }
}

fn direction_exec(k: usize) -> (d: (i32, i32))
    requires
        k < 8,
    ensures
        d == direction(k as int),
{
    if k == 0 {
        (-1, -1)
    } else if k == 1 {
        (-1, 0)
    } else if k == 2 {
        (-1, 1)
    } else if k == 3 {
        (0, -1)
    } else if k == 4 {
        (0, 1)
    } else if k == 5 {
        (1, -1)
    } else if k == 6 {
        (1, 0)
    } else {
        (1, 1)
    }
}

/// The neighbors of a cell are the cells at the eight offsets.
pub proof fn lemma_neighbors(a: (i32, i32), b: (i32, i32))
    requires
        adjacent(a, b),
    ensures
        exists|k: int| 0 <= k < 8 && b.0 == a.0 + (#[trigger] direction(k)).0 && b.1 == a.1 + direction(k).1,
{
    let dx = b.0 - a.0;
    let dy = b.1 - a.1;
    let k: int = if dx == -1 {
        if dy == -1 { 0 } else if dy == 0 { 1 } else { 2 }
    } else if dx == 0 {
        if dy == -1 { 3 } else { 4 }
    } else {
        if dy == -1 { 5 } else if dy == 0 { 6 } else { 7 }
    };
    assert(b.0 == a.0 + direction(k).0 && b.1 == a.1 + direction(k).1);
}

/// A coordinate that has neighbors on both sides.
pub open spec fn inner(v: i32) -> bool {
    i32::MIN < v < i32::MAX
}

/// Every point has neighbors on all sides: no coordinate is `i32::MIN` or
/// `i32::MAX`.
pub open spec fn points_inner(points: Seq<Point>) -> bool {
    forall|i: int| 0 <= i < points.len() ==> inner(#[trigger] points[i].0) && inner(points[i].1)
}

/// The table of the cells and their colors, keyed by `cell_key`.
fn cell_table(points: &Vec<Point>) -> (r: HashMap<i64, i32>)
    ensures
        forall|c: (i32, i32)| #![trigger cell_key(c)] r@.contains_key(cell_key(c)) <==> cell_map(points@).contains_key(c),
        forall|c: (i32, i32)| #![trigger cell_key(c)] r@.contains_key(cell_key(c)) ==> r@[cell_key(c)] == cell_map(points@)[c],
{
    let mut table: HashMap<i64, i32> = HashMap::new();
    let n = points.len();
    let mut i: usize = 0;
    while i < n
        invariant
            n == points@.len(),
            i <= n,
            forall|c: (i32, i32)|
                #![trigger cell_key(c)]
                table@.contains_key(cell_key(c)) <==> cell_map(points@.take(i as int)).contains_key(c),
            forall|c: (i32, i32)|
                #![trigger cell_key(c)]
                table@.contains_key(cell_key(c)) ==> table@[cell_key(c)] == cell_map(points@.take(i as int))[c],
        decreases n - i,
    {
        let p = points[i];
        let k = key_of(p.0, p.1);
        table.insert(k, p.2);
        assert(points@.take(i + 1).drop_last() =~= points@.take(i as int));
        assert forall|c: (i32, i32)| #![trigger cell_key(c)] table@.contains_key(cell_key(c)) <==> cell_map(points@.take(i + 1)).contains_key(c) by {
            lemma_cell_key(c, (p.0, p.1));
        }
        assert forall|c: (i32, i32)| #![trigger cell_key(c)] table@.contains_key(cell_key(c)) implies table@[cell_key(c)] == cell_map(points@.take(i + 1))[c] by {
            lemma_cell_key(c, (p.0, p.1));
        }
        i = i + 1;
    }
    assert(points@.take(n as int) =~= points@);
    table
}

/// The cells of the points of `g`.
pub open spec fn group_set(g: Seq<Point>) -> Set<(i32, i32)> {
    Set::new(|c: (i32, i32)| in_group(g, c))
}

/// The table holds exactly the cells of `cm` with their colors.
pub open spec fn table_ok(table: Map<i64, i32>, cm: Map<(i32, i32), i32>) -> bool {
    &&& forall|c: (i32, i32)| #![trigger cell_key(c)] table.contains_key(cell_key(c)) <==> cm.contains_key(c)
    &&& forall|c: (i32, i32)| #![trigger cell_key(c)] table.contains_key(cell_key(c)) ==> table[cell_key(c)] == cm[c]
}

/// The visited keys are the keys of the cells in `vs`.
pub open spec fn visited_ok(visited: Set<i64>, vs: Set<(i32, i32)>) -> bool {
    forall|c: (i32, i32)| #![trigger cell_key(c)] visited.contains(cell_key(c)) <==> vs.contains(c)
}

/// The cell at offset number `d` from `c`.
pub open spec fn neighbor(c: (i32, i32), d: int) -> (i32, i32) {
    ((c.0 + direction(d).0) as i32, (c.1 + direction(d).1) as i32)
}

/// The cells of a sequence of cells.
pub open spec fn seq_cells(s: Seq<(i32, i32)>) -> Set<(i32, i32)> {
    Set::new(|c: (i32, i32)| s.contains(c))
}

/// The neighbors of `c` at the first `d` offsets that are cells of `cm` and
/// not in `vs`, in offset order.
pub open spec fn fresh_neighbors(cm: Map<(i32, i32), i32>, vs: Set<(i32, i32)>, c: (i32, i32), d: int) -> Seq<(i32, i32)>
    decreases d,
{
    if d <= 0 {
        Seq::empty()
    } else {
        let prev = fresh_neighbors(cm, vs, c, d - 1);
        let n = neighbor(c, d - 1);
        if cm.contains_key(n) && !vs.contains(n) {
            prev.push(n)
        } else {
            prev
        }
    }
}

/// A state of the breadth-first search: the cells visited, the cells
/// waiting in the queue, and the points found, in order.
pub struct SearchState {
    pub visited: Set<(i32, i32)>,
    pub queue: Seq<(i32, i32)>,
    pub found: Seq<Point>,
}

/// One step of the search: the first cell of the queue leaves it; if it is a
/// cell of `cm`, it is found with its color, and its neighbors that are cells
/// of `cm` and not yet visited are visited and queued, in offset order.
pub open spec fn search_step(cm: Map<(i32, i32), i32>, s: SearchState) -> SearchState {
    if s.queue.len() == 0 {
        s
    } else {
        let c = s.queue[0];
        if cm.contains_key(c) {
            let nb = fresh_neighbors(cm, s.visited, c, 8);
            SearchState {
                visited: s.visited.union(seq_cells(nb)),
                queue: s.queue.drop_first() + nb,
                found: s.found.push((c.0, c.1, cm[c])),
            }
        } else {
            SearchState { visited: s.visited, queue: s.queue.drop_first(), found: s.found }
        }
    }
}

/// `steps` steps of the search.
pub open spec fn search_run(cm: Map<(i32, i32), i32>, s: SearchState, steps: nat) -> SearchState
    decreases steps,
{
    if steps == 0 {
        s
    } else {
        search_run(cm, search_step(cm, s), (steps - 1) as nat)
    }
}

/// The search from `start` when the cells `vs` are visited already: `start`
/// is visited and queued, then the search takes twice as many steps as `cm`
/// has cells, and one more (`bfs` shows that the queue is then empty).
pub open spec fn bfs_order(cm: Map<(i32, i32), i32>, vs: Set<(i32, i32)>, start: (i32, i32)) -> SearchState {
    search_run(
        cm,
        SearchState { visited: vs.insert(start), queue: seq![start], found: Seq::empty() },
        (2 * cm.dom().len() + 1) as nat,
    )
}

proof fn lemma_seq_cells_push(s: Seq<(i32, i32)>, c: (i32, i32))
    ensures
        seq_cells(s.push(c)) == seq_cells(s).insert(c),
{
    assert forall|e: (i32, i32)| #[trigger] seq_cells(s.push(c)).contains(e) <==> seq_cells(s).insert(c).contains(e) by {
        if s.contains(e) {
            let i = choose|i: int| 0 <= i < s.len() && s[i] == e;
            assert(s.push(c)[i] == e);
        }
        if s.push(c).contains(e) && e != c {
            let i = choose|i: int| 0 <= i < s.push(c).len() && s.push(c)[i] == e;
            assert(s[i] == e);
        }
        assert(s.push(c)[s.len() as int] == c);
    }
    assert(seq_cells(s.push(c)) =~= seq_cells(s).insert(c));
}

proof fn lemma_run_split(cm: Map<(i32, i32), i32>, s: SearchState, a: nat, b: nat)
    ensures
        search_run(cm, s, a + b) == search_run(cm, search_run(cm, s, a), b),
    decreases a,
{
    if a > 0 {
        lemma_run_split(cm, search_step(cm, s), (a - 1) as nat, b);
        assert((a + b - 1) as nat == ((a - 1) as nat + b) as nat);
    }
}

proof fn lemma_run_next(cm: Map<(i32, i32), i32>, s: SearchState, a: nat)
    ensures
        search_run(cm, s, a + 1) == search_step(cm, search_run(cm, s, a)),
{
    lemma_run_split(cm, s, a, 1);
    reveal_with_fuel(search_run, 2);
}

proof fn lemma_run_idle(cm: Map<(i32, i32), i32>, s: SearchState, steps: nat)
    requires
        s.queue.len() == 0,
    ensures
        search_run(cm, s, steps) == s,
    decreases steps,
{
    if steps > 0 {
        lemma_run_idle(cm, s, (steps - 1) as nat);
    }
}

/// The neighbors at two different offsets of a cell inside the range are
/// different cells.
proof fn lemma_neighbors_distinct(c: (i32, i32), d1: int, d2: int)
    requires
        inner(c.0),
        inner(c.1),
        0 <= d1 < d2 < 8,
    ensures
        neighbor(c, d1) != neighbor(c, d2),
{
    assert(direction(d1) != direction(d2));
}

/// Each fresh neighbor is a neighbor at an earlier offset, a cell of `cm`,
/// and not in `vs`.
proof fn lemma_fresh(cm: Map<(i32, i32), i32>, vs: Set<(i32, i32)>, c: (i32, i32), d: int)
    ensures
        forall|i: int|
            0 <= i < fresh_neighbors(cm, vs, c, d).len() ==> exists|d2: int|
                0 <= d2 < d && #[trigger] fresh_neighbors(cm, vs, c, d)[i] == neighbor(c, d2) && cm.contains_key(
                    fresh_neighbors(cm, vs, c, d)[i],
                ) && !vs.contains(fresh_neighbors(cm, vs, c, d)[i]),
    decreases d,
{
    if d > 0 {
        lemma_fresh(cm, vs, c, d - 1);
        let prev = fresh_neighbors(cm, vs, c, d - 1);
        let cur = fresh_neighbors(cm, vs, c, d);
        assert forall|i: int| 0 <= i < cur.len() implies exists|d2: int|
            0 <= d2 < d && #[trigger] cur[i] == neighbor(c, d2) && cm.contains_key(cur[i]) && !vs.contains(cur[i]) by {
            if i < prev.len() {
                assert(cur[i] == prev[i]);
                let d2 = choose|d2: int|
                    0 <= d2 < d - 1 && #[trigger] prev[i] == neighbor(c, d2) && cm.contains_key(prev[i]) && !vs.contains(prev[i]);
                assert(cur[i] == neighbor(c, d2));
            } else {
                assert(cur[i] == neighbor(c, d - 1));
            }
        }
    }
}

/// `p` is a walk through cells of `cells`, each touching the next.
pub open spec fn is_walk(cells: Set<(i32, i32)>, p: Seq<(i32, i32)>) -> bool {
    &&& p.len() >= 1
    &&& forall|i: int| 0 <= i < p.len() ==> cells.contains(#[trigger] p[i])
    &&& forall|i: int| 0 <= i < p.len() - 1 ==> adjacent(#[trigger] p[i], p[i + 1])
}

/// Cell `c` can be reached from `a` by a walk through cells of `cells`.
pub open spec fn reachable(cells: Set<(i32, i32)>, a: (i32, i32), c: (i32, i32)) -> bool {
    exists|p: Seq<(i32, i32)>| #[trigger] is_walk(cells, p) && p[0] == a && p.last() == c
}

/// The 8-connected component of `a` within `cells`: the cells reachable
/// from it.
pub open spec fn component(cells: Set<(i32, i32)>, a: (i32, i32)) -> Set<(i32, i32)> {
    Set::new(|c: (i32, i32)| reachable(cells, a, c))
}

proof fn lemma_reach_start(cells: Set<(i32, i32)>, a: (i32, i32))
    requires
        cells.contains(a),
    ensures
        reachable(cells, a, a),
{
    let p = seq![a];
    assert(is_walk(cells, p));
}

proof fn lemma_reach_step(cells: Set<(i32, i32)>, a: (i32, i32), b: (i32, i32), c: (i32, i32))
    requires
        reachable(cells, a, b),
        cells.contains(c),
        adjacent(b, c),
    ensures
        reachable(cells, a, c),
{
    let p = choose|p: Seq<(i32, i32)>| #[trigger] is_walk(cells, p) && p[0] == a && p.last() == b;
    let q = p.push(c);
    assert forall|i: int| 0 <= i < q.len() - 1 implies adjacent(#[trigger] q[i], q[i + 1]) by {
        if i < p.len() - 1 {
            assert(q[i] == p[i] && q[i + 1] == p[i + 1]);
        }
    }
    assert(is_walk(cells, q));
}

/// The neighbor at an offset of a cell inside the range touches it.
proof fn lemma_neighbor_adjacent(c: (i32, i32), d: int)
    requires
        inner(c.0),
        inner(c.1),
        0 <= d < 8,
    ensures
        adjacent(c, neighbor(c, d)),
{
}

/// A group that starts at `start`, whose points each touch an earlier one,
/// and whose neighbors within `cells` are in the group or in `v0`, is the
/// component of `start` when that component shares no cell with `v0`.
proof fn lemma_group_is_component(cells: Set<(i32, i32)>, v0: Set<(i32, i32)>, start: (i32, i32), g: Seq<Point>)
    requires
        g.len() >= 1,
        cell(g[0]) == start,
        forall|k: int| 0 <= k < g.len() ==> cells.contains(cell(#[trigger] g[k])),
        linked(g),
        forall|a: (i32, i32), b: (i32, i32)|
            in_group(g, a) && cells.contains(b) && #[trigger] adjacent(a, b) ==> v0.contains(b) || in_group(g, b),
        forall|c: (i32, i32)| reachable(cells, start, c) ==> !v0.contains(c),
    ensures
        group_set(g) == component(cells, start),
{
    assert forall|k: int| 0 <= k < g.len() implies reachable(cells, start, #[trigger] cell(g[k])) by {
        lemma_group_reachable(cells, start, g, k);
    }
    assert forall|c: (i32, i32)| reachable(cells, start, c) implies in_group(g, c) by {
        let p = choose|p: Seq<(i32, i32)>| #[trigger] is_walk(cells, p) && p[0] == start && p.last() == c;
        lemma_walk_in_group(cells, v0, start, g, p, p.len() - 1);
    }
    assert(group_set(g) =~= component(cells, start));
}

proof fn lemma_group_reachable(cells: Set<(i32, i32)>, start: (i32, i32), g: Seq<Point>, k: int)
    requires
        g.len() >= 1,
        cell(g[0]) == start,
        forall|j: int| 0 <= j < g.len() ==> cells.contains(cell(#[trigger] g[j])),
        linked(g),
        0 <= k < g.len(),
    ensures
        reachable(cells, start, cell(g[k])),
    decreases k,
{
    if k == 0 {
        lemma_reach_start(cells, start);
    } else {
        let j = choose|j: int| 0 <= j < k && adjacent(cell(g[j]), #[trigger] cell(g[k]));
        lemma_group_reachable(cells, start, g, j);
        lemma_reach_step(cells, start, cell(g[j]), cell(g[k]));
    }
}

proof fn lemma_walk_in_group(
    cells: Set<(i32, i32)>,
    v0: Set<(i32, i32)>,
    start: (i32, i32),
    g: Seq<Point>,
    p: Seq<(i32, i32)>,
    i: int,
)
    requires
        g.len() >= 1,
        cell(g[0]) == start,
        forall|a: (i32, i32), b: (i32, i32)|
            in_group(g, a) && cells.contains(b) && #[trigger] adjacent(a, b) ==> v0.contains(b) || in_group(g, b),
        forall|c: (i32, i32)| reachable(cells, start, c) ==> !v0.contains(c),
        is_walk(cells, p),
        p[0] == start,
        0 <= i < p.len(),
    ensures
        in_group(g, p[i]),
    decreases i,
{
    if i == 0 {
        assert(cell(g[0]) == p[0]);
    } else {
        lemma_walk_in_group(cells, v0, start, g, p, i - 1);
        let q = p.take(i + 1);
        assert forall|k: int| 0 <= k < q.len() - 1 implies adjacent(#[trigger] q[k], q[k + 1]) by {
            assert(q[k] == p[k] && q[k + 1] == p[k + 1]);
            assert(adjacent(p[k], p[k + 1]));
        }
        assert(is_walk(cells, q));
        assert(q.last() == p[i]);
        assert(reachable(cells, start, p[i]));
        assert(adjacent(p[i - 1], p[i]));
    }
}

/// Breadth-first search from `start`, a point cell, through neighboring
/// cells of `cm` that are not yet visited; returns the points reached, with
/// their colors, in the order reached, and marks them visited.
fn search_from_point(
    start: (i32, i32),
    table: &HashMap<i64, i32>,
    visited: &mut HashSet<i64>,
    Ghost(cm): Ghost<Map<(i32, i32), i32>>,
    Ghost(v0): Ghost<Set<(i32, i32)>>,
) -> (group: Vec<Point>)
    requires
        table_ok(table@, cm),
        cm.dom().finite(),
        forall|c: (i32, i32)| reachable(cm.dom(), start, c) ==> inner(c.0) && inner(c.1),
        visited_ok(old(visited)@, v0),
        cm.contains_key(start),
        !v0.contains(start),
    ensures
        group@.len() >= 1,
        cell(group@[0]) == start,
        forall|k: int|
            0 <= k < group@.len() ==> cm.contains_key(cell(#[trigger] group@[k])) && group@[k].2 == cm[cell(group@[k])]
                && !v0.contains(cell(group@[k])),
        cells_distinct(group@),
        linked(group@),
        forall|k: int| 0 <= k < group@.len() ==> reachable(cm.dom(), start, cell(#[trigger] group@[k])),
        visited_ok(final(visited)@, v0.union(group_set(group@))),
        forall|a: (i32, i32), b: (i32, i32)|
            in_group(group@, a) && cm.contains_key(b) && #[trigger] adjacent(a, b) ==> v0.contains(b) || in_group(group@, b),
        bfs_order(cm, v0, start).found == group@,
        bfs_order(cm, v0, start).visited == v0.union(group_set(group@)),
        bfs_order(cm, v0, start).queue.len() == 0,
{
    let ghost cells = cm.dom();
    let mut queue: VecDeque<(i32, i32)> = VecDeque::new();
    let mut group: Vec<Point> = Vec::new();
    queue.push_back(start);
    visited.insert(key_of(start.0, start.1));
    let ghost mut vs: Set<(i32, i32)> = v0.insert(start);
    let ghost mut nv: Set<(i32, i32)> = set![start];
    assert forall|c: (i32, i32)| #![trigger cell_key(c)] visited@.contains(cell_key(c)) <==> vs.contains(c) by {
        lemma_cell_key(c, start);
    }
    proof {
        assert(vs =~= v0.union(nv));
        vstd::set_lib::lemma_len_subset(nv, cells);
        lemma_reach_start(cells, start);
    }
    assert forall|c: (i32, i32)| vs.contains(c) <==> v0.contains(c) || in_group(group@, c) || queue@.contains(c) by {
        if c == start {
            assert(queue@[0] == start);
        }
    }
    let ghost init = SearchState { visited: v0.insert(start), queue: seq![start], found: Seq::empty() };
    let ghost mut steps: nat = 0;
    assert(queue@ =~= seq![start]);
    assert(group@ =~= Seq::<Point>::empty());
    loop
        invariant
            init == (SearchState { visited: v0.insert(start), queue: seq![start], found: Seq::empty() }),
            search_run(cm, init, steps).visited == vs,
            search_run(cm, init, steps).queue == queue@,
            search_run(cm, init, steps).found == group@,
            steps + 2 * (cells.len() - nv.len()) + queue@.len() <= 2 * cells.len() + 1,
            cells == cm.dom(),
            table_ok(table@, cm),
            cells.finite(),
            forall|c: (i32, i32)| reachable(cells, start, c) ==> inner(c.0) && inner(c.1),
            forall|k: int| 0 <= k < group@.len() ==> reachable(cells, start, cell(#[trigger] group@[k])),
            forall|i: int| 0 <= i < queue@.len() ==> reachable(cells, start, #[trigger] queue@[i]),
            visited_ok(visited@, vs),
            vs == v0.union(nv),
            nv.subset_of(cells),
            nv.finite(),
            nv.len() <= cells.len(),
            forall|c: (i32, i32)| nv.contains(c) ==> !v0.contains(c),
            forall|c: (i32, i32)| vs.contains(c) <==> v0.contains(c) || in_group(group@, c) || queue@.contains(c),
            forall|k: int| 0 <= k < group@.len() ==> !v0.contains(cell(#[trigger] group@[k])),
            forall|i: int| 0 <= i < queue@.len() ==> !v0.contains(#[trigger] queue@[i]),
            forall|k: int, i: int| 0 <= k < group@.len() && 0 <= i < queue@.len() ==> cell(#[trigger] group@[k]) != #[trigger] queue@[i],
            cells_distinct(group@),
            forall|i: int, j: int| 0 <= i < j < queue@.len() ==> #[trigger] queue@[i] != #[trigger] queue@[j],
            forall|k: int|
                0 <= k < group@.len() ==> cm.contains_key(cell(#[trigger] group@[k])) && group@[k].2 == cm[cell(group@[k])],
            forall|i: int| 0 <= i < queue@.len() ==> cm.contains_key(#[trigger] queue@[i]),
            forall|a: (i32, i32), b: (i32, i32)|
                in_group(group@, a) && cells.contains(b) && #[trigger] adjacent(a, b) ==> vs.contains(b),
            group@.len() == 0 ==> queue@ == seq![start],
            group@.len() > 0 ==> cell(group@[0]) == start,
            linked(group@),
            group@.len() > 0 ==> forall|i: int|
                0 <= i < queue@.len() ==> exists|j: int| 0 <= j < group@.len() && adjacent(cell(group@[j]), #[trigger] queue@[i]),
        ensures
            queue@.len() == 0,
            init == (SearchState { visited: v0.insert(start), queue: seq![start], found: Seq::empty() }),
            search_run(cm, init, steps).visited == vs,
            search_run(cm, init, steps).queue == queue@,
            search_run(cm, init, steps).found == group@,
            steps <= 2 * cells.len() + 1,
            forall|k: int| 0 <= k < group@.len() ==> reachable(cells, start, cell(#[trigger] group@[k])),
            visited_ok(visited@, vs),
            forall|c: (i32, i32)| vs.contains(c) <==> v0.contains(c) || in_group(group@, c),
            group@.len() > 0 && cell(group@[0]) == start,
            forall|k: int|
                0 <= k < group@.len() ==> cm.contains_key(cell(#[trigger] group@[k])) && group@[k].2 == cm[cell(group@[k])]
                    && !v0.contains(cell(group@[k])),
            cells_distinct(group@),
            linked(group@),
            forall|a: (i32, i32), b: (i32, i32)|
                in_group(group@, a) && cells.contains(b) && #[trigger] adjacent(a, b) ==> vs.contains(b),
        decreases 2 * (cells.len() - nv.len()) + queue@.len(),
    {
        let ghost measure = 2 * (cells.len() - nv.len()) + queue@.len();
        let ghost old_queue = queue@;
        let ghost st = search_run(cm, init, steps);
        let (x, y) = match queue.pop_front() {
            Some(c) => c,
            None => {
                break;
            },
        };
        let k = key_of(x, y);
        assert(old_queue[0] == (x, y));
        assert(reachable(cells, start, old_queue[0]));
        assert forall|i: int| 0 <= i < queue@.len() implies reachable(cells, start, #[trigger] queue@[i]) by {
            assert(queue@[i] == old_queue[i + 1]);
        }
        match table.get(&k) {
            Some(color) => {
                let ghost old_group = group@;
                let ghost vs_mid = vs;
                group.push((x, y, *color));
                assert(in_group(group@, (x, y))) by {
                    assert(cell(group@[group@.len() - 1]) == (x, y));
                }
                assert forall|c: (i32, i32)| vs.contains(c) <==> v0.contains(c) || in_group(group@, c) || queue@.contains(c) by {
                    if in_group(old_group, c) {
                        let j = choose|j: int| 0 <= j < old_group.len() && #[trigger] cell(old_group[j]) == c;
                        assert(cell(group@[j]) == c);
                    }
                    if in_group(group@, c) && c != (x, y) {
                        let j = choose|j: int| 0 <= j < group@.len() && #[trigger] cell(group@[j]) == c;
                        assert(cell(old_group[j]) == c);
                    }
                    if old_queue.contains(c) && c != (x, y) {
                        let i = choose|i: int| 0 <= i < old_queue.len() && old_queue[i] == c;
                        assert(queue@[i - 1] == c);
                    }
                    if queue@.contains(c) {
                        let i = choose|i: int| 0 <= i < queue@.len() && queue@[i] == c;
                        assert(old_queue[i + 1] == c);
                    }
                }
                proof {
                    if old_group.len() > 0 {
                        assert(exists|j: int| 0 <= j < old_group.len() && adjacent(cell(old_group[j]), #[trigger] old_queue[0]));
                    }
                }
                assert(linked(group@)) by {
                    assert forall|kk: int| 0 < kk < group@.len() implies exists|j: int| 0 <= j < kk && adjacent(cell(group@[j]), #[trigger] cell(group@[kk])) by {
                        if kk < old_group.len() {
                            let j = choose|j: int| 0 <= j < kk && adjacent(cell(old_group[j]), #[trigger] cell(old_group[kk]));
                            assert(adjacent(cell(group@[j]), cell(group@[kk])));
                        } else {
                            let j = choose|j: int| 0 <= j < old_group.len() && adjacent(cell(old_group[j]), #[trigger] old_queue[0]);
                            assert(adjacent(cell(group@[j]), cell(group@[kk])));
                        }
                    }
                }
                let mut d: usize = 0;
                while d < 8
                    invariant
                        cells == cm.dom(),
                        table_ok(table@, cm),
                        cells.finite(),
                        forall|c: (i32, i32)| reachable(cells, start, c) ==> inner(c.0) && inner(c.1),
                        forall|kk: int| 0 <= kk < group@.len() ==> reachable(cells, start, cell(#[trigger] group@[kk])),
                        forall|i: int| 0 <= i < queue@.len() ==> reachable(cells, start, #[trigger] queue@[i]),
                        reachable(cells, start, (x, y)),
                        cm.contains_key((x, y)),
                        inner(x),
                        inner(y),
                        queue@ == old_queue.drop_first() + fresh_neighbors(cm, vs_mid, (x, y), d as int),
                        vs == vs_mid.union(seq_cells(fresh_neighbors(cm, vs_mid, (x, y), d as int))),
                        group@ == old_group.push((x, y, cm[(x, y)])),
                        in_group(group@, (x, y)),
                        d <= 8,
                        visited_ok(visited@, vs),
                        vs == v0.union(nv),
                        nv.subset_of(cells),
                        nv.finite(),
                        nv.len() <= cells.len(),
                        forall|c: (i32, i32)| nv.contains(c) ==> !v0.contains(c),
                        forall|c: (i32, i32)| vs.contains(c) <==> v0.contains(c) || in_group(group@, c) || queue@.contains(c),
                        forall|kk: int| 0 <= kk < group@.len() ==> !v0.contains(cell(#[trigger] group@[kk])),
                        forall|i: int| 0 <= i < queue@.len() ==> !v0.contains(#[trigger] queue@[i]),
                        forall|kk: int, i: int| 0 <= kk < group@.len() && 0 <= i < queue@.len() ==> cell(#[trigger] group@[kk]) != #[trigger] queue@[i],
                        forall|i: int, j: int| 0 <= i < j < queue@.len() ==> #[trigger] queue@[i] != #[trigger] queue@[j],
                        forall|i: int| 0 <= i < queue@.len() ==> cm.contains_key(#[trigger] queue@[i]),
                        forall|i: int|
                            0 <= i < queue@.len() ==> exists|j: int| 0 <= j < group@.len() && adjacent(cell(group@[j]), #[trigger] queue@[i]),
                        forall|dd: int|
                            0 <= dd < d ==> (cells.contains(((x + direction(dd).0) as i32, (y + direction(dd).1) as i32))
                                ==> vs.contains(((x + (#[trigger] direction(dd)).0) as i32, (y + direction(dd).1) as i32))),
                        2 * (cells.len() - nv.len()) + queue@.len() < measure,
                        forall|a: (i32, i32), b: (i32, i32)|
                            in_group(old_group, a) && cells.contains(b) && #[trigger] adjacent(a, b) ==> vs.contains(b),
                    decreases 8 - d,
                {
                    let (dx, dy) = direction_exec(d);
                    let nx = x + dx;
                    let ny = y + dy;
                    let nk = key_of(nx, ny);
                    let ghost fr = fresh_neighbors(cm, vs_mid, (x, y), d as int);
                    assert((nx, ny) == neighbor((x, y), d as int));
                    assert(!seq_cells(fr).contains((nx, ny))) by {
                        lemma_fresh(cm, vs_mid, (x, y), d as int);
                        if fr.contains((nx, ny)) {
                            let i = choose|i: int| 0 <= i < fr.len() && fr[i] == (nx, ny);
                            let d2 = choose|d2: int|
                                0 <= d2 < d && #[trigger] fr[i] == neighbor((x, y), d2) && cm.contains_key(fr[i]) && !vs_mid.contains(fr[i]);
                            lemma_neighbors_distinct((x, y), d2, d as int);
                        }
                    }
                    proof {
                        lemma_cell_key((nx, ny), (nx, ny));
                    }
                    if table.contains_key(&nk) && !visited.contains(&nk) {
                        let ghost old_queue2 = queue@;
                        let ghost old_vs = vs;
                        visited.insert(nk);
                        queue.push_back((nx, ny));
                        proof {
                            vs = vs.insert((nx, ny));
                            nv = nv.insert((nx, ny));
                            assert(vs =~= v0.union(nv));
                            vstd::set_lib::lemma_len_subset(nv, cells);
                            lemma_neighbor_adjacent((x, y), d as int);
                            lemma_reach_step(cells, start, (x, y), (nx, ny));
                            assert(fresh_neighbors(cm, vs_mid, (x, y), d + 1) == fr.push((nx, ny)));
                            assert(queue@ =~= old_queue.drop_first() + fr.push((nx, ny)));
                            lemma_seq_cells_push(fr, (nx, ny));
                            assert(vs =~= vs_mid.union(seq_cells(fr.push((nx, ny)))));
                        }
                        assert forall|c: (i32, i32)| #![trigger cell_key(c)] visited@.contains(cell_key(c)) <==> vs.contains(c) by {
                            lemma_cell_key(c, (nx, ny));
                        }
                        assert forall|c: (i32, i32)| vs.contains(c) <==> v0.contains(c) || in_group(group@, c) || queue@.contains(c) by {
                            if old_queue2.contains(c) {
                                let i = choose|i: int| 0 <= i < old_queue2.len() && old_queue2[i] == c;
                                assert(queue@[i] == c);
                            }
                            if queue@.contains(c) && c != (nx, ny) {
                                let i = choose|i: int| 0 <= i < queue@.len() && queue@[i] == c;
                                assert(old_queue2[i] == c);
                            }
                            assert(queue@[queue@.len() - 1] == (nx, ny));
                        }
                        assert forall|i: int| 0 <= i < queue@.len() implies exists|j: int| 0 <= j < group@.len() && adjacent(cell(group@[j]), #[trigger] queue@[i]) by {
                            if i == queue@.len() - 1 {
                                let j = choose|j: int| 0 <= j < group@.len() && #[trigger] cell(group@[j]) == (x, y);
                                assert(adjacent(cell(group@[j]), queue@[i]));
                            } else {
                                assert(queue@[i] == old_queue2[i]);
                            }
                        }
                    } else {
                        assert(fresh_neighbors(cm, vs_mid, (x, y), d + 1) == fr);
                    }
                    d = d + 1;
                }
                proof {
                    assert(old_queue[0] == (x, y));
                    assert(st.queue == old_queue && st.visited == vs_mid && st.found == old_group);
                    lemma_run_next(cm, init, steps);
                    steps = steps + 1;
                }
                assert forall|a: (i32, i32), b: (i32, i32)|
                    in_group(group@, a) && cells.contains(b) && #[trigger] adjacent(a, b) implies vs.contains(b) by {
                    if a == (x, y) {
                        lemma_neighbors(a, b);
                        let dd = choose|dd: int| 0 <= dd < 8 && b.0 == a.0 + (#[trigger] direction(dd)).0 && b.1 == a.1 + direction(dd).1;
                        assert(b == ((x + direction(dd).0) as i32, (y + direction(dd).1) as i32));
                    } else {
                        let j = choose|j: int| 0 <= j < group@.len() && #[trigger] cell(group@[j]) == a;
                        assert(j < old_group.len());
                        assert(in_group(old_group, a));
                    }
                }
            },
            None => {
                proof {
                    assert(!cm.contains_key((x, y)));
                    lemma_run_next(cm, init, steps);
                    steps = steps + 1;
                }
            },
        }
    }
    proof {
        let fuel = (2 * cells.len() + 1) as nat;
        lemma_run_split(cm, init, steps, (fuel - steps) as nat);
        lemma_run_idle(cm, search_run(cm, init, steps), (fuel - steps) as nat);
        assert(vs =~= v0.union(group_set(group@)));
    }
    assert forall|c: (i32, i32)| #![trigger cell_key(c)] visited@.contains(cell_key(c)) <==> v0.union(group_set(group@)).contains(c) by {}
    group
}

/// Breadth-first search from `start` through neighboring cells of `cm` that
/// are not yet visited; returns the points reached, with their colors, in the
/// order reached (`bfs_order`), and marks `start` and them visited.  A start
/// that is no point gives no point.  When the component of `start` shares no
/// cell with the visited ones, the points reached are that component.
fn bfs(
    start: (i32, i32),
    table: &HashMap<i64, i32>,
    visited: &mut HashSet<i64>,
    Ghost(cm): Ghost<Map<(i32, i32), i32>>,
    Ghost(v0): Ghost<Set<(i32, i32)>>,
) -> (group: Vec<Point>)
    requires
        table_ok(table@, cm),
        cm.dom().finite(),
        forall|c: (i32, i32)| reachable(cm.dom(), start, c) ==> inner(c.0) && inner(c.1),
        visited_ok(old(visited)@, v0),
        cm.contains_key(start) ==> !v0.contains(start),
    ensures
        !cm.contains_key(start) ==> group@.len() == 0,
        cm.contains_key(start) ==> group@.len() >= 1 && cell(group@[0]) == start,
        forall|k: int|
            0 <= k < group@.len() ==> cm.contains_key(cell(#[trigger] group@[k])) && group@[k].2 == cm[cell(group@[k])]
                && !v0.contains(cell(group@[k])),
        cells_distinct(group@),
        linked(group@),
        visited_ok(final(visited)@, v0.insert(start).union(group_set(group@))),
        forall|a: (i32, i32), b: (i32, i32)|
            in_group(group@, a) && cm.contains_key(b) && #[trigger] adjacent(a, b) ==> v0.contains(b) || in_group(group@, b),
        cm.contains_key(start) && (forall|c: (i32, i32)| reachable(cm.dom(), start, c) ==> !v0.contains(c))
            ==> group_set(group@) == component(cm.dom(), start),
        bfs_order(cm, v0, start).found == group@,
        bfs_order(cm, v0, start).visited == v0.insert(start).union(group_set(group@)),
        bfs_order(cm, v0, start).queue.len() == 0,
{
    let k = key_of(start.0, start.1);
    if !table.contains_key(&k) {
        visited.insert(k);
        let group: Vec<Point> = Vec::new();
        proof {
            let init = SearchState { visited: v0.insert(start), queue: seq![start], found: Seq::empty() };
            let fuel = (2 * cm.dom().len() + 1) as nat;
            lemma_run_split(cm, init, 1, (fuel - 1) as nat);
            reveal_with_fuel(search_run, 2);
            let after = search_run(cm, init, 1);
            assert(after.queue =~= Seq::<(i32, i32)>::empty());
            lemma_run_idle(cm, after, (fuel - 1) as nat);
            assert(group_set(group@) =~= Set::<(i32, i32)>::empty());
            assert(v0.insert(start).union(group_set(group@)) =~= v0.insert(start));
            assert forall|c: (i32, i32)| #![trigger cell_key(c)] visited@.contains(cell_key(c)) <==> v0.insert(start).contains(c) by {
                lemma_cell_key(c, start);
            }
        }
        return group;
    }
    let group = search_from_point(start, table, visited, Ghost(cm), Ghost(v0));
    proof {
        assert(in_group(group@, start)) by {
            assert(cell(group@[0]) == start);
        }
        assert(v0.insert(start).union(group_set(group@)) =~= v0.union(group_set(group@)));
        if forall|c: (i32, i32)| reachable(cm.dom(), start, c) ==> !v0.contains(c) {
            lemma_group_is_component(cm.dom(), v0, start, group@);
        }
    }
    group
}

/// The groups as sequences.
pub open spec fn groups_view(gs: Seq<Vec<Point>>) -> Seq<Seq<Point>> {
    Seq::new(gs.len(), |i: int| gs[i]@)
}

/// Cell `c` belongs to one of the first `n` groups.
pub open spec fn in_some_group(gs: Seq<Seq<Point>>, n: int, c: (i32, i32)) -> bool {
    exists|g: int| 0 <= g < n && #[trigger] in_group(gs[g], c)
}

/// Each group is a nonempty set of distinct cells of `cm` with their colors,
/// closed under neighbors within the cells, each point after the first
/// touching an earlier one; no cell is in two groups.
pub open spec fn groups_partition(gs: Seq<Seq<Point>>, cm: Map<(i32, i32), i32>) -> bool {
    &&& forall|g: int| 0 <= g < gs.len() ==> (#[trigger] gs[g]).len() >= 1
    &&& forall|g: int| 0 <= g < gs.len() ==> cells_distinct(#[trigger] gs[g])
    &&& forall|g: int| 0 <= g < gs.len() ==> linked(#[trigger] gs[g])
    &&& forall|g: int| 0 <= g < gs.len() ==> closed(group_set(#[trigger] gs[g]), cm.dom())
    &&& forall|g: int, k: int|
        0 <= g < gs.len() && 0 <= k < gs[g].len() ==> cm.contains_key(cell(#[trigger] gs[g][k])) && gs[g][k].2
            == cm[cell(gs[g][k])]
    &&& forall|g1: int, g2: int, c: (i32, i32)|
        0 <= g1 < g2 < gs.len() && #[trigger] in_group(gs[g1], c) ==> !#[trigger] in_group(gs[g2], c)
}

/// Group `g` starts at the cell of the first point whose cell is in no
/// earlier group.
pub open spec fn group_starts(gs: Seq<Seq<Point>>, points: Seq<Point>) -> bool {
    forall|g: int|
        0 <= g < gs.len() ==> exists|i: int|
            0 <= i < points.len() && cell(points[i]) == cell((#[trigger] gs[g])[0]) && forall|j: int|
                0 <= j < i ==> in_some_group(gs, g, cell(#[trigger] points[j]))
}

/// `gs` are the 8-connected groups of the points' cells (a later point
/// giving the color of a cell that occurs twice), in the order of the first
/// point of each.
pub open spec fn groups_of(gs: Seq<Seq<Point>>, points: Seq<Point>) -> bool {
    &&& groups_partition(gs, cell_map(points))
    &&& forall|c: (i32, i32)| cell_map(points).contains_key(c) ==> in_some_group(gs, gs.len() as int, c)
    &&& group_starts(gs, points)
}

/// The visited cells and the groups after a search (`bfs_order`) has
/// started from each of the first `n` points whose cell was not yet visited,
/// in order.
#[verifier::opaque]
pub open spec fn search_all(cm: Map<(i32, i32), i32>, points: Seq<Point>, n: int) -> (Set<(i32, i32)>, Seq<Seq<Point>>)
    decreases n,
{
    if n <= 0 {
        (Set::empty(), Seq::empty())
    } else {
        let (vs, gs) = search_all(cm, points, n - 1);
        let c = cell(points[n - 1]);
        if vs.contains(c) {
            (vs, gs)
        } else {
            let s = bfs_order(cm, vs, c);
            (s.visited, gs.push(s.found))
        }
    }
}

/// One more point: its cell is skipped when visited, and searched from
/// otherwise.
proof fn lemma_search_all_next(cm: Map<(i32, i32), i32>, points: Seq<Point>, i: int, vs: Set<(i32, i32)>, gs: Seq<Seq<Point>>)
    requires
        0 <= i < points.len(),
        search_all(cm, points, i).0 == vs,
        search_all(cm, points, i).1 == gs,
    ensures
        vs.contains(cell(points[i])) ==> search_all(cm, points, i + 1) == (vs, gs),
        !vs.contains(cell(points[i])) ==> search_all(cm, points, i + 1) == (
            bfs_order(cm, vs, cell(points[i])).visited,
            gs.push(bfs_order(cm, vs, cell(points[i])).found),
        ),
{
    reveal(search_all);
}

/// The groups that the searches from the points find, in order.
pub open spec fn groups_found(points: Seq<Point>) -> Seq<Seq<Point>> {
    search_all(cell_map(points), points, points.len() as int).1
}

/// The 8-connected groups of the points, each in breadth-first order from its
/// first point, in the order in which the points first reach them.
pub fn find_groups(points: &Vec<Point>) -> (groups: Vec<Vec<Point>>)
    requires
        points_inner(points@),
    ensures
        groups_view(groups@) == groups_found(points@),
        groups_of(groups_view(groups@), points@),
{
    let ghost cm = cell_map(points@);
    proof {
        lemma_cell_map(points@);
    }
    assert forall|c: (i32, i32)| cm.contains_key(c) implies inner(c.0) && inner(c.1) by {
        let i = choose|i: int| 0 <= i < points@.len() && #[trigger] cell(points@[i]) == c;
        assert(inner(points@[i].0) && inner(points@[i].1));
    }
    let table = cell_table(points);
    let mut visited: HashSet<i64> = HashSet::new();
    let mut groups: Vec<Vec<Point>> = Vec::new();
    let ghost mut vs: Set<(i32, i32)> = Set::empty();
    let n = points.len();
    let mut i: usize = 0;
    assert(search_all(cm, points@, 0) == (Set::<(i32, i32)>::empty(), Seq::<Seq<Point>>::empty())) by {
        reveal(search_all);
    }
    assert(groups_view(groups@) =~= Seq::<Seq<Point>>::empty());
    while i < n
        invariant
            n == points@.len(),
            i <= n,
            cm == cell_map(points@),
            cm.dom().finite(),
            forall|c: (i32, i32)| cm.contains_key(c) <==> exists|j: int| 0 <= j < points@.len() && #[trigger] cell(points@[j]) == c,
            forall|c: (i32, i32)| cm.contains_key(c) ==> inner(c.0) && inner(c.1),
            table_ok(table@, cm),
            visited_ok(visited@, vs),
            vs.subset_of(cm.dom()),
            closed(vs, cm.dom()),
            forall|c: (i32, i32)| vs.contains(c) <==> in_some_group(groups_view(groups@), groups@.len() as int, c),
            groups_partition(groups_view(groups@), cm),
            group_starts(groups_view(groups@), points@),
            forall|j: int| 0 <= j < i ==> vs.contains(cell(#[trigger] points@[j])),
            search_all(cm, points@, i as int).0 == vs,
            search_all(cm, points@, i as int).1 == groups_view(groups@),
        decreases n - i,
    {
        let p = points[i];
        let k = key_of(p.0, p.1);
        proof {
            lemma_search_all_next(cm, points@, i as int, vs, groups_view(groups@));
        }
        if !visited.contains(&k) {
            assert(cm.contains_key(cell(points@[i as int])));
            let ghost old_groups = groups_view(groups@);
            let ghost old_vs = vs;
            let group = bfs((p.0, p.1), &table, &mut visited, Ghost(cm), Ghost(vs));
            let ghost g = group@;
            if !group.is_empty() {
                groups.push(group);
                proof {
                    vs = vs.union(group_set(g));
                }
                let ghost gs = groups_view(groups@);
                let ghost m = old_groups.len() as int;
                assert(gs =~= old_groups.push(g));
                assert(cell(points@[i as int]) == (p.0, p.1));
                assert forall|c: (i32, i32)| vs.contains(c) <==> in_some_group(gs, gs.len() as int, c) by {
                    if in_group(g, c) {
                        assert(in_group(gs[m], c));
                    }
                    if old_vs.contains(c) {
                        let h = choose|h: int| 0 <= h < m && #[trigger] in_group(old_groups[h], c);
                        assert(in_group(gs[h], c));
                    }
                    if in_some_group(gs, gs.len() as int, c) {
                        let h = choose|h: int| 0 <= h < gs.len() && #[trigger] in_group(gs[h], c);
                        if h < m {
                            assert(in_group(old_groups[h], c));
                        }
                    }
                }
                assert(closed(group_set(g), cm.dom())) by {
                    assert forall|a: (i32, i32), b: (i32, i32)|
                        group_set(g).contains(a) && cm.dom().contains(b) && #[trigger] adjacent(a, b) implies group_set(g).contains(b) by {
                        assert(old_vs.union(group_set(g)).contains(b));
                        if old_vs.contains(b) {
                            let kk = choose|kk: int| 0 <= kk < g.len() && #[trigger] cell(g[kk]) == a;
                            assert(cm.contains_key(cell(g[kk])));
                            assert(adjacent(b, a));
                            assert(old_vs.contains(a));
                        }
                    }
                }
                assert(groups_partition(gs, cm)) by {
                    assert forall|g1: int, g2: int, c: (i32, i32)|
                        0 <= g1 < g2 < gs.len() && #[trigger] in_group(gs[g1], c) implies !#[trigger] in_group(gs[g2], c) by {
                        if g2 == m {
                            assert(in_group(old_groups[g1], c));
                            assert(old_vs.contains(c));
                            if in_group(g, c) {
                                let kk = choose|kk: int| 0 <= kk < g.len() && #[trigger] cell(g[kk]) == c;
                                assert(!old_vs.contains(cell(g[kk])));
                            }
                        } else {
                            assert(in_group(old_groups[g1], c));
                        }
                    }
                    assert forall|h: int| 0 <= h < gs.len() implies closed(group_set(#[trigger] gs[h]), cm.dom()) by {
                        if h < m {
                            assert(gs[h] == old_groups[h]);
                        }
                    }
                }
                assert(group_starts(gs, points@)) by {
                    assert forall|h: int|
                        0 <= h < gs.len() implies exists|ii: int|
                            0 <= ii < points@.len() && cell(points@[ii]) == cell((#[trigger] gs[h])[0]) && forall|j: int|
                                0 <= j < ii ==> in_some_group(gs, h, cell(#[trigger] points@[j])) by {
                        if h < m {
                            let ii = choose|ii: int|
                                0 <= ii < points@.len() && cell(points@[ii]) == cell(old_groups[h][0]) && forall|j: int|
                                    0 <= j < ii ==> in_some_group(old_groups, h, cell(#[trigger] points@[j]));
                            assert forall|j: int| 0 <= j < ii implies in_some_group(gs, h, cell(#[trigger] points@[j])) by {
                                assert(in_some_group(old_groups, h, cell(points@[j])));
                                let hh = choose|hh: int| 0 <= hh < h && #[trigger] in_group(old_groups[hh], cell(points@[j]));
                                assert(in_group(gs[hh], cell(points@[j])));
                            }
                        } else {
                            assert forall|j: int| 0 <= j < i implies in_some_group(gs, h, cell(#[trigger] points@[j])) by {
                                assert(old_vs.contains(cell(points@[j])));
                                let hh = choose|hh: int| 0 <= hh < m && #[trigger] in_group(old_groups[hh], cell(points@[j]));
                                assert(in_group(gs[hh], cell(points@[j])));
                            }
                            assert(cell(points@[i as int]) == cell(gs[h][0]));
                        }
                    }
                }
            }
        } else {
            assert(vs.contains(cell(points@[i as int]))) by {
                lemma_cell_key(cell(points@[i as int]), (p.0, p.1));
            }
        }
        assert(vs.contains(cell(points@[i as int]))) by {
            if !vs.contains(cell(points@[i as int])) {
                assert(in_group(groups_view(groups@)[groups@.len() - 1], cell(points@[i as int])));
            }
        }
        i = i + 1;
    }
    assert forall|c: (i32, i32)| cm.contains_key(c) implies in_some_group(groups_view(groups@), groups@.len() as int, c) by {
        let j = choose|j: int| 0 <= j < points@.len() && #[trigger] cell(points@[j]) == c;
        assert(vs.contains(cell(points@[j])));
    }
    groups
}

/// A group of `l` points stays before one of `n` points: in ascending
/// order when `l <= n`, in descending order when `l >= n`.
pub open spec fn stays_before(l: nat, n: nat, desc: bool) -> bool {
    if desc {
        l >= n
    } else {
        l <= n
    }
}

/// Where a group of `n` points goes into `s`: after the leading groups that
/// stay before it.
pub open spec fn insert_pos(s: Seq<Seq<Point>>, n: nat, desc: bool) -> int
    decreases s.len(),
{
    if s.len() == 0 {
        0
    } else if stays_before(s[0].len(), n, desc) {
        1 + insert_pos(s.drop_first(), n, desc)
    } else {
        0
    }
}

/// `s` stably sorted by size: each group inserted, in order, after the
/// groups before it that stay before it; ascending, or descending when
/// `desc` holds.
pub open spec fn sorted_by_size(s: Seq<Seq<Point>>, desc: bool) -> Seq<Seq<Point>>
    decreases s.len(),
{
    if s.len() == 0 {
        s
    } else {
        let r = sorted_by_size(s.drop_last(), desc);
        r.insert(insert_pos(r, s.last().len(), desc), s.last())
    }
}

proof fn lemma_insert_pos_bound(s: Seq<Seq<Point>>, n: nat, desc: bool)
    ensures
        0 <= insert_pos(s, n, desc) <= s.len(),
    decreases s.len(),
{
    if s.len() > 0 && stays_before(s[0].len(), n, desc) {
        lemma_insert_pos_bound(s.drop_first(), n, desc);
    }
}

proof fn lemma_sorted_len(s: Seq<Seq<Point>>, desc: bool)
    ensures
        sorted_by_size(s, desc).len() == s.len(),
    decreases s.len(),
{
    if s.len() > 0 {
        lemma_sorted_len(s.drop_last(), desc);
        lemma_insert_pos_bound(sorted_by_size(s.drop_last(), desc), s.last().len(), desc);
    }
}

fn stays_before_exec(l: usize, n: usize, desc: bool) -> (r: bool)
    ensures
        r == stays_before(l as nat, n as nat, desc),
{
    if desc {
        l >= n
    } else {
        l <= n
    }
}

/// Inserts `g` into `out` at `insert_pos`.
fn insert_by_size(out: &mut Vec<Vec<Point>>, g: Vec<Point>, desc: bool)
    ensures
        groups_view(final(out)@) == groups_view(old(out)@).insert(insert_pos(groups_view(old(out)@), g@.len(), desc), g@),
{
    let ghost s = groups_view(out@);
    let n = g.len();
    let mut p: usize = 0;
    assert(s.skip(0) =~= s);
    while p < out.len() && stays_before_exec(out[p].len(), n, desc)
        invariant
            s == groups_view(out@),
            n == g@.len(),
            p <= out@.len(),
            insert_pos(s, n as nat, desc) == p + insert_pos(s.skip(p as int), n as nat, desc),
        decreases out@.len() - p,
    {
        assert(s.skip(p as int).drop_first() =~= s.skip(p + 1));
        assert(s.skip(p as int)[0] == s[p as int]);
        p = p + 1;
    }
    proof {
        if p < out@.len() {
            assert(s.skip(p as int)[0] == s[p as int]);
        } else {
            assert(s.skip(p as int).len() == 0);
        }
    }
    out.insert(p, g);
    assert(groups_view(out@) =~= s.insert(p as int, g@));
}

/// The groups stably sorted by size: ascending, or descending when `desc`
/// holds.
pub fn sort_groups_by_size(groups: Vec<Vec<Point>>, desc: bool) -> (r: Vec<Vec<Point>>)
    ensures
        groups_view(r@) == sorted_by_size(groups_view(groups@), desc),
{
    let ghost s = groups_view(groups@);
    let mut src = groups;
    let mut rev: Vec<Vec<Point>> = Vec::new();
    while src.len() > 0
        invariant
            s.len() == src@.len() + rev@.len(),
            forall|k: int| 0 <= k < src@.len() ==> #[trigger] src@[k]@ == s[k],
            forall|k: int| 0 <= k < rev@.len() ==> #[trigger] rev@[k]@ == s[s.len() - 1 - k],
        decreases src@.len(),
    {
        let g = src.pop().unwrap();
        rev.push(g);
    }
    let mut out: Vec<Vec<Point>> = Vec::new();
    let ghost mut done: int = 0;
    assert(s.take(0) =~= Seq::<Seq<Point>>::empty());
    while rev.len() > 0
        invariant
            s.len() == done + rev@.len(),
            0 <= done <= s.len(),
            forall|k: int| 0 <= k < rev@.len() ==> #[trigger] rev@[k]@ == s[s.len() - 1 - k],
            groups_view(out@) == sorted_by_size(s.take(done), desc),
        decreases rev@.len(),
    {
        let g = rev.pop().unwrap();
        assert(g@ == s[done]);
        insert_by_size(&mut out, g, desc);
        assert(s.take(done + 1).drop_last() =~= s.take(done));
        proof {
            done = done + 1;
        }
    }
    assert(s.take(done) =~= s);
    out
}

/// The closeness table as sequences.
pub open spec fn table_view(close: Seq<Vec<bool>>) -> Seq<Seq<bool>> {
    Seq::new(close.len(), |i: int| close[i]@)
}

/// The first `j' >= j` whose group's root component is close to the root
/// component of group `i`.
pub open spec fn first_close(
    groups: Seq<Seq<Point>>,
    roots: Seq<usize>,
    close: Seq<Seq<bool>>,
    i: int,
    j: int,
) -> Option<int>
    decreases groups.len() - j,
{
    if j < 0 || j >= groups.len() {
        None
    } else if close[roots[i] as int][roots[j] as int] {
        Some(j)
    } else {
        first_close(groups, roots, close, i, j + 1)
    }
}

/// The first pair `(i, j)` with `i' >= i`, in lexicographic order, where
/// group `i` has fewer than `min` points and `j > i` is the first group
/// whose root component is close to that of `i`.
pub open spec fn first_pair(
    groups: Seq<Seq<Point>>,
    roots: Seq<usize>,
    min: nat,
    close: Seq<Seq<bool>>,
    i: int,
) -> Option<(int, int)>
    decreases groups.len() - i,
{
    if i < 0 || i >= groups.len() {
        None
    } else if groups[i].len() < min && first_close(groups, roots, close, i, i + 1) is Some {
        Some((i, first_close(groups, roots, close, i, i + 1)->Some_0))
    } else {
        first_pair(groups, roots, min, close, i + 1)
    }
}

/// Group `j` appended to group `i`, and removed.
pub open spec fn merged_at(groups: Seq<Seq<Point>>, i: int, j: int) -> Seq<Seq<Point>> {
    groups.update(i, groups[i] + groups[j]).remove(j)
}

/// Result of merging: while some group with fewer than `min` points has a
/// later group whose root component is close to its own, the first such
/// pair (see `first_pair`) is merged; each group keeps the root of its first
/// part.
pub open spec fn merge_result(
    groups: Seq<Seq<Point>>,
    roots: Seq<usize>,
    min: nat,
    close: Seq<Seq<bool>>,
) -> (Seq<Seq<Point>>, Seq<usize>)
    decreases groups.len(),
{
    match first_pair(groups, roots, min, close, 0) {
        Some((i, j)) => if 0 <= i < j < groups.len() {
            merge_result(merged_at(groups, i, j), roots.remove(j), min, close)
        } else {
            (groups, roots)
        },
        None => (groups, roots),
    }
}

proof fn lemma_first_close_bound(groups: Seq<Seq<Point>>, roots: Seq<usize>, close: Seq<Seq<bool>>, i: int, j: int)
    ensures
        first_close(groups, roots, close, i, j) matches Some(k) ==> j <= k < groups.len() && close[roots[i] as int][roots[k] as int],
    decreases groups.len() - j,
{
    if 0 <= j < groups.len() && !close[roots[i] as int][roots[j] as int] {
        lemma_first_close_bound(groups, roots, close, i, j + 1);
    }
}

proof fn lemma_first_pair_bound(groups: Seq<Seq<Point>>, roots: Seq<usize>, min: nat, close: Seq<Seq<bool>>, i: int)
    ensures
        first_pair(groups, roots, min, close, i) matches Some((a, b)) ==> i <= a < b < groups.len(),
    decreases groups.len() - i,
{
    if 0 <= i < groups.len() {
        lemma_first_close_bound(groups, roots, close, i, i + 1);
        if !(groups[i].len() < min && first_close(groups, roots, close, i, i + 1) is Some) {
            lemma_first_pair_bound(groups, roots, min, close, i + 1);
        }
    }
}

/// The first pair of `first_pair`, found as the merging loop scans: groups
/// `i` in order, and for a small one, later groups `j` in order.
fn find_pair(
    groups: &Vec<Vec<Point>>,
    roots: &Vec<usize>,
    min_group_size: usize,
    close: &Vec<Vec<bool>>,
    Ghost(m0): Ghost<nat>,
) -> (r: Option<(usize, usize)>)
    requires
        close@.len() == m0,
        forall|a: int| 0 <= a < close@.len() ==> (#[trigger] close@[a])@.len() == m0,
        roots@.len() == groups@.len(),
        forall|a: int| 0 <= a < roots@.len() ==> #[trigger] roots@[a] < m0,
    ensures
        match r {
            Some((a, b)) => first_pair(groups_view(groups@), roots@, min_group_size as nat, table_view(close@), 0)
                == Some((a as int, b as int)),
            None => first_pair(groups_view(groups@), roots@, min_group_size as nat, table_view(close@), 0) is None,
        },
{
    let ghost gv = groups_view(groups@);
    let ghost cl = table_view(close@);
    let len = groups.len();
    let mut i: usize = 0;
    while i < len
        invariant
            len == groups@.len(),
            gv == groups_view(groups@),
            cl == table_view(close@),
            close@.len() == m0,
            forall|a: int| 0 <= a < close@.len() ==> (#[trigger] close@[a])@.len() == m0,
            roots@.len() == len,
            forall|a: int| 0 <= a < roots@.len() ==> #[trigger] roots@[a] < m0,
            i <= len,
            first_pair(gv, roots@, min_group_size as nat, cl, 0) == first_pair(gv, roots@, min_group_size as nat, cl, i as int),
        decreases len - i,
    {
        if groups[i].len() < min_group_size {
            let mut j: usize = i + 1;
            while j < len
                invariant
                    len == groups@.len(),
                    gv == groups_view(groups@),
                    cl == table_view(close@),
                    close@.len() == m0,
                    forall|a: int| 0 <= a < close@.len() ==> (#[trigger] close@[a])@.len() == m0,
                    roots@.len() == len,
                    forall|a: int| 0 <= a < roots@.len() ==> #[trigger] roots@[a] < m0,
                    i < len,
                    gv[i as int].len() < min_group_size,
                    i + 1 <= j <= len,
                    first_pair(gv, roots@, min_group_size as nat, cl, 0) == first_pair(gv, roots@, min_group_size as nat, cl, i as int),
                    first_close(gv, roots@, cl, i as int, i + 1) == first_close(gv, roots@, cl, i as int, j as int),
                decreases len - j,
            {
                if close[roots[i]][roots[j]] {
                    return Some((i, j));
                }
                j = j + 1;
            }
        }
        i = i + 1;
    }
    None
}

/// Merges small groups into later groups whose root components are close:
/// while some group with fewer than `min_group_size` points has a later
/// group whose component is close to its own (`close[a][b]` for the root
/// components `a` and `b`), the first such pair is merged.  Group `k` starts
/// with root `k`; returns the groups and their roots.
pub fn merge_close_small_groups(groups: Vec<Vec<Point>>, min_group_size: usize, close: &Vec<Vec<bool>>) -> (r: (
    Vec<Vec<Point>>,
    Vec<usize>,
))
    requires
        close@.len() == groups@.len(),
        forall|i: int| 0 <= i < close@.len() ==> (#[trigger] close@[i])@.len() == groups@.len(),
    ensures
        (groups_view(r.0@), r.1@) == merge_result(
            groups_view(groups@),
            Seq::new(groups@.len(), |i: int| i as usize),
            min_group_size as nat,
            table_view(close@),
        ),
{
    let ghost cl = table_view(close@);
    let ghost m0 = groups@.len();
    let n = groups.len();
    let mut roots: Vec<usize> = Vec::new();
    let mut k: usize = 0;
    while k < n
        invariant
            k <= n,
            roots@.len() == k,
            forall|i: int| 0 <= i < k ==> #[trigger] roots@[i] == i,
        decreases n - k,
    {
        roots.push(k);
        k = k + 1;
    }
    assert(roots@ =~= Seq::new(groups@.len(), |i: int| i as usize));
    let ghost target = merge_result(
        groups_view(groups@),
        Seq::new(groups@.len(), |i: int| i as usize),
        min_group_size as nat,
        cl,
    );
    let mut groups = groups;
    loop
        invariant
            cl == table_view(close@),
            close@.len() == m0,
            forall|i: int| 0 <= i < close@.len() ==> (#[trigger] close@[i])@.len() == m0,
            roots@.len() == groups@.len(),
            forall|i: int| 0 <= i < roots@.len() ==> #[trigger] roots@[i] < m0,
            merge_result(groups_view(groups@), roots@, min_group_size as nat, cl) == target,
        ensures
            (groups_view(groups@), roots@) == target,
        decreases groups@.len(),
    {
        let ghost gv = groups_view(groups@);
        let found = find_pair(&groups, &roots, min_group_size, close, Ghost(m0));
        match found {
            None => {
                break;
            },
            Some((a, b)) => {
                proof {
                    lemma_first_pair_bound(gv, roots@, min_group_size as nat, cl, 0);
                }
                let mut g = groups.remove(b);
                groups[a].append(&mut g);
                roots.remove(b);
                assert(groups_view(groups@) =~= merged_at(gv, a as int, b as int));
            },
        }
    }
    (groups, roots)
}

/// The groups with at least `min` points with their roots, and the smaller
/// groups, each in their order.
pub open spec fn partition_by_size(groups: Seq<Seq<Point>>, roots: Seq<usize>, min: nat) -> (
    Seq<Seq<Point>>,
    Seq<usize>,
    Seq<Seq<Point>>,
)
    decreases groups.len(),
{
    if groups.len() == 0 {
        (Seq::empty(), Seq::empty(), Seq::empty())
    } else {
        let (l, r, sm) = partition_by_size(groups.drop_last(), roots.drop_last(), min);
        if groups.last().len() >= min {
            (l.push(groups.last()), r.push(roots.last()), sm)
        } else {
            (l, r, sm.push(groups.last()))
        }
    }
}

/// The large groups, their roots (`None` for a group whose center is to be
/// computed from its points) and the small groups: as `partition_by_size`,
/// except that when no group is large, the first small group counts as
/// large.
pub open spec fn split_spec(groups: Seq<Seq<Point>>, roots: Seq<usize>, min: nat) -> (
    Seq<Seq<Point>>,
    Seq<Option<usize>>,
    Seq<Seq<Point>>,
) {
    let (l, r, sm) = partition_by_size(groups, roots, min);
    if l.len() == 0 && sm.len() > 0 {
        (seq![sm[0]], seq![None], sm.drop_first())
    } else {
        (l, Seq::new(r.len(), |k: int| Some(r[k])), sm)
    }
}

/// Splits the groups into those with at least `min_group_size` points (with
/// their roots) and the smaller ones, keeping their order; when no group is
/// large, the first small group becomes the only large one, with no root.
pub fn split_groups(groups: Vec<Vec<Point>>, roots: Vec<usize>, min_group_size: usize) -> (r: (
    Vec<Vec<Point>>,
    Vec<Option<usize>>,
    Vec<Vec<Point>>,
))
    requires
        roots@.len() == groups@.len(),
    ensures
        (groups_view(r.0@), r.1@, groups_view(r.2@)) == split_spec(groups_view(groups@), roots@, min_group_size as nat),
{
    let ghost gv = groups_view(groups@);
    let ghost rv = roots@;
    let mut src = groups;
    let mut src_roots = roots;
    let mut rev: Vec<(Vec<Point>, usize)> = Vec::new();
    while src.len() > 0
        invariant
            gv.len() == src@.len() + rev@.len(),
            rv.len() == gv.len(),
            src_roots@.len() == src@.len(),
            forall|k: int| 0 <= k < src@.len() ==> #[trigger] src@[k]@ == gv[k] && src_roots@[k] == rv[k],
            forall|k: int| 0 <= k < rev@.len() ==> (#[trigger] rev@[k]).0@ == gv[gv.len() - 1 - k] && rev@[k].1 == rv[gv.len() - 1 - k],
        decreases src@.len(),
    {
        let ghost last = src@.len() - 1;
        let ghost old_src = src@;
        let ghost old_roots = src_roots@;
        assert(old_src[last]@ == gv[last] && old_roots[last] == rv[last]);
        let g = src.pop().unwrap();
        let r = src_roots.pop().unwrap();
        assert(g == old_src[last] && r == old_roots[last]);
        rev.push((g, r));
        assert(rev@[rev@.len() - 1].0@ == gv[gv.len() - 1 - (rev@.len() - 1)]);
    }
    let mut large: Vec<Vec<Point>> = Vec::new();
    let mut large_roots: Vec<usize> = Vec::new();
    let mut small: Vec<Vec<Point>> = Vec::new();
    let ghost mut done: int = 0;
    assert(gv.take(0) =~= Seq::<Seq<Point>>::empty() && rv.take(0) =~= Seq::<usize>::empty());
    while rev.len() > 0
        invariant
            gv.len() == done + rev@.len(),
            rv.len() == gv.len(),
            0 <= done <= gv.len(),
            forall|k: int| 0 <= k < rev@.len() ==> (#[trigger] rev@[k]).0@ == gv[gv.len() - 1 - k] && rev@[k].1 == rv[gv.len() - 1 - k],
            (groups_view(large@), large_roots@, groups_view(small@)) == partition_by_size(gv.take(done), rv.take(done), min_group_size as nat),
        decreases rev@.len(),
    {
        let (g, r) = rev.pop().unwrap();
        let ghost lb = groups_view(large@);
        let ghost sb = groups_view(small@);
        assert(gv.take(done + 1).drop_last() =~= gv.take(done));
        assert(rv.take(done + 1).drop_last() =~= rv.take(done));
        if g.len() >= min_group_size {
            large.push(g);
            large_roots.push(r);
            assert(groups_view(large@) =~= lb.push(gv[done]));
        } else {
            small.push(g);
            assert(groups_view(small@) =~= sb.push(gv[done]));
        }
        proof {
            done = done + 1;
        }
    }
    assert(gv.take(done) =~= gv && rv.take(done) =~= rv);
    if large.len() == 0 && small.len() > 0 {
        let ghost sb = groups_view(small@);
        let first = small.remove(0);
        let mut only: Vec<Vec<Point>> = Vec::new();
        only.push(first);
        let mut none: Vec<Option<usize>> = Vec::new();
        none.push(None);
        assert(groups_view(only@) =~= seq![sb[0]]);
        assert(groups_view(small@) =~= sb.drop_first());
        assert(none@ =~= seq![None::<usize>]);
        (only, none, small)
    } else {
        let mut wrapped: Vec<Option<usize>> = Vec::new();
        let n = large_roots.len();
        let mut k: usize = 0;
        while k < n
            invariant
                n == large_roots@.len(),
                k <= n,
                wrapped@.len() == k,
                forall|i: int| 0 <= i < k ==> #[trigger] wrapped@[i] == Some(large_roots@[i]),
            decreases n - k,
        {
            wrapped.push(Some(large_roots[k]));
            k = k + 1;
        }
        assert(wrapped@ =~= Seq::new(large_roots@.len(), |i: int| Some(large_roots@[i])));
        (large, wrapped, small)
    }
}

/// The large groups after appending each small group `k`, in order, to the
/// large group `nearest[k]`.
pub open spec fn attached(large: Seq<Seq<Point>>, small: Seq<Seq<Point>>, nearest: Seq<usize>) -> Seq<Seq<Point>>
    decreases small.len(),
{
    if small.len() == 0 {
        large
    } else {
        let prev = attached(large, small.drop_last(), nearest.drop_last());
        prev.update(nearest[small.len() - 1] as int, prev[nearest[small.len() - 1] as int] + small.last())
    }
}

proof fn lemma_attached_len(large: Seq<Seq<Point>>, small: Seq<Seq<Point>>, nearest: Seq<usize>)
    requires
        nearest.len() == small.len(),
        forall|k: int| 0 <= k < nearest.len() ==> #[trigger] nearest[k] < large.len(),
    ensures
        attached(large, small, nearest).len() == large.len(),
    decreases small.len(),
{
    if small.len() > 0 {
        lemma_attached_len(large, small.drop_last(), nearest.drop_last());
    }
}

/// Appends each small group `k`, in order, to the large group `nearest[k]`
/// and returns the large groups stably sorted by size, largest first.
pub fn attach_small_groups(large: Vec<Vec<Point>>, small: Vec<Vec<Point>>, nearest: &Vec<usize>) -> (r: Vec<Vec<Point>>)
    requires
        nearest@.len() == small@.len(),
        forall|k: int| 0 <= k < nearest@.len() ==> #[trigger] nearest@[k] < large@.len(),
    ensures
        groups_view(r@) == sorted_by_size(attached(groups_view(large@), groups_view(small@), nearest@), true),
{
    let ghost lv = groups_view(large@);
    let ghost sv = groups_view(small@);
    let mut large = large;
    let mut src = small;
    let mut rev: Vec<Vec<Point>> = Vec::new();
    while src.len() > 0
        invariant
            sv.len() == src@.len() + rev@.len(),
            forall|k: int| 0 <= k < src@.len() ==> #[trigger] src@[k]@ == sv[k],
            forall|k: int| 0 <= k < rev@.len() ==> #[trigger] rev@[k]@ == sv[sv.len() - 1 - k],
        decreases src@.len(),
    {
        let g = src.pop().unwrap();
        rev.push(g);
    }
    let mut k: usize = 0;
    let nl = nearest.len();
    assert(sv.take(0) =~= Seq::<Seq<Point>>::empty());
    assert(nearest@.take(0) =~= Seq::<usize>::empty());
    while rev.len() > 0
        invariant
            sv.len() == k + rev@.len(),
            nearest@.len() == sv.len(),
            nl == nearest@.len(),
            forall|i: int| 0 <= i < nearest@.len() ==> #[trigger] nearest@[i] < lv.len(),
            forall|i: int| 0 <= i < rev@.len() ==> #[trigger] rev@[i]@ == sv[sv.len() - 1 - i],
            groups_view(large@) == attached(lv, sv.take(k as int), nearest@.take(k as int)),
            large@.len() == lv.len(),
        decreases rev@.len(),
    {
        let mut g = rev.pop().unwrap();
        let t = nearest[k];
        let ghost before = groups_view(large@);
        large[t].append(&mut g);
        assert(sv.take(k + 1).drop_last() =~= sv.take(k as int));
        assert(nearest@.take(k + 1).drop_last() =~= nearest@.take(k as int));
        proof {
            lemma_attached_len(lv, sv.take(k as int), nearest@.take(k as int));
        }
        assert(groups_view(large@) =~= before.update(t as int, before[t as int] + sv[k as int]));
        k = k + 1;
    }
    assert(sv.take(k as int) =~= sv);
    assert(nearest@.take(k as int) =~= nearest@);
    sort_groups_by_size(large, true)
}

proof fn lemma_insert_pos(s: Seq<Seq<Point>>, n: nat, desc: bool)
    ensures
        forall|k: int| 0 <= k < insert_pos(s, n, desc) ==> stays_before((#[trigger] s[k]).len(), n, desc),
        insert_pos(s, n, desc) < s.len() ==> !stays_before(s[insert_pos(s, n, desc)].len(), n, desc),
    decreases s.len(),
{
    lemma_insert_pos_bound(s, n, desc);
    if s.len() > 0 && stays_before(s[0].len(), n, desc) {
        lemma_insert_pos(s.drop_first(), n, desc);
        lemma_insert_pos_bound(s.drop_first(), n, desc);
        assert forall|k: int| 0 <= k < insert_pos(s, n, desc) implies stays_before((#[trigger] s[k]).len(), n, desc) by {
            if k > 0 {
                assert(s[k] == s.drop_first()[k - 1]);
            }
        }
        if insert_pos(s, n, desc) < s.len() {
            assert(s[insert_pos(s, n, desc)] == s.drop_first()[insert_pos(s.drop_first(), n, desc)]);
        }
    }
}

/// Sorting by size keeps the groups (as a multiset) and orders them by
/// size: ascending, or descending when `desc` holds.
pub proof fn law_sorted_by_size(s: Seq<Seq<Point>>, desc: bool)
    ensures
        sorted_by_size(s, desc).to_multiset() == s.to_multiset(),
        all_points(sorted_by_size(s, desc)) == all_points(s),
        forall|i: int, j: int|
            0 <= i < j < s.len() ==> stays_before(
                (#[trigger] sorted_by_size(s, desc)[i]).len(),
                (#[trigger] sorted_by_size(s, desc)[j]).len(),
                desc,
            ),
    decreases s.len(),
{
    lemma_sorted_len(s, desc);
    if s.len() > 0 {
        let q = s.drop_last();
        let r = sorted_by_size(q, desc);
        let n = s.last().len();
        let p = insert_pos(r, n, desc);
        law_sorted_by_size(q, desc);
        lemma_sorted_len(q, desc);
        lemma_insert_pos(r, n, desc);
        lemma_insert_pos_bound(r, n, desc);
        let t = r.insert(p, s.last());
        assert(t == sorted_by_size(s, desc));
        lemma_all_points_insert(r, p, s.last());
        vstd::seq_lib::to_multiset_insert(r, p, s.last());
        assert(s =~= q.push(s.last()));
        q.to_multiset_ensures();
        assert forall|i: int, j: int| 0 <= i < j < s.len() implies stays_before((#[trigger] t[i]).len(), (#[trigger] t[j]).len(), desc) by {
            if i < p && j < p {
                assert(t[i] == r[i] && t[j] == r[j]);
            } else if i < p && j == p {
                assert(t[i] == r[i]);
            } else if i < p {
                assert(t[i] == r[i] && t[j] == r[j - 1]);
                assert(stays_before(r[i].len(), n, desc));
                if p < r.len() {
                    assert(stays_before(r[p].len(), r[j - 1].len(), desc) || p == j - 1);
                }
            } else if i == p {
                assert(t[j] == r[j - 1]);
                assert(!stays_before(r[p].len(), n, desc));
                if p < j - 1 {
                    assert(stays_before(r[p].len(), r[j - 1].len(), desc));
                }
            } else {
                assert(t[i] == r[i - 1] && t[j] == r[j - 1]);
            }
        }
    }
}


/// The groups of `s` that have `n` points, in their order.
pub open spec fn of_size(s: Seq<Seq<Point>>, n: nat) -> Seq<Seq<Point>>
    decreases s.len(),
{
    if s.len() == 0 {
        Seq::empty()
    } else {
        let r = of_size(s.drop_last(), n);
        if s.last().len() == n {
            r.push(s.last())
        } else {
            r
        }
    }
}

proof fn lemma_of_size_add(a: Seq<Seq<Point>>, b: Seq<Seq<Point>>, n: nat)
    ensures
        of_size(a + b, n) == of_size(a, n) + of_size(b, n),
    decreases b.len(),
{
    if b.len() == 0 {
        assert(a + b =~= a);
        assert(of_size(a, n) + of_size(b, n) =~= of_size(a, n));
    } else {
        lemma_of_size_add(a, b.drop_last(), n);
        assert((a + b).drop_last() =~= a + b.drop_last());
        assert((a + b).last() == b.last());
        if b.last().len() == n {
            assert(of_size(a, n) + of_size(b.drop_last(), n).push(b.last()) =~= (of_size(a, n) + of_size(
                b.drop_last(),
                n,
            )).push(b.last()));
        }
    }
}

proof fn lemma_of_size_none(b: Seq<Seq<Point>>, n: nat)
    requires
        forall|k: int| 0 <= k < b.len() ==> (#[trigger] b[k]).len() != n,
    ensures
        of_size(b, n) == Seq::<Seq<Point>>::empty(),
    decreases b.len(),
{
    if b.len() > 0 {
        assert forall|k: int| 0 <= k < b.drop_last().len() implies (#[trigger] b.drop_last()[k]).len() != n by {
            assert(b.drop_last()[k] == b[k]);
        }
        lemma_of_size_none(b.drop_last(), n);
        assert(b.last() == b[b.len() - 1]);
    }
}

/// Sorting by size is stable: the groups of any one size come out in the
/// order in which they went in.
pub proof fn law_sorted_is_stable(s: Seq<Seq<Point>>, desc: bool, n: nat)
    ensures
        of_size(sorted_by_size(s, desc), n) == of_size(s, n),
    decreases s.len(),
{
    if s.len() > 0 {
        let q = s.drop_last();
        let g = s.last();
        let r = sorted_by_size(q, desc);
        law_sorted_is_stable(q, desc, n);
        law_sorted_by_size(q, desc);
        lemma_sorted_len(q, desc);
        let p = insert_pos(r, g.len(), desc);
        lemma_insert_pos(r, g.len(), desc);
        lemma_insert_pos_bound(r, g.len(), desc);
        let front = r.take(p);
        let back = r.skip(p);
        assert(r.insert(p, g) =~= front.push(g) + back);
        assert(r =~= front + back);
        lemma_of_size_add(front.push(g), back, n);
        lemma_of_size_add(front, back, n);
        assert(front.push(g).drop_last() =~= front);
        if g.len() == n {
            assert forall|k: int| 0 <= k < back.len() implies (#[trigger] back[k]).len() != n by {
                assert(back[k] == r[p + k]);
                if k > 0 {
                    assert(stays_before(r[p].len(), r[p + k].len(), desc));
                }
            }
            lemma_of_size_none(back, n);
            assert(of_size(front.push(g), n) + of_size(back, n) =~= of_size(front, n).push(g));
            assert(of_size(front, n) + of_size(back, n) =~= of_size(front, n));
        }
        assert(s.drop_last() == q);
        assert(of_size(sorted_by_size(s, desc), n) =~= of_size(s, n));
    }
}

/// The points of all the groups, counted with multiplicity.
pub open spec fn all_points(gs: Seq<Seq<Point>>) -> Multiset<Point>
    decreases gs.len(),
{
    if gs.len() == 0 {
        Multiset::empty()
    } else {
        all_points(gs.drop_last()).add(gs.last().to_multiset())
    }
}

proof fn lemma_all_points_insert(s: Seq<Seq<Point>>, i: int, g: Seq<Point>)
    requires
        0 <= i <= s.len(),
    ensures
        all_points(s.insert(i, g)) == all_points(s).add(g.to_multiset()),
    decreases s.len(),
{
    if i == s.len() {
        assert(s.insert(i, g).drop_last() =~= s);
    } else {
        lemma_all_points_insert(s.drop_last(), i, g);
        assert(s.insert(i, g).drop_last() =~= s.drop_last().insert(i, g));
        assert(s.insert(i, g).last() == s.last());
        assert(all_points(s.insert(i, g)) =~= all_points(s).add(g.to_multiset()));
    }
}

proof fn lemma_all_points_remove(s: Seq<Seq<Point>>, j: int)
    requires
        0 <= j < s.len(),
    ensures
        all_points(s.remove(j)).add(s[j].to_multiset()) == all_points(s),
{
    lemma_all_points_insert(s.remove(j), j, s[j]);
    assert(s.remove(j).insert(j, s[j]) =~= s);
}

proof fn lemma_all_points_update(s: Seq<Seq<Point>>, i: int, g: Seq<Point>)
    requires
        0 <= i < s.len(),
    ensures
        all_points(s.update(i, g)).add(s[i].to_multiset()) == all_points(s).add(g.to_multiset()),
{
    lemma_all_points_remove(s, i);
    lemma_all_points_insert(s.remove(i), i, g);
    assert(s.remove(i).insert(i, g) =~= s.update(i, g));
    assert(all_points(s.update(i, g)).add(s[i].to_multiset()) =~= all_points(s).add(g.to_multiset()));
}

/// Appending group `j` to group `i` and removing it keeps the points.
proof fn lemma_merged_keeps_points(groups: Seq<Seq<Point>>, i: int, j: int)
    requires
        0 <= i < j < groups.len(),
    ensures
        all_points(merged_at(groups, i, j)) == all_points(groups),
{
    broadcast use vstd::multiset::group_multiset_axioms;

    let u = groups.update(i, groups[i] + groups[j]);
    lemma_all_points_update(groups, i, groups[i] + groups[j]);
    lemma_all_points_remove(u, j);
    vstd::seq_lib::lemma_multiset_commutative(groups[i], groups[j]);
    assert(u[j] == groups[j]);
    let m = u.remove(j);
    assert forall|v: Point| #[trigger] all_points(m).count(v) == all_points(groups).count(v) by {
        assert(all_points(m).add(u[j].to_multiset()).count(v) == all_points(u).count(v));
        assert(all_points(u).add(groups[i].to_multiset()).count(v) == all_points(groups).add(
            (groups[i] + groups[j]).to_multiset(),
        ).count(v));
        assert((groups[i] + groups[j]).to_multiset().count(v) == groups[i].to_multiset().count(v)
            + groups[j].to_multiset().count(v));
    }
    assert(all_points(m) =~= all_points(groups));
}

proof fn lemma_first_close_none(groups: Seq<Seq<Point>>, roots: Seq<usize>, close: Seq<Seq<bool>>, i: int, j: int)
    requires
        0 <= j,
        first_close(groups, roots, close, i, j) is None,
    ensures
        forall|l: int| j <= l < groups.len() ==> !close[roots[i] as int][roots[l] as int],
    decreases groups.len() - j,
{
    if j < groups.len() {
        lemma_first_close_none(groups, roots, close, i, j + 1);
    }
}

proof fn lemma_first_pair_none(groups: Seq<Seq<Point>>, roots: Seq<usize>, min: nat, close: Seq<Seq<bool>>, i: int)
    requires
        0 <= i,
        first_pair(groups, roots, min, close, i) is None,
    ensures
        forall|a: int, b: int|
            i <= a < b < groups.len() && groups[a].len() < min ==> !close[roots[a] as int][roots[b] as int],
    decreases groups.len() - i,
{
    if i < groups.len() {
        lemma_first_pair_none(groups, roots, min, close, i + 1);
        if groups[i].len() < min {
            lemma_first_close_none(groups, roots, close, i, i + 1);
        }
    }
}

/// After merging, no group with fewer than `min` points has a later group
/// whose root component is close to its own.
pub proof fn law_merge_leaves_no_close_pair(groups: Seq<Seq<Point>>, roots: Seq<usize>, min: nat, close: Seq<Seq<bool>>)
    requires
        roots.len() == groups.len(),
    ensures
        ({
            let (gs, rs) = merge_result(groups, roots, min, close);
            forall|a: int, b: int|
                0 <= a < b < gs.len() && gs[a].len() < min ==> !close[rs[a] as int][rs[b] as int]
        }),
    decreases groups.len(),
{
    lemma_first_pair_bound(groups, roots, min, close, 0);
    match first_pair(groups, roots, min, close, 0) {
        Some((i, j)) => {
            law_merge_leaves_no_close_pair(merged_at(groups, i, j), roots.remove(j), min, close);
            assert(merge_result(groups, roots, min, close) == merge_result(merged_at(groups, i, j), roots.remove(j), min, close));
        },
        None => {
            lemma_first_pair_none(groups, roots, min, close, 0);
            assert(merge_result(groups, roots, min, close) == (groups, roots));
        },
    }
}

/// Merging keeps every point: the merged groups hold the points of the
/// groups merged, as often as they did.
pub proof fn law_merge_keeps_points(groups: Seq<Seq<Point>>, roots: Seq<usize>, min: nat, close: Seq<Seq<bool>>)
    ensures
        all_points(merge_result(groups, roots, min, close).0) == all_points(groups),
    decreases groups.len(),
{
    match first_pair(groups, roots, min, close, 0) {
        Some((i, j)) => if 0 <= i < j < groups.len() {
            lemma_merged_keeps_points(groups, i, j);
            law_merge_keeps_points(merged_at(groups, i, j), roots.remove(j), min, close);
        },
        None => {},
    }
}

proof fn lemma_partition_keeps_points(groups: Seq<Seq<Point>>, roots: Seq<usize>, min: nat)
    ensures
        all_points(partition_by_size(groups, roots, min).0).add(all_points(partition_by_size(groups, roots, min).2))
            == all_points(groups),
    decreases groups.len(),
{
    if groups.len() > 0 {
        let (l, r, sm) = partition_by_size(groups.drop_last(), roots.drop_last(), min);
        lemma_partition_keeps_points(groups.drop_last(), roots.drop_last(), min);
        assert(l.push(groups.last()).drop_last() =~= l);
        assert(sm.push(groups.last()).drop_last() =~= sm);
        let (l2, r2, sm2) = partition_by_size(groups, roots, min);
        assert(all_points(l2).add(all_points(sm2)) =~= all_points(groups));
    }
}

/// Splitting keeps every point: the large and the small groups together
/// hold the points of the groups.
pub proof fn law_split_keeps_points(groups: Seq<Seq<Point>>, roots: Seq<usize>, min: nat)
    ensures
        all_points(split_spec(groups, roots, min).0).add(all_points(split_spec(groups, roots, min).2)) == all_points(
            groups,
        ),
{
    broadcast use vstd::multiset::group_multiset_axioms;

    lemma_partition_keeps_points(groups, roots, min);
    let (l, r, sm) = partition_by_size(groups, roots, min);
    if l.len() == 0 && sm.len() > 0 {
        lemma_all_points_remove(sm, 0);
        assert(sm.remove(0) =~= sm.drop_first());
        assert(all_points(l) =~= Multiset::empty());
        let one = seq![sm[0]];
        assert(one.drop_last() =~= Seq::<Seq<Point>>::empty());
        assert(all_points(one.drop_last()) =~= Multiset::empty());
        assert(all_points(one) =~= sm[0].to_multiset());
        assert forall|v: Point| #[trigger] all_points(one).add(all_points(sm.drop_first())).count(v)
            == all_points(groups).count(v) by {
            assert(all_points(sm.remove(0)).add(sm[0].to_multiset()).count(v) == all_points(sm).count(v));
            assert(all_points(l).add(all_points(sm)).count(v) == all_points(groups).count(v));
        }
        assert(all_points(one).add(all_points(sm.drop_first())) =~= all_points(groups));
    }
}

/// Attaching keeps every point: the result holds the points of the large
/// and of the small groups.
pub proof fn law_attach_keeps_points(large: Seq<Seq<Point>>, small: Seq<Seq<Point>>, nearest: Seq<usize>)
    requires
        nearest.len() == small.len(),
        forall|k: int| 0 <= k < nearest.len() ==> #[trigger] nearest[k] < large.len(),
    ensures
        all_points(attached(large, small, nearest)) == all_points(large).add(all_points(small)),
    decreases small.len(),
{
    broadcast use vstd::multiset::group_multiset_axioms;

    if small.len() == 0 {
        assert(all_points(large).add(all_points(small)) =~= all_points(large));
    } else {
        let sd = small.drop_last();
        let nd = nearest.drop_last();
        assert forall|k: int| 0 <= k < nd.len() implies #[trigger] nd[k] < large.len() by {
            assert(nd[k] == nearest[k]);
        }
        law_attach_keeps_points(large, sd, nd);
        lemma_attached_len(large, sd, nd);
        let prev = attached(large, sd, nd);
        let k = nearest[small.len() - 1] as int;
        lemma_all_points_update(prev, k, prev[k] + small.last());
        vstd::seq_lib::lemma_multiset_commutative(prev[k], small.last());
        let res = prev.update(k, prev[k] + small.last());
        assert(res == attached(large, small, nearest));
        assert(small.drop_last().push(small.last()) =~= small);
        assert(all_points(small) == all_points(sd).add(small.last().to_multiset()));
        assert forall|v: Point| #[trigger] all_points(res).count(v) == all_points(large).add(all_points(small)).count(v) by {
            assert(all_points(res).add(prev[k].to_multiset()).count(v) == all_points(prev).add(
                (prev[k] + small.last()).to_multiset(),
            ).count(v));
            assert((prev[k] + small.last()).to_multiset().count(v) == prev[k].to_multiset().count(v)
                + small.last().to_multiset().count(v));
            assert(all_points(prev).count(v) == all_points(large).add(all_points(sd)).count(v));
        }
        assert(all_points(res) =~= all_points(large).add(all_points(small)));
    }
}

} // verus!
