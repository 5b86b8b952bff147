use std::collections::VecDeque;
use vstd::prelude::*;

use crate::maze::{finish_pos, is_generated_maze, start_pos};
use crate::grid::{
    adjacent, contains_char, filled_table, find_cell, first_in_row_major, grid_count,
    in_grid, indicator, is_open, is_walk, lemma_grid_count_set, rows, set_entry, step_ok, table,
    walk_between, well_shaped, with_cell, Maze, Pos, reachable,
};

verus! {

// ---------------------------------------------------------------------------
// What the final wall is
// ---------------------------------------------------------------------------

/// The first cell holding `target` in row-major order, or `default` when the
/// grid holds no such cell.
pub open spec fn first_position(g: Seq<Seq<char>>, target: char, default: Pos) -> Pos {
    if contains_char(g, target) {
        choose|q: Pos| first_in_row_major(g, target, q.0, q.1)
    } else {
        default
    }
}

/// Where the path search starts: the first `'s'`, else (1, 1).
pub open spec fn search_start(g: Seq<Seq<char>>) -> Pos {
    first_position(g, 's', (1, 1))
}

/// Where the path search ends: the first `'f'`, else the cell one in from the
/// bottom-right corner.
pub open spec fn search_finish(g: Seq<Seq<char>>) -> Pos {
    first_position(g, 'f', (g[0].len() - 2, g.len() - 2))
}

/// No position of the walk `p` is `v`.
pub open spec fn avoids(p: Seq<Pos>, v: Pos) -> bool {
    forall|i: int| 0 <= i < p.len() ==> #[trigger] p[i] != v
}

/// `b` can be reached from `a` through open cells without passing `v`.
pub open spec fn reachable_avoiding(g: Seq<Seq<char>>, a: Pos, b: Pos, v: Pos) -> bool {
    exists|p: Seq<Pos>| #[trigger] walk_between(g, p, a, b) && avoids(p, v)
}

/// The cell below `f`: the fallback choice of final wall.
pub open spec fn below(f: Pos) -> Pos {
    (f.0, f.1 + 1)
}

/// Seen when arriving at `f` from its neighbour `p`: the cell straight ahead
/// of `f` if it is a wall of the grid, else the cell below `f`.
pub open spec fn wall_ahead(g: Seq<Seq<char>>, f: Pos, p: Pos) -> Pos {
    let c = (2 * f.0 - p.0, 2 * f.1 - p.1);
    if in_grid(g, c.0, c.1) && g[c.1][c.0] == '#' {
        c
    } else {
        below(f)
    }
}

/// What holds of the wall `find_final_wall` returns for the grid `grid`,
/// read within the first row's width: when the finish can be
/// reached from a different start, the wall straight ahead of the finish for
/// a neighbour `p` of the finish through which a search from the start
/// arrives (one that the start reaches without passing the finish);
/// otherwise the cell below the finish.
pub open spec fn is_final_wall(grid: Seq<Seq<char>>, wall: Pos) -> bool {
    let g = clipped(grid);
    let s = search_start(grid);
    let f = search_finish(grid);
    if f != s && reachable(g, s, f) {
        exists|p: Pos|
            #![trigger reachable_avoiding(g, s, p, f)]
            adjacent(p, f) && reachable_avoiding(g, s, p, f) && wall == wall_ahead(g, f, p)
    } else {
        wall == below(f)
    }
}

/// Every row is at least as long as the first, whose width the search
/// keeps to.
pub open spec fn rows_cover(g: Seq<Seq<char>>) -> bool {
    &&& g.len() > 0
    &&& forall|y: int| 0 <= y < g.len() ==> #[trigger] g[y].len() >= g[0].len()
}

/// The grid cut to the width of its first row: the part the search sees.
pub open spec fn clipped(g: Seq<Seq<char>>) -> Seq<Seq<char>> {
    Seq::new(g.len(), |y: int| g[y].subrange(0, g[0].len() as int))
}

/// A grid on which `find_final_wall` works: its rows cover the first row's
/// width, and the start and the finish lie within that width.
pub open spec fn searchable(g: Seq<Seq<char>>) -> bool {
    &&& rows_cover(g)
    &&& 0 <= search_start(g).0 < g[0].len()
    &&& 0 <= search_start(g).1 < g.len()
    &&& 0 <= search_finish(g).0 < g[0].len()
    &&& 0 <= search_finish(g).1 < g.len()
}

/// Cutting a grid whose rows all have the first row's length changes nothing.
pub proof fn lemma_clipped_rectangle(g: Seq<Seq<char>>)
    requires
        g.len() > 0,
        well_shaped(g, g[0].len() as int, g.len() as int),
    ensures
        clipped(g) == g,
{
    assert forall|y: int| 0 <= y < g.len() implies #[trigger] clipped(g)[y] =~= g[y] by {
        assert(g[y].len() == g[0].len());
    }
    assert(clipped(g) =~= g);
}

// ---------------------------------------------------------------------------
// The search, step by step
// ---------------------------------------------------------------------------

/// The state of the breadth-first search: the queue of cells to expand, the
/// cells seen so far, the neighbour each seen cell was first reached from,
/// and whether the search has stopped.
pub struct SearchState {
    pub queue: Seq<(usize, usize)>,
    pub visited: Seq<Seq<bool>>,
    pub previous: Seq<Seq<Option<(usize, usize)>>>,
    pub stopped: bool,
}

/// A position of the grid as machine coordinates.
pub open spec fn cell_of(p: Pos) -> (usize, usize) {
    (p.0 as usize, p.1 as usize)
}

/// The search looks at `(nx, ny)` while expanding `(x, y)`: a cell of the
/// first row's width that is not a wall and not yet seen is marked seen,
/// remembers `(x, y)` and joins the back of the queue.
pub open spec fn search_visit(
    g: Seq<Seq<char>>,
    st: SearchState,
    x: usize,
    y: usize,
    nx: usize,
    ny: usize,
) -> SearchState {
    if ny < g.len() && nx < g[0].len() && !st.visited[ny as int][nx as int] && g[ny as int][nx as int]
        != '#' {
        SearchState {
            queue: st.queue.push((nx, ny)),
            visited: with_cell(st.visited, nx as int, ny as int, true),
            previous: with_cell(st.previous, nx as int, ny as int, Some((x, y))),
            stopped: st.stopped,
        }
    } else {
        st
    }
}

/// Expanding `(x, y)`: its neighbours right, left, down and up, in that order.
pub open spec fn search_expand(g: Seq<Seq<char>>, st: SearchState, x: usize, y: usize) -> SearchState {
    let s1 = search_visit(g, st, x, y, (x + 1) as usize, y);
    let s2 = if x > 0 {
        search_visit(g, s1, x, y, (x - 1) as usize, y)
    } else {
        s1
    };
    let s3 = search_visit(g, s2, x, y, x, (y + 1) as usize);
    if y > 0 {
        search_visit(g, s3, x, y, x, (y - 1) as usize)
    } else {
        s3
    }
}

/// One round of the search towards `f`: stop on an empty queue; otherwise
/// take the front cell, and stop if it is `f` or expand it.
pub open spec fn search_step(g: Seq<Seq<char>>, f: (usize, usize), st: SearchState) -> SearchState {
    if st.stopped {
        st
    } else if st.queue.len() == 0 {
        SearchState { queue: st.queue, visited: st.visited, previous: st.previous, stopped: true }
    } else {
        let cur = st.queue[0];
        let rest = SearchState {
            queue: st.queue.drop_first(),
            visited: st.visited,
            previous: st.previous,
            stopped: false,
        };
        if cur == f {
            SearchState {
                queue: rest.queue,
                visited: rest.visited,
                previous: rest.previous,
                stopped: true,
            }
        } else {
            search_expand(g, rest, cur.0, cur.1)
        }
    }
}

/// The search before its first round: only the start seen and queued.
pub open spec fn search_init(g: Seq<Seq<char>>) -> SearchState {
    let w = g[0].len();
    let h = g.len();
    let s = search_start(g);
    SearchState {
        queue: seq![cell_of(s)],
        visited: with_cell(Seq::new(h, |_y: int| Seq::new(w, |_x: int| false)), s.0, s.1, true),
        previous: Seq::new(h, |_y: int| Seq::new(w, |_x: int| None::<(usize, usize)>)),
        stopped: false,
    }
}

/// The search after `n` rounds.
pub open spec fn search_after(g: Seq<Seq<char>>, n: nat) -> SearchState
    decreases n,
{
    if n == 0 {
        search_init(g)
    } else {
        search_step(g, cell_of(search_finish(g)), search_after(g, (n - 1) as nat))
    }
}

/// The state in which the search stops.
pub open spec fn search_result(g: Seq<Seq<char>>) -> SearchState {
    choose|st: SearchState| st.stopped && exists|n: nat| #[trigger] search_after(g, n) == st
}

/// The wall `find_final_wall` chooses: the wall straight ahead of the finish
/// as seen from the neighbour that the search reached the finish from, else
/// the cell below the finish.
pub open spec fn final_wall_of(g: Seq<Seq<char>>) -> Pos {
    let f = search_finish(g);
    match search_result(g).previous[f.1][f.0] {
        Some(b) => wall_ahead(clipped(g), f, pos_of(b)),
        None => below(f),
    }
}

/// Once stopped, the search stays as it is.
proof fn lemma_stopped_stays(g: Seq<Seq<char>>, n: nat, m: nat)
    requires
        search_after(g, n).stopped,
        n <= m,
    ensures
        search_after(g, m) == search_after(g, n),
    decreases m - n,
{
    if m > n {
        lemma_stopped_stays(g, n, (m - 1) as nat);
    }
}

/// The search stops in at most one state.
proof fn lemma_search_result(g: Seq<Seq<char>>, n: nat)
    requires
        search_after(g, n).stopped,
    ensures
        search_result(g) == search_after(g, n),
{
    let st = search_after(g, n);
    assert(st.stopped && exists|k: nat| #[trigger] search_after(g, k) == st);
    let r = search_result(g);
    let k = choose|k: nat| #[trigger] search_after(g, k) == r;
    if k <= n {
        lemma_stopped_stays(g, k, n);
    } else {
        lemma_stopped_stays(g, n, k);
    }
}

proof fn lemma_first_unique(g: Seq<Seq<char>>, t: char, a: Pos, b: Pos)
    requires
        first_in_row_major(g, t, a.0, a.1),
        first_in_row_major(g, t, b.0, b.1),
    ensures
        a == b,
{
    assert(g[b.1][b.0] == t);
    assert(g[a.1][a.0] == t);
}

proof fn lemma_first_position(g: Seq<Seq<char>>, t: char, default: Pos, x: int, y: int)
    requires
        first_in_row_major(g, t, x, y),
    ensures
        first_position(g, t, default) == (x, y),
{
    assert(contains_char(g, t)) by {
        assert(in_grid(g, x, y) && g[y][x] == t);
    }
    assert(first_in_row_major(g, t, (x, y).0, (x, y).1));
    let q = choose|q: Pos| first_in_row_major(g, t, q.0, q.1);
    lemma_first_unique(g, t, q, (x, y));
}

// ---------------------------------------------------------------------------
// Breadth-first search bookkeeping
// ---------------------------------------------------------------------------

spec fn is_vis(vis: Seq<Seq<bool>>, x: int, y: int) -> bool {
    0 <= y < vis.len() && 0 <= x < vis[y].len() && vis[y][x]
}

spec fn all_visited(vis: Seq<Seq<bool>>, p: Seq<Pos>) -> bool {
    forall|i: int| 0 <= i < p.len() ==> #[trigger] is_vis(vis, p[i].0, p[i].1)
}

/// Each visited cell is reached from `s` by a walk of visited cells.
spec fn visited_reached(g: Seq<Seq<char>>, vis: Seq<Seq<bool>>, s: Pos) -> bool {
    forall|x: int, y: int|
        #[trigger] is_vis(vis, x, y) ==> exists|p: Seq<Pos>|
            #[trigger] walk_between(g, p, s, (x, y)) && all_visited(vis, p)
}

/// A pair of machine coordinates as a position.
pub open spec fn pos_of(u: (usize, usize)) -> Pos {
    (u.0 as int, u.1 as int)
}

/// Each recorded predecessor is a neighbour that the start reaches without
/// passing the cell it leads to.
spec fn links_ok(
    g: Seq<Seq<char>>,
    vis: Seq<Seq<bool>>,
    prev: Seq<Seq<Option<(usize, usize)>>>,
    s: Pos,
) -> bool {
    forall|x: int, y: int|
        #![trigger prev[y][x]]
        0 <= y < prev.len() && 0 <= x < prev[y].len() && prev[y][x] is Some ==> {
            let u = pos_of(prev[y][x]->0);
            &&& adjacent(u, (x, y))
            &&& is_vis(vis, x, y)
            &&& (x, y) != s
            &&& reachable_avoiding(g, s, u, (x, y))
        }
}

/// Each visited cell but the start has a recorded predecessor.
spec fn visited_linked(vis: Seq<Seq<bool>>, prev: Seq<Seq<Option<(usize, usize)>>>, s: Pos) -> bool {
    forall|x: int, y: int| #[trigger] is_vis(vis, x, y) && (x, y) != s ==> prev[y][x] is Some
}

spec fn queue_has(q: Seq<(usize, usize)>, x: int, y: int) -> bool {
    exists|i: int| 0 <= i < q.len() && #[trigger] pos_of(q[i]) == (x, y)
}

spec fn queue_ok(vis: Seq<Seq<bool>>, q: Seq<(usize, usize)>) -> bool {
    forall|i: int| 0 <= i < q.len() ==> #[trigger] is_vis(vis, q[i].0 as int, q[i].1 as int)
}

/// Every open side neighbour of `(x, y)` is visited.
spec fn expanded(g: Seq<Seq<char>>, vis: Seq<Seq<bool>>, x: int, y: int) -> bool {
    &&& is_open(g, x + 1, y) ==> is_vis(vis, x + 1, y)
    &&& is_open(g, x - 1, y) ==> is_vis(vis, x - 1, y)
    &&& is_open(g, x, y + 1) ==> is_vis(vis, x, y + 1)
    &&& is_open(g, x, y - 1) ==> is_vis(vis, x, y - 1)
}

/// Each visited cell is waiting in the queue, being expanded, or expanded.
spec fn frontier_ok(
    g: Seq<Seq<char>>,
    vis: Seq<Seq<bool>>,
    q: Seq<(usize, usize)>,
    cur: Option<Pos>,
) -> bool {
    forall|x: int, y: int|
        #[trigger] is_vis(vis, x, y) ==> queue_has(q, x, y) || cur == Some((x, y)) || expanded(
            g,
            vis,
            x,
            y,
        )
}

/// Every visited cell is expanded.
spec fn closed(g: Seq<Seq<char>>, vis: Seq<Seq<bool>>) -> bool {
    forall|x: int, y: int| #[trigger] is_vis(vis, x, y) ==> expanded(g, vis, x, y)
}

/// The part of the search state that holds at every point of the search.
spec fn search_base(
    g: Seq<Seq<char>>,
    w: int,
    h: int,
    s: Pos,
    vis: Seq<Seq<bool>>,
    prev: Seq<Seq<Option<(usize, usize)>>>,
) -> bool {
    &&& well_shaped(g, w, h)
    &&& well_shaped(vis, w, h)
    &&& well_shaped(prev, w, h)
    &&& is_vis(vis, s.0, s.1)
    &&& prev[s.1][s.0] is None
    &&& visited_reached(g, vis, s)
    &&& links_ok(g, vis, prev, s)
    &&& visited_linked(vis, prev, s)
}

spec fn unvisited() -> spec_fn(bool) -> bool {
    |b: bool| !b
}

spec fn search_measure(vis: Seq<Seq<bool>>, q: Seq<(usize, usize)>) -> int {
    (2 * grid_count(vis, unvisited()) + q.len()) as int
}

spec fn vis_grows(v0: Seq<Seq<bool>>, v1: Seq<Seq<bool>>) -> bool {
    forall|x: int, y: int| #[trigger] is_vis(v0, x, y) ==> is_vis(v1, x, y)
}

proof fn lemma_all_visited_grows(v0: Seq<Seq<bool>>, v1: Seq<Seq<bool>>, p: Seq<Pos>)
    requires
        all_visited(v0, p),
        vis_grows(v0, v1),
    ensures
        all_visited(v1, p),
{
    assert forall|i: int| 0 <= i < p.len() implies #[trigger] is_vis(v1, p[i].0, p[i].1) by {
        assert(is_vis(v0, p[i].0, p[i].1));
    }
}

proof fn lemma_expanded_grows(g: Seq<Seq<char>>, v0: Seq<Seq<bool>>, v1: Seq<Seq<bool>>, x: int, y: int)
    requires
        expanded(g, v0, x, y),
        vis_grows(v0, v1),
    ensures
        expanded(g, v1, x, y),
{
    if is_open(g, x + 1, y) {
        assert(is_vis(v0, x + 1, y));
    }
    if is_open(g, x - 1, y) {
        assert(is_vis(v0, x - 1, y));
    }
    if is_open(g, x, y + 1) {
        assert(is_vis(v0, x, y + 1));
    }
    if is_open(g, x, y - 1) {
        assert(is_vis(v0, x, y - 1));
    }
}

/// In a closed search every cell that the start reaches is visited.
proof fn lemma_closed_reaches(g: Seq<Seq<char>>, vis: Seq<Seq<bool>>, s: Pos, p: Seq<Pos>, i: int)
    requires
        closed(g, vis),
        is_vis(vis, s.0, s.1),
        is_walk(g, p),
        p[0] == s,
        0 <= i < p.len(),
    ensures
        is_vis(vis, p[i].0, p[i].1),
    decreases i,
{
    if i > 0 {
        lemma_closed_reaches(g, vis, s, p, i - 1);
        assert(step_ok(g, p, i - 1));
        assert(expanded(g, vis, p[i - 1].0, p[i - 1].1));
    }
}

// ---------------------------------------------------------------------------
// Executable search
// ---------------------------------------------------------------------------

/// Visits `(nx, ny)` from the cell `(x, y)` being expanded, when it lies in
/// the maze, is not a wall and was not visited yet.
fn try_visit(
    maze: &Maze,
    visited: &mut Vec<Vec<bool>>,
    previous: &mut Vec<Vec<Option<(usize, usize)>>>,
    queue: &mut VecDeque<(usize, usize)>,
    x: usize,
    y: usize,
    nx: usize,
    ny: usize,
    Ghost(s): Ghost<Pos>,
)
    requires
        rows_cover(rows(*maze)),
        search_base(
            clipped(rows(*maze)),
            rows(*maze)[0].len() as int,
            rows(*maze).len() as int,
            s,
            table(*old(visited)),
            table(*old(previous)),
        ),
        queue_ok(table(*old(visited)), old(queue)@),
        frontier_ok(clipped(rows(*maze)), table(*old(visited)), old(queue)@, Some((x as int, y as int))),
        is_vis(table(*old(visited)), x as int, y as int),
        adjacent((x as int, y as int), (nx as int, ny as int)),
    ensures
        search_base(
            clipped(rows(*maze)),
            rows(*maze)[0].len() as int,
            rows(*maze).len() as int,
            s,
            table(*final(visited)),
            table(*final(previous)),
        ),
        queue_ok(table(*final(visited)), final(queue)@),
        frontier_ok(clipped(rows(*maze)), table(*final(visited)), final(queue)@, Some((x as int, y as int))),
        vis_grows(table(*old(visited)), table(*final(visited))),
        is_open(clipped(rows(*maze)), nx as int, ny as int) ==> is_vis(
            table(*final(visited)),
            nx as int,
            ny as int,
        ),
        search_measure(table(*final(visited)), final(queue)@) <= search_measure(
            table(*old(visited)),
            old(queue)@,
        ),
        (SearchState {
            queue: final(queue)@,
            visited: table(*final(visited)),
            previous: table(*final(previous)),
            stopped: false,
        }) == search_visit(
            rows(*maze),
            (SearchState {
                queue: old(queue)@,
                visited: table(*old(visited)),
                previous: table(*old(previous)),
                stopped: false,
            }),
            x,
            y,
            nx,
            ny,
        ),
{
    let ghost full = rows(*maze);
    let ghost g = clipped(full);
    assert(g[0].len() == full[0].len());
    let ghost w = g[0].len() as int;
    let ghost h = g.len() as int;
    let ghost vis = table(*visited);
    let ghost prev = table(*previous);
    let ghost q = queue@;
    let width = maze[0].len();
    let fresh = if ny < maze.len() && nx < width {
        proof {
            assert(vis[ny as int].len() == w);
            assert(prev[ny as int].len() == w);
            assert(full[ny as int].len() >= w);
            assert(g[ny as int][nx as int] == full[ny as int][nx as int]);
        }
        !visited[ny][nx] && maze[ny][nx] != '#'
    } else {
        false
    };
    if fresh {
        proof {
            assert(vis[ny as int].len() == w);
            assert(prev[ny as int].len() == w);
            assert(g[ny as int].len() == w);
        }
        set_entry(visited, nx, ny, true);
        set_entry(previous, nx, ny, Some((x, y)));
        queue.push_back((nx, ny));
        proof {
            let n: Pos = (nx as int, ny as int);
            let cur: Pos = (x as int, y as int);
            let vis2 = table(*visited);
            let prev2 = table(*previous);
            let q2 = queue@;
            assert(!is_vis(vis, n.0, n.1));
            assert(vis_grows(vis, vis2)) by {
                assert forall|a: int, b: int| #[trigger] is_vis(vis, a, b) implies is_vis(vis2, a, b) by {
                }
            }
            assert(is_vis(vis2, n.0, n.1));
            lemma_grid_count_set(vis, nx as int, ny as int, true, unvisited());
            assert(well_shaped(vis2, w, h)) by {
                assert forall|b: int| 0 <= b < h implies #[trigger] vis2[b].len() == w by {
                    assert(vis[b].len() == w);
                }
            }
            assert(well_shaped(prev2, w, h)) by {
                assert forall|b: int| 0 <= b < h implies #[trigger] prev2[b].len() == w by {
                    assert(prev[b].len() == w);
                }
            }
            assert(n != s);
            // the walk to the cell being expanded, extended by the new cell
            let pw = choose|p: Seq<Pos>| #[trigger] walk_between(g, p, s, cur) && all_visited(vis, p);
            assert(walk_between(g, pw, s, cur) && all_visited(vis, pw));
            assert(avoids(pw, n)) by {
                assert forall|i: int| 0 <= i < pw.len() implies #[trigger] pw[i] != n by {
                    assert(is_vis(vis, pw[i].0, pw[i].1));
                }
            }
            assert(reachable_avoiding(g, s, cur, n));
            crate::grid::lemma_walk_push(g, pw, n);
            let pn = pw.push(n);
            lemma_all_visited_grows(vis, vis2, pw);
            assert(all_visited(vis2, pn)) by {
                assert forall|i: int| 0 <= i < pn.len() implies #[trigger] is_vis(vis2, pn[i].0, pn[i].1) by {
                    if i < pw.len() {
                        assert(is_vis(vis2, pw[i].0, pw[i].1));
                    }
                }
            }
            assert(walk_between(g, pn, s, n));
            assert(visited_reached(g, vis2, s)) by {
                assert forall|a: int, b: int| #[trigger] is_vis(vis2, a, b) implies exists|p: Seq<Pos>|
                    #[trigger] walk_between(g, p, s, (a, b)) && all_visited(vis2, p) by {
                    if (a, b) == n {
                        assert(walk_between(g, pn, s, (a, b)) && all_visited(vis2, pn));
                    } else {
                        assert(is_vis(vis, a, b));
                        let pa = choose|p: Seq<Pos>| #[trigger] walk_between(g, p, s, (a, b)) && all_visited(vis, p);
                        lemma_all_visited_grows(vis, vis2, pa);
                        assert(walk_between(g, pa, s, (a, b)) && all_visited(vis2, pa));
                    }
                }
            }
            assert(links_ok(g, vis2, prev2, s)) by {
                assert forall|a: int, b: int|
                    #![trigger prev2[b][a]]
                    0 <= b < prev2.len() && 0 <= a < prev2[b].len() && prev2[b][a] is Some implies {
                        let u = pos_of(prev2[b][a]->0);
                        &&& adjacent(u, (a, b))
                        &&& is_vis(vis2, a, b)
                        &&& (a, b) != s
                        &&& reachable_avoiding(g, s, u, (a, b))
                    } by {
                    if (a, b) == n {
                        assert(pos_of(prev2[b][a]->0) == cur);
                    } else {
                        assert(prev2[b][a] == prev[b][a]);
                        assert(prev[b].len() == w);
                        assert(is_vis(vis, a, b));
                    }
                }
            }
            assert(visited_linked(vis2, prev2, s)) by {
                assert forall|a: int, b: int| #[trigger] is_vis(vis2, a, b) && (a, b) != s implies prev2[b][a] is Some by {
                    if (a, b) != n {
                        assert(is_vis(vis, a, b));
                    }
                }
            }
            assert(prev2[s.1][s.0] is None) by {
                assert(prev2[s.1][s.0] == prev[s.1][s.0]);
            }
            assert(queue_ok(vis2, q2)) by {
                assert forall|i: int| 0 <= i < q2.len() implies #[trigger] is_vis(vis2, q2[i].0 as int, q2[i].1 as int) by {
                    if i < q.len() {
                        assert(q2[i] == q[i]);
                        assert(is_vis(vis, q[i].0 as int, q[i].1 as int));
                    }
                }
            }
            assert(frontier_ok(g, vis2, q2, Some(cur))) by {
                assert forall|a: int, b: int| #[trigger] is_vis(vis2, a, b) implies queue_has(q2, a, b) || Some(cur) == Some((a, b)) || expanded(g, vis2, a, b) by {
                    if (a, b) == n {
                        assert(pos_of(q2[q.len() as int]) == (a, b));
                    } else {
                        assert(is_vis(vis, a, b));
                        if queue_has(q, a, b) {
                            let i = choose|i: int| 0 <= i < q.len() && #[trigger] pos_of(q[i]) == (a, b);
                            assert(q2[i] == q[i]);
                            assert(pos_of(q2[i]) == (a, b));
                        } else if Some(cur) == Some((a, b)) {
                        } else {
                            lemma_expanded_grows(g, vis, vis2, a, b);
                        }
                    }
                }
            }
        }
    } else {
        proof {
            if is_open(g, nx as int, ny as int) {
                assert(g[ny as int].len() == w);
                assert(vis[ny as int].len() == w);
                assert(g[ny as int][nx as int] == full[ny as int][nx as int]);
            }
        }
    }
}

} // verus!

verus! {

/// Chooses the wall that shows the final picture.
///
/// A breadth-first search runs from the start (the first `'s'`, else (1, 1))
/// over the open cells within the width of the first row, neighbours tried
/// right, left, down, up (`search_after` spells out each round), and stops
/// once it takes the finish (the first `'f'`, else one cell in from the
/// bottom-right corner) from its queue. If the search reached the finish
/// from a neighbour `p`, the answer is the cell straight ahead of the finish
/// as seen coming from `p`, when that cell is a wall of the maze. Otherwise
/// the answer is the cell below the finish, a safe outer wall for a finish
/// in the bottom-right corner. Being breadth-first, the search reaches the
/// finish along a shortest path, so `p` is one step nearer the start.
pub fn find_final_wall(maze: &Maze) -> (wall: (usize, usize))
    requires
        searchable(rows(*maze)),
    ensures
        pos_of(wall) == final_wall_of(rows(*maze)),
        is_final_wall(rows(*maze), pos_of(wall)),
        approach_is_shortest(rows(*maze)),
{
    let ghost full = rows(*maze);
    let ghost g = clipped(full);
    let ghost w = g[0].len() as int;
    let ghost h = g.len() as int;
    proof {
        assert(g[0].len() == full[0].len());
        assert forall|b: int| 0 <= b < h implies #[trigger] g[b].len() == w by {
            assert(full[b].len() >= full[0].len());
        }
        assert(well_shaped(g, w, h));
    }
    let width = maze[0].len();
    let height = maze.len();
    let start = match find_cell(maze, 's') {
        Some(p) => {
            proof {
                lemma_first_position(full, 's', (1, 1), p.0 as int, p.1 as int);
            }
            p
        },
        None => (1, 1),
    };
    let finish = match find_cell(maze, 'f') {
        Some(p) => {
            proof {
                lemma_first_position(full, 'f', (w - 2, h - 2), p.0 as int, p.1 as int);
            }
            p
        },
        None => (width - 2, height - 2),
    };
    let ghost s = pos_of(start);
    let ghost f = pos_of(finish);
    assert(s == search_start(full));
    assert(f == search_finish(full));
    assert(start.0 < width && start.1 < height);
    assert(finish.0 < width && finish.1 < height);

    let mut queue: VecDeque<(usize, usize)> = VecDeque::new();
    queue.push_back(start);
    let mut visited = filled_table(width, height, false);
    let mut previous: Vec<Vec<Option<(usize, usize)>>> = filled_table(width, height, None);
    let ghost vis_blank = table(visited);
    assert(vis_blank[s.1].len() == w);
    set_entry(&mut visited, start.0, start.1, true);
    proof {
        let vis = table(visited);
        let prev = table(previous);
        assert forall|a: int, b: int| #[trigger] is_vis(vis, a, b) implies (a, b) == s by {
            if (a, b) != s {
                assert(vis_blank[b].len() == w);
                assert(vis_blank[b][a] == false);
            }
        }
        assert(well_shaped(vis, w, h)) by {
            assert forall|b: int| 0 <= b < h implies #[trigger] vis[b].len() == w by {
                assert(vis_blank[b].len() == w);
            }
        }
        assert(is_vis(vis, s.0, s.1));
        assert(prev[s.1][s.0] is None);
        assert(visited_reached(g, vis, s)) by {
            let p = seq![s];
            assert(is_walk(g, p));
            assert(all_visited(vis, p));
            assert(walk_between(g, p, s, s));
        }
        assert(queue_ok(vis, queue@));
        assert(frontier_ok(g, vis, queue@, None)) by {
            assert(pos_of(queue@[0]) == s);
        }
        let init = search_init(full);
        assert(vis_blank =~= Seq::new(h as nat, |_y: int| Seq::new(w as nat, |_x: int| false))) by {
            assert forall|b: int| 0 <= b < h implies #[trigger] vis_blank[b] =~= Seq::new(
                w as nat,
                |_x: int| false,
            ) by {
                assert(vis_blank[b].len() == w);
            }
        }
        assert(prev =~= Seq::new(h as nat, |_y: int| Seq::new(w as nat, |_x: int| None::<(usize, usize)>))) by {
            assert forall|b: int| 0 <= b < h implies #[trigger] prev[b] =~= Seq::new(
                w as nat,
                |_x: int| None::<(usize, usize)>,
            ) by {
                assert(prev[b].len() == w);
            }
        }
        assert(queue@ =~= seq![start]);
        assert(cell_of(s) == start);
        assert(init == (SearchState { queue: queue@, visited: vis, previous: prev, stopped: false }));
    }
    let ghost mut rounds: nat = 0;
    let ghost fu = cell_of(search_finish(full));
    assert(fu == finish);

    loop
        invariant_except_break
            queue_ok(table(visited), queue@),
            frontier_ok(g, table(visited), queue@, None),
            search_after(full, rounds) == (SearchState {
                queue: queue@,
                visited: table(visited),
                previous: table(previous),
                stopped: false,
            }),
        invariant
            fu == finish,
            fu == cell_of(search_finish(full)),
            full == rows(*maze),
            g == clipped(full),
            rows_cover(full),
            w == g[0].len(),
            h == g.len(),
            width == w,
            height == h,
            s == pos_of(start),
            f == pos_of(finish),
            finish.0 < width && finish.1 < height,
            search_base(g, w, h, s, table(visited), table(previous)),
        ensures
            search_base(g, w, h, s, table(visited), table(previous)),
            closed(g, table(visited)) || is_vis(table(visited), f.0, f.1),
            search_after(full, rounds).stopped,
            search_after(full, rounds).previous == table(previous),
        decreases search_measure(table(visited), queue@),
    {
        let ghost q0 = queue@;
        let ghost vis0 = table(visited);
        let ghost prev0 = table(previous);
        let ghost r0 = rounds;
        match queue.pop_front() {
            None => {
                proof {
                    rounds = rounds + 1;
                    assert(search_after(full, rounds) == search_step(full, fu, search_after(full, r0)));
                    assert forall|a: int, b: int| #[trigger] is_vis(vis0, a, b) implies expanded(g, vis0, a, b) by {
                        assert(!queue_has(q0, a, b));
                    }
                }
                break;
            },
            Some(cur) => {
                let (x, y) = cur;
                proof {
                    assert(is_vis(vis0, q0[0].0 as int, q0[0].1 as int));
                    assert(vis0[y as int].len() == w);
                }
                let ghost rest = SearchState {
                    queue: queue@,
                    visited: vis0,
                    previous: prev0,
                    stopped: false,
                };
                proof {
                    assert(q0.drop_first() =~= queue@);
                }
                if x == finish.0 && y == finish.1 {
                    proof {
                        rounds = r0 + 1;
                        assert((rounds - 1) as nat == r0);
                        assert(search_after(full, rounds) == search_step(full, fu, search_after(full, r0)));
                    }
                    break;
                }
                let ghost c: Pos = (x as int, y as int);
                proof {
                    let q1 = queue@;
                    assert(queue_ok(vis0, q1)) by {
                        assert forall|i: int| 0 <= i < q1.len() implies #[trigger] is_vis(vis0, q1[i].0 as int, q1[i].1 as int) by {
                            assert(q1[i] == q0[i + 1]);
                            assert(is_vis(vis0, q0[i + 1].0 as int, q0[i + 1].1 as int));
                        }
                    }
                    assert(frontier_ok(g, vis0, q1, Some(c))) by {
                        assert forall|a: int, b: int| #[trigger] is_vis(vis0, a, b) implies queue_has(q1, a, b) || Some(c) == Some((a, b)) || expanded(g, vis0, a, b) by {
                            if queue_has(q0, a, b) {
                                let i = choose|i: int| 0 <= i < q0.len() && #[trigger] pos_of(q0[i]) == (a, b);
                                if i > 0 {
                                    assert(q1[i - 1] == q0[i]);
                                    assert(pos_of(q1[i - 1]) == (a, b));
                                }
                            }
                        }
                    }
                }
                try_visit(maze, &mut visited, &mut previous, &mut queue, x, y, x + 1, y, Ghost(s));
                let ghost vis1 = table(visited);
                let ghost st1 = SearchState {
                    queue: queue@,
                    visited: table(visited),
                    previous: table(previous),
                    stopped: false,
                };
                if x > 0 {
                    try_visit(maze, &mut visited, &mut previous, &mut queue, x, y, x - 1, y, Ghost(s));
                }
                let ghost vis2 = table(visited);
                let ghost st2 = SearchState {
                    queue: queue@,
                    visited: table(visited),
                    previous: table(previous),
                    stopped: false,
                };
                try_visit(maze, &mut visited, &mut previous, &mut queue, x, y, x, y + 1, Ghost(s));
                let ghost vis3 = table(visited);
                let ghost st3 = SearchState {
                    queue: queue@,
                    visited: table(visited),
                    previous: table(previous),
                    stopped: false,
                };
                if y > 0 {
                    try_visit(maze, &mut visited, &mut previous, &mut queue, x, y, x, y - 1, Ghost(s));
                }
                proof {
                    assert(st1 == search_visit(full, rest, x, y, (x + 1) as usize, y));
                    assert(st2 == if x > 0 {
                        search_visit(full, st1, x, y, (x - 1) as usize, y)
                    } else {
                        st1
                    });
                    assert(st3 == search_visit(full, st2, x, y, x, (y + 1) as usize));
                    assert((SearchState {
                        queue: queue@,
                        visited: table(visited),
                        previous: table(previous),
                        stopped: false,
                    }) == search_expand(full, rest, x, y));
                    assert(q0[0] == (x, y));
                    rounds = r0 + 1;
                    assert((rounds - 1) as nat == r0);
                    assert(search_after(full, rounds) == search_step(full, fu, search_after(full, r0)));
                }
                proof {
                    let vis4 = table(visited);
                    let q4 = queue@;
                    assert(is_open(g, x + 1, y as int) ==> is_vis(vis4, x + 1, y as int)) by {
                        if is_open(g, x + 1, y as int) {
                            assert(is_vis(vis1, x + 1, y as int));
                            assert(is_vis(vis2, x + 1, y as int));
                            assert(is_vis(vis3, x + 1, y as int));
                        }
                    }
                    assert(is_open(g, x - 1, y as int) ==> is_vis(vis4, x - 1, y as int)) by {
                        if is_open(g, x - 1, y as int) {
                            assert(is_vis(vis2, x - 1, y as int));
                            assert(is_vis(vis3, x - 1, y as int));
                        }
                    }
                    assert(is_open(g, x as int, y + 1) ==> is_vis(vis4, x as int, y + 1)) by {
                        if is_open(g, x as int, y + 1) {
                            assert(is_vis(vis3, x as int, y + 1));
                        }
                    }
                    assert(expanded(g, vis4, x as int, y as int));
                    assert(frontier_ok(g, vis4, q4, None)) by {
                        assert forall|a: int, b: int| #[trigger] is_vis(vis4, a, b) implies queue_has(q4, a, b) || None::<Pos> == Some((a, b)) || expanded(g, vis4, a, b) by {
                        }
                    }
                }
            },
        }
    }

    let ghost vis = table(visited);
    let ghost prev = table(previous);
    proof {
        lemma_search_result(full, rounds);
        assert(search_result(full).previous == prev);
        assert(machine_sized(full));
        lemma_search_takes_shortest_paths(full, rounds);
        assert(prev[f.1].len() == w);
        if prev[f.1][f.0] is Some {
            assert(prev[f.1][f.0] is Some);
        }
        assert(prev[f.1].len() == w);
        if f != s && reachable(g, s, f) {
            if closed(g, vis) {
                let p = choose|p: Seq<Pos>| #[trigger] walk_between(g, p, s, f);
                lemma_closed_reaches(g, vis, s, p, p.len() - 1);
            }
            assert(is_vis(vis, f.0, f.1));
        }
        if prev[f.1][f.0] is Some {
            assert(is_vis(vis, f.0, f.1));
            let pw = choose|p: Seq<Pos>| #[trigger] walk_between(g, p, s, f) && all_visited(vis, p);
            assert(walk_between(g, pw, s, f));
        }
    }
    let before = previous[finish.1][finish.0];
    if let Some(b) = before {
        proof {
            assert(adjacent(pos_of(b), f));
            assert(reachable_avoiding(g, s, pos_of(b), f));
        }
        let (fx, fy) = finish;
        let ahead_x: Option<usize> = if b.0 > fx {
            if fx > 0 {
                Some(fx - 1)
            } else {
                None
            }
        } else if b.0 < fx {
            Some(fx + 1)
        } else {
            Some(fx)
        };
        let ahead_y: Option<usize> = if b.1 > fy {
            if fy > 0 {
                Some(fy - 1)
            } else {
                None
            }
        } else if b.1 < fy {
            Some(fy + 1)
        } else {
            Some(fy)
        };
        if let (Some(wx), Some(wy)) = (ahead_x, ahead_y) {
            if wy < maze.len() && wx < width {
                proof {
                    assert(g[wy as int].len() == w);
                }
                if maze[wy][wx] == '#' {
                    return (wx, wy);
                }
            }
        }
    }
    (finish.0, finish.1 + 1)
}

} // verus!

verus! {

/// In a maze made by `create_maze` the start is (1, 1) and the finish is the
/// opposite corner chamber.
pub proof fn lemma_generated_endpoints(g: Seq<Seq<char>>, w: int, h: int)
    requires
        is_generated_maze(g, w, h),
    ensures
        search_start(g) == start_pos(),
        search_finish(g) == finish_pos(w, h),
{
    assert(g[h - 2].len() == w);
    assert(g[1].len() == w);
    assert(first_in_row_major(g, 'f', w - 2, h - 2)) by {
        assert forall|j: int, i: int| #![trigger g[j][i]] in_grid(g, i, j) && g[j][i] == 'f' implies (j > h - 2 || (j == h - 2 && i >= w - 2)) by {
            if (i, j) != start_pos() && (i, j) != finish_pos(w, h) {
                assert(g[j][i] == '#' || g[j][i] == '.');
            }
        }
    }
    lemma_first_position(g, 'f', (g[0].len() - 2, g.len() - 2), w - 2, h - 2);
    if w == 3 && h == 3 {
        assert(!contains_char(g, 's')) by {
            assert forall|x: int, y: int| in_grid(g, x, y) implies #[trigger] g[y][x] != 's' by {
                if (x, y) != start_pos() && (x, y) != finish_pos(w, h) {
                    assert(g[y][x] == '#' || g[y][x] == '.');
                }
            }
        }
    } else {
        assert(first_in_row_major(g, 's', 1, 1)) by {
            assert forall|j: int, i: int| #![trigger g[j][i]] in_grid(g, i, j) && g[j][i] == 's' implies (j > 1 || (j == 1 && i >= 1)) by {
                if (i, j) != start_pos() && (i, j) != finish_pos(w, h) {
                    assert(g[j][i] == '#' || g[j][i] == '.');
                }
            }
        }
        lemma_first_position(g, 's', (1, 1), 1, 1);
    }
}

/// In a maze made by `create_maze`, the wall chosen for the final picture is
/// a wall cell of the maze next to the finish.
pub proof fn lemma_final_wall_borders_finish(g: Seq<Seq<char>>, w: int, h: int, wall: Pos)
    requires
        is_generated_maze(g, w, h),
        is_final_wall(g, wall),
    ensures
        in_grid(g, wall.0, wall.1),
        g[wall.1][wall.0] == '#',
        adjacent(wall, finish_pos(w, h)),
{
    lemma_generated_endpoints(g, w, h);
    assert(g[0].len() == w);
    lemma_clipped_rectangle(g);
    let s = start_pos();
    let f = finish_pos(w, h);
    assert(g[h - 1].len() == w);
    assert(g[h - 1][w - 2] == '#');
    if f != s && reachable(g, s, f) {
        let p = choose|p: Pos|
            #![trigger reachable_avoiding(g, s, p, f)]
            adjacent(p, f) && reachable_avoiding(g, s, p, f) && wall == wall_ahead(g, f, p);
        assert(adjacent(p, f));
    }
}

} // verus!

verus! {

// ---------------------------------------------------------------------------
// Distances: the search takes shortest paths
// ---------------------------------------------------------------------------

/// `v` can be reached from `s` in at most `k` steps.
pub open spec fn near(g: Seq<Seq<char>>, s: Pos, v: Pos, k: int) -> bool {
    exists|p: Seq<Pos>| #[trigger] walk_between(g, p, s, v) && p.len() <= k + 1
}

/// `v` is exactly `k` steps from `s`: reachable in `k` steps, not in fewer.
pub open spec fn at_dist(g: Seq<Seq<char>>, s: Pos, v: Pos, k: int) -> bool {
    near(g, s, v, k) && !near(g, s, v, k - 1)
}

proof fn lemma_near_mono(g: Seq<Seq<char>>, s: Pos, v: Pos, k: int, k2: int)
    requires
        near(g, s, v, k),
        k <= k2,
    ensures
        near(g, s, v, k2),
{
    let p = choose|p: Seq<Pos>| #[trigger] walk_between(g, p, s, v) && p.len() <= k + 1;
    assert(walk_between(g, p, s, v) && p.len() <= k2 + 1);
}

proof fn lemma_dist_unique(g: Seq<Seq<char>>, s: Pos, v: Pos, k1: int, k2: int)
    requires
        at_dist(g, s, v, k1),
        at_dist(g, s, v, k2),
    ensures
        k1 == k2,
{
    if k1 < k2 {
        lemma_near_mono(g, s, v, k1, k2 - 1);
    } else if k2 < k1 {
        lemma_near_mono(g, s, v, k2, k1 - 1);
    }
}

proof fn lemma_near_step(g: Seq<Seq<char>>, s: Pos, u: Pos, v: Pos, k: int)
    requires
        near(g, s, u, k),
        adjacent(u, v),
        is_open(g, v.0, v.1),
    ensures
        near(g, s, v, k + 1),
{
    let p = choose|p: Seq<Pos>| #[trigger] walk_between(g, p, s, u) && p.len() <= k + 1;
    crate::grid::lemma_walk_push(g, p, v);
    assert(walk_between(g, p.push(v), s, v));
}

/// The last step of a walk of at most `k` steps to `v`, when `v` is not the
/// start: a neighbour reached in at most `k - 1` steps.
proof fn lemma_pred(g: Seq<Seq<char>>, s: Pos, v: Pos, k: int) -> (w: Pos)
    requires
        near(g, s, v, k),
        v != s,
    ensures
        near(g, s, w, k - 1),
        adjacent(w, v),
        is_open(g, v.0, v.1),
{
    let p = choose|p: Seq<Pos>| #[trigger] walk_between(g, p, s, v) && p.len() <= k + 1;
    assert(p.len() >= 2);
    let q = p.drop_last();
    assert(step_ok(g, p, p.len() - 2));
    assert(is_walk(g, q)) by {
        assert forall|i: int| 0 <= i < q.len() - 1 implies #[trigger] step_ok(g, q, i) by {
            assert(step_ok(g, p, i));
        }
    }
    assert(walk_between(g, q, s, q.last()));
    q.last()
}

proof fn lemma_start_dist(g: Seq<Seq<char>>, s: Pos)
    ensures
        at_dist(g, s, s, 0),
{
    let p = seq![s];
    assert(is_walk(g, p));
    assert(walk_between(g, p, s, s));
}

proof fn lemma_dist_zero(g: Seq<Seq<char>>, s: Pos, v: Pos)
    requires
        near(g, s, v, 0),
    ensures
        v == s,
{
    let p = choose|p: Seq<Pos>| #[trigger] walk_between(g, p, s, v) && p.len() <= 1;
}


/// The queue holds cells `D` or `D + 1` steps from the start, the nearer
/// ones first.
spec fn levels_ok(c: Seq<Seq<char>>, s: Pos, q: Seq<(usize, usize)>, d: int) -> bool {
    &&& forall|i: int|
        0 <= i < q.len() ==> at_dist(c, s, #[trigger] pos_of(q[i]), d) || at_dist(
            c,
            s,
            pos_of(q[i]),
            d + 1,
        )
    &&& forall|i: int, j: int|
        0 <= i < j < q.len() && at_dist(c, s, #[trigger] pos_of(q[i]), d + 1) ==> at_dist(
            c,
            s,
            #[trigger] pos_of(q[j]),
            d + 1,
        )
}

/// Each recorded predecessor is one step nearer the start than its cell.
pub open spec fn prev_shortest(
    c: Seq<Seq<char>>,
    s: Pos,
    prev: Seq<Seq<Option<(usize, usize)>>>,
) -> bool {
    forall|x: int, y: int|
        #![trigger prev[y][x]]
        0 <= y < prev.len() && 0 <= x < prev[y].len() && prev[y][x] is Some ==> exists|k: int|
            at_dist(c, s, pos_of(prev[y][x]->0), k) && #[trigger] at_dist(c, s, (x, y), k + 1)
}

/// The search state at level `d`, with `cur` the cell being expanded, if any.
spec fn dist_inv(grid: Seq<Seq<char>>, st: SearchState, d: int, cur: Option<Pos>) -> bool {
    let c = clipped(grid);
    let s = search_start(grid);
    let w = grid[0].len() as int;
    let h = grid.len() as int;
    let vis = st.visited;
    let q = st.queue;
    &&& rows_cover(grid)
    &&& well_shaped(c, w, h)
    &&& well_shaped(vis, w, h)
    &&& well_shaped(st.previous, w, h)
    &&& d >= 0
    &&& is_vis(vis, s.0, s.1)
    &&& queue_ok(vis, q)
    &&& levels_ok(c, s, q, d)
    &&& forall|x: int, y: int|
        #[trigger] is_vis(vis, x, y) && !queue_has(q, x, y) && cur != Some((x, y)) ==> expanded(
            c,
            vis,
            x,
            y,
        )
    &&& forall|p: Pos| #[trigger] near(c, s, p, d - 1) ==> is_vis(vis, p.0, p.1) && !queue_has(q, p.0, p.1)
    &&& forall|x: int, y: int| #[trigger] is_vis(vis, x, y) ==> near(c, s, (x, y), d + 1)
    &&& prev_shortest(c, s, st.previous)
    &&& match cur {
        Some(u) => at_dist(c, s, u, d) && is_vis(vis, u.0, u.1),
        None => true,
    }
}

proof fn lemma_queue_has_push(q: Seq<(usize, usize)>, n: (usize, usize), x: int, y: int)
    ensures
        queue_has(q.push(n), x, y) <==> (queue_has(q, x, y) || pos_of(n) == (x, y)),
{
    let q2 = q.push(n);
    if queue_has(q2, x, y) {
        let i = choose|i: int| 0 <= i < q2.len() && #[trigger] pos_of(q2[i]) == (x, y);
        if i < q.len() {
            assert(pos_of(q[i]) == (x, y));
        }
    }
    if queue_has(q, x, y) {
        let i = choose|i: int| 0 <= i < q.len() && #[trigger] pos_of(q[i]) == (x, y);
        assert(pos_of(q2[i]) == (x, y));
    }
    if pos_of(n) == (x, y) {
        assert(pos_of(q2[q.len() as int]) == (x, y));
    }
}

proof fn lemma_queue_has_rest(q: Seq<(usize, usize)>, x: int, y: int)
    requires
        q.len() > 0,
    ensures
        queue_has(q, x, y) <==> (queue_has(q.drop_first(), x, y) || pos_of(q[0]) == (x, y)),
{
    let r = q.drop_first();
    if queue_has(q, x, y) {
        let i = choose|i: int| 0 <= i < q.len() && #[trigger] pos_of(q[i]) == (x, y);
        if i > 0 {
            assert(pos_of(r[i - 1]) == (x, y));
        }
    }
    if queue_has(r, x, y) {
        let i = choose|i: int| 0 <= i < r.len() && #[trigger] pos_of(r[i]) == (x, y);
        assert(pos_of(q[i + 1]) == (x, y));
    }
    if pos_of(q[0]) == (x, y) {
        assert(pos_of(q[0]) == (x, y));
    }
}

/// Looking at one neighbour of the cell being expanded keeps the levels.
proof fn lemma_visit_inv(
    grid: Seq<Seq<char>>,
    st: SearchState,
    d: int,
    x: usize,
    y: usize,
    nx: usize,
    ny: usize,
)
    requires
        dist_inv(grid, st, d, Some((x as int, y as int))),
        adjacent((x as int, y as int), (nx as int, ny as int)),
    ensures
        ({
            let st2 = search_visit(grid, st, x, y, nx, ny);
            &&& dist_inv(grid, st2, d, Some((x as int, y as int)))
            &&& is_open(clipped(grid), nx as int, ny as int) ==> is_vis(
                st2.visited,
                nx as int,
                ny as int,
            )
            &&& vis_grows(st.visited, st2.visited)
            &&& st2.stopped == st.stopped
        }),
{
    let c = clipped(grid);
    let s = search_start(grid);
    let w = grid[0].len() as int;
    let h = grid.len() as int;
    let vis = st.visited;
    let prev = st.previous;
    let q = st.queue;
    let u: Pos = (x as int, y as int);
    let n: Pos = (nx as int, ny as int);
    let st2 = search_visit(grid, st, x, y, nx, ny);
    if ny < grid.len() && nx < grid[0].len() {
        assert(grid[ny as int].len() >= w);
        assert(c[ny as int][nx as int] == grid[ny as int][nx as int]);
        assert(vis[ny as int].len() == w);
    }
    if st2 != st {
        // a fresh cell: open, not seen yet
        assert(is_open(c, n.0, n.1));
        assert(!is_vis(vis, n.0, n.1));
        let vis2 = st2.visited;
        let prev2 = st2.previous;
        let q2 = st2.queue;
        assert(n != s);
        lemma_near_step(c, s, u, n, d);
        assert(!near(c, s, n, d)) by {
            if near(c, s, n, d) {
                let pw = lemma_pred(c, s, n, d);
                assert(near(c, s, pw, d - 1));
                assert(is_vis(vis, pw.0, pw.1) && !queue_has(q, pw.0, pw.1));
                assert(pw != u);
                assert(expanded(c, vis, pw.0, pw.1));
                assert(is_vis(vis, n.0, n.1));
            }
        }
        assert(at_dist(c, s, n, d + 1));
        assert(!near(c, s, n, d - 1)) by {
            if near(c, s, n, d - 1) {
                lemma_near_mono(c, s, n, d - 1, d);
            }
        }
        assert(vis_grows(vis, vis2)) by {
            assert forall|a: int, b: int| #[trigger] is_vis(vis, a, b) implies is_vis(vis2, a, b) by {}
        }
        assert(well_shaped(vis2, w, h)) by {
            assert forall|b: int| 0 <= b < h implies #[trigger] vis2[b].len() == w by {
                assert(vis[b].len() == w);
            }
        }
        assert(well_shaped(prev2, w, h)) by {
            assert forall|b: int| 0 <= b < h implies #[trigger] prev2[b].len() == w by {
                assert(prev[b].len() == w);
            }
        }
        assert(queue_ok(vis2, q2)) by {
            assert forall|i: int| 0 <= i < q2.len() implies #[trigger] is_vis(vis2, q2[i].0 as int, q2[i].1 as int) by {
                if i < q.len() {
                    assert(q2[i] == q[i]);
                    assert(is_vis(vis, q[i].0 as int, q[i].1 as int));
                }
            }
        }
        assert(levels_ok(c, s, q2, d)) by {
            assert forall|i: int| 0 <= i < q2.len() implies at_dist(c, s, #[trigger] pos_of(q2[i]), d) || at_dist(c, s, pos_of(q2[i]), d + 1) by {
                if i < q.len() {
                    assert(q2[i] == q[i]);
                }
            }
            assert forall|i: int, j: int| 0 <= i < j < q2.len() && at_dist(c, s, #[trigger] pos_of(q2[i]), d + 1) implies at_dist(c, s, #[trigger] pos_of(q2[j]), d + 1) by {
                assert(q2[i] == q[i]);
                if j < q.len() {
                    assert(q2[j] == q[j]);
                }
            }
        }
        assert forall|a: int, b: int| #[trigger] is_vis(vis2, a, b) && !queue_has(q2, a, b) && Some(u) != Some((a, b)) implies expanded(c, vis2, a, b) by {
            lemma_queue_has_push(q, (nx, ny), a, b);
            assert(is_vis(vis, a, b));
            lemma_expanded_grows(c, vis, vis2, a, b);
        }
        assert forall|p: Pos| #[trigger] near(c, s, p, d - 1) implies is_vis(vis2, p.0, p.1) && !queue_has(q2, p.0, p.1) by {
            lemma_queue_has_push(q, (nx, ny), p.0, p.1);
            assert(is_vis(vis, p.0, p.1));
        }
        assert forall|a: int, b: int| #[trigger] is_vis(vis2, a, b) implies near(c, s, (a, b), d + 1) by {
            if (a, b) != n {
                assert(is_vis(vis, a, b));
            }
        }
        assert(prev_shortest(c, s, prev2)) by {
            assert forall|a: int, b: int|
                #![trigger prev2[b][a]]
                0 <= b < prev2.len() && 0 <= a < prev2[b].len() && prev2[b][a] is Some implies exists|k: int|
                    at_dist(c, s, pos_of(prev2[b][a]->0), k) && #[trigger] at_dist(c, s, (a, b), k + 1) by {
                if (a, b) == n {
                    assert(pos_of(prev2[b][a]->0) == u);
                    assert(at_dist(c, s, pos_of(prev2[b][a]->0), d) && at_dist(c, s, (a, b), d + 1));
                } else {
                    assert(prev[b].len() == w);
                    assert(prev2[b][a] == prev[b][a]);
                }
            }
        }
        assert(is_vis(vis2, s.0, s.1));
        assert(is_vis(vis2, u.0, u.1));
    }
}

/// What holds of every state of the search: recorded predecessors are one
/// step nearer the start, and a running search keeps its levels.
spec fn run_ok(grid: Seq<Seq<char>>, st: SearchState) -> bool {
    &&& prev_shortest(clipped(grid), search_start(grid), st.previous)
    &&& !st.stopped ==> exists|d: int| #[trigger] dist_inv(grid, st, d, None)
}

/// A grid small enough for machine coordinates, as the rows of a `Maze` are.
pub open spec fn machine_sized(grid: Seq<Seq<char>>) -> bool {
    grid.len() <= usize::MAX && grid[0].len() <= usize::MAX
}

proof fn lemma_init_inv(grid: Seq<Seq<char>>)
    requires
        searchable(grid),
        machine_sized(grid),
    ensures
        dist_inv(grid, search_init(grid), 0, None),
{
    let c = clipped(grid);
    let s = search_start(grid);
    let w = grid[0].len() as int;
    let h = grid.len() as int;
    let st = search_init(grid);
    let vis = st.visited;
    let blank = Seq::new(h as nat, |_y: int| Seq::new(w as nat, |_x: int| false));
    assert(pos_of(cell_of(s)) == s);
    lemma_start_dist(c, s);
    assert(well_shaped(c, w, h)) by {
        assert forall|b: int| 0 <= b < h implies #[trigger] c[b].len() == w by {
            assert(grid[b].len() >= w);
        }
    }
    assert(well_shaped(vis, w, h)) by {
        assert forall|b: int| 0 <= b < h implies #[trigger] vis[b].len() == w by {
            assert(blank[b].len() == w);
        }
    }
    assert forall|a: int, b: int| #[trigger] is_vis(vis, a, b) implies (a, b) == s by {
        if (a, b) != s {
            assert(blank[b].len() == w);
        }
    }
    assert(queue_has(st.queue, s.0, s.1)) by {
        assert(pos_of(st.queue[0]) == s);
    }
    assert forall|p: Pos| #[trigger] near(c, s, p, 0int - 1) implies is_vis(vis, p.0, p.1) && !queue_has(st.queue, p.0, p.1) by {
        let pw = choose|pw: Seq<Pos>| #[trigger] walk_between(c, pw, s, p) && pw.len() <= 0;
    }
    assert forall|a: int, b: int| #[trigger] is_vis(vis, a, b) implies near(c, s, (a, b), 0int + 1) by {
        lemma_near_mono(c, s, s, 0, 1);
    }
    assert(levels_ok(c, s, st.queue, 0)) by {
        assert forall|i: int| 0 <= i < st.queue.len() implies at_dist(c, s, #[trigger] pos_of(st.queue[i]), 0) || at_dist(c, s, pos_of(st.queue[i]), 0int + 1) by {
            assert(i == 0);
        }
    }
}

/// When the front of the queue is a level further, the whole queue is, and
/// the search moves up a level.
proof fn lemma_level_up(grid: Seq<Seq<char>>, st: SearchState, d: int)
    requires
        dist_inv(grid, st, d, None),
        st.queue.len() > 0,
        at_dist(clipped(grid), search_start(grid), pos_of(st.queue[0]), d + 1),
    ensures
        dist_inv(grid, st, d + 1, None),
{
    let c = clipped(grid);
    let s = search_start(grid);
    let vis = st.visited;
    let q = st.queue;
    assert forall|i: int| 0 <= i < q.len() implies #[trigger] at_dist(c, s, pos_of(q[i]), d + 1) by {
        if i > 0 {
            assert(at_dist(c, s, pos_of(q[0]), d + 1));
        }
    }
    assert(levels_ok(c, s, q, d + 1)) by {
        assert forall|i: int| 0 <= i < q.len() implies at_dist(c, s, #[trigger] pos_of(q[i]), d + 1) || at_dist(c, s, pos_of(q[i]), d + 1 + 1) by {
            assert(at_dist(c, s, pos_of(q[i]), d + 1));
        }
        assert forall|i: int, j: int| 0 <= i < j < q.len() && at_dist(c, s, #[trigger] pos_of(q[i]), d + 1 + 1) implies at_dist(c, s, #[trigger] pos_of(q[j]), d + 1 + 1) by {
            assert(at_dist(c, s, pos_of(q[i]), d + 1));
            lemma_dist_unique(c, s, pos_of(q[i]), d + 1, d + 2);
        }
    }
    assert forall|p: Pos| #[trigger] near(c, s, p, d + 1 - 1) implies is_vis(vis, p.0, p.1) && !queue_has(q, p.0, p.1) by {
        if near(c, s, p, d - 1) {
        } else {
            // p is exactly d steps away
            if p == s {
                assert(is_vis(vis, s.0, s.1));
            } else {
                let pw = lemma_pred(c, s, p, d);
                assert(is_vis(vis, pw.0, pw.1) && !queue_has(q, pw.0, pw.1));
                assert(expanded(c, vis, pw.0, pw.1));
            }
            if queue_has(q, p.0, p.1) {
                let i = choose|i: int| 0 <= i < q.len() && #[trigger] pos_of(q[i]) == (p.0, p.1);
                assert(at_dist(c, s, pos_of(q[i]), d + 1));
                assert(at_dist(c, s, p, d));
                lemma_dist_unique(c, s, p, d, d + 1);
            }
        }
    }
    assert forall|a: int, b: int| #[trigger] is_vis(vis, a, b) implies near(c, s, (a, b), d + 1 + 1) by {
        lemma_near_mono(c, s, (a, b), d + 1, d + 2);
    }
}

/// Taking the front cell off the queue to expand it keeps the levels.
proof fn lemma_pop_inv(grid: Seq<Seq<char>>, st: SearchState, d: int)
    requires
        dist_inv(grid, st, d, None),
        st.queue.len() > 0,
        at_dist(clipped(grid), search_start(grid), pos_of(st.queue[0]), d),
    ensures
        dist_inv(
            grid,
            SearchState {
                queue: st.queue.drop_first(),
                visited: st.visited,
                previous: st.previous,
                stopped: false,
            },
            d,
            Some(pos_of(st.queue[0])),
        ),
{
    let c = clipped(grid);
    let s = search_start(grid);
    let vis = st.visited;
    let q = st.queue;
    let r = q.drop_first();
    let u = pos_of(q[0]);
    assert(is_vis(vis, q[0].0 as int, q[0].1 as int));
    assert(queue_ok(vis, r)) by {
        assert forall|i: int| 0 <= i < r.len() implies #[trigger] is_vis(vis, r[i].0 as int, r[i].1 as int) by {
            assert(r[i] == q[i + 1]);
            assert(is_vis(vis, q[i + 1].0 as int, q[i + 1].1 as int));
        }
    }
    assert(levels_ok(c, s, r, d)) by {
        assert forall|i: int| 0 <= i < r.len() implies at_dist(c, s, #[trigger] pos_of(r[i]), d) || at_dist(c, s, pos_of(r[i]), d + 1) by {
            assert(r[i] == q[i + 1]);
            assert(at_dist(c, s, pos_of(q[i + 1]), d) || at_dist(c, s, pos_of(q[i + 1]), d + 1));
        }
        assert forall|i: int, j: int| 0 <= i < j < r.len() && at_dist(c, s, #[trigger] pos_of(r[i]), d + 1) implies at_dist(c, s, #[trigger] pos_of(r[j]), d + 1) by {
            assert(r[i] == q[i + 1]);
            assert(r[j] == q[j + 1]);
            assert(at_dist(c, s, pos_of(q[i + 1]), d + 1));
        }
    }
    assert forall|a: int, b: int| #[trigger] is_vis(vis, a, b) && !queue_has(r, a, b) && Some(u) != Some((a, b)) implies expanded(c, vis, a, b) by {
        lemma_queue_has_rest(q, a, b);
    }
    assert forall|p: Pos| #[trigger] near(c, s, p, d - 1) implies is_vis(vis, p.0, p.1) && !queue_has(r, p.0, p.1) by {
        lemma_queue_has_rest(q, p.0, p.1);
    }
}

/// Expanding a cell at level `d` keeps the levels, with the cell expanded.
proof fn lemma_expand_inv(grid: Seq<Seq<char>>, st: SearchState, d: int, x: usize, y: usize)
    requires
        dist_inv(grid, st, d, Some((x as int, y as int))),
        machine_sized(grid),
        !st.stopped,
    ensures
        dist_inv(grid, search_expand(grid, st, x, y), d, None),
        !search_expand(grid, st, x, y).stopped,
{
    let c = clipped(grid);
    let u: Pos = (x as int, y as int);
    assert(x < grid[0].len()) by {
        assert(st.visited[y as int].len() == grid[0].len());
    }
    let s1 = search_visit(grid, st, x, y, (x + 1) as usize, y);
    lemma_visit_inv(grid, st, d, x, y, (x + 1) as usize, y);
    let s2 = if x > 0 {
        search_visit(grid, s1, x, y, (x - 1) as usize, y)
    } else {
        s1
    };
    if x > 0 {
        lemma_visit_inv(grid, s1, d, x, y, (x - 1) as usize, y);
    }
    let s3 = search_visit(grid, s2, x, y, x, (y + 1) as usize);
    assert(y < grid.len()) by {
        assert(st.visited.len() == grid.len());
    }
    lemma_visit_inv(grid, s2, d, x, y, x, (y + 1) as usize);
    let s4 = if y > 0 {
        search_visit(grid, s3, x, y, x, (y - 1) as usize)
    } else {
        s3
    };
    if y > 0 {
        lemma_visit_inv(grid, s3, d, x, y, x, (y - 1) as usize);
    }
    assert(s4 == search_expand(grid, st, x, y));
    let v4 = s4.visited;
    assert(expanded(c, v4, u.0, u.1)) by {
        if is_open(c, u.0 + 1, u.1) {
            assert(is_vis(s1.visited, u.0 + 1, u.1));
            assert(is_vis(s2.visited, u.0 + 1, u.1));
            assert(is_vis(s3.visited, u.0 + 1, u.1));
        }
        if is_open(c, u.0 - 1, u.1) {
            assert(is_vis(s2.visited, u.0 - 1, u.1));
            assert(is_vis(s3.visited, u.0 - 1, u.1));
        }
        if is_open(c, u.0, u.1 + 1) {
            assert(is_vis(s3.visited, u.0, u.1 + 1));
        }
    }
    assert forall|a: int, b: int| #[trigger] is_vis(v4, a, b) && !queue_has(s4.queue, a, b) && None::<Pos> != Some((a, b)) implies expanded(c, v4, a, b) by {
        if (a, b) != u {
            assert(Some(u) != Some((a, b)));
        }
    }
}

/// Every round of the search keeps `run_ok`.
proof fn lemma_step_ok(grid: Seq<Seq<char>>, st: SearchState)
    requires
        searchable(grid),
        machine_sized(grid),
        run_ok(grid, st),
    ensures
        run_ok(grid, search_step(grid, cell_of(search_finish(grid)), st)),
{
    let f = cell_of(search_finish(grid));
    let c = clipped(grid);
    let s = search_start(grid);
    if !st.stopped && st.queue.len() > 0 && st.queue[0] != f {
        let d0 = choose|d: int| #[trigger] dist_inv(grid, st, d, None);
        let u = pos_of(st.queue[0]);
        let d = if at_dist(c, s, u, d0) {
            d0
        } else {
            lemma_level_up(grid, st, d0);
            d0 + 1
        };
        lemma_pop_inv(grid, st, d);
        let rest = SearchState {
            queue: st.queue.drop_first(),
            visited: st.visited,
            previous: st.previous,
            stopped: false,
        };
        lemma_expand_inv(grid, rest, d, st.queue[0].0, st.queue[0].1);
        let next = search_step(grid, f, st);
        assert(dist_inv(grid, next, d, None));
    }
}

/// Every state of the search satisfies `run_ok`.
proof fn lemma_run_ok(grid: Seq<Seq<char>>, n: nat)
    requires
        searchable(grid),
        machine_sized(grid),
    ensures
        run_ok(grid, search_after(grid, n)),
    decreases n,
{
    if n == 0 {
        lemma_init_inv(grid);
    } else {
        lemma_run_ok(grid, (n - 1) as nat);
        lemma_step_ok(grid, search_after(grid, (n - 1) as nat));
    }
}

/// The search takes shortest paths: at every round, each cell's recorded
/// predecessor is one step nearer the start than the cell itself.
pub proof fn lemma_search_takes_shortest_paths(grid: Seq<Seq<char>>, n: nat)
    requires
        searchable(grid),
        machine_sized(grid),
    ensures
        prev_shortest(clipped(grid), search_start(grid), search_after(grid, n).previous),
{
    lemma_run_ok(grid, n);
}

/// The search reaches the finish along a shortest path: when it records the
/// neighbour `b` it reached the finish from, `b` is `k` steps from the start
/// and the finish `k + 1`, for some `k`.
pub open spec fn approach_is_shortest(grid: Seq<Seq<char>>) -> bool {
    let f = search_finish(grid);
    match search_result(grid).previous[f.1][f.0] {
        Some(b) => exists|k: int|
            at_dist(clipped(grid), search_start(grid), pos_of(b), k) && at_dist(
                clipped(grid),
                search_start(grid),
                f,
                k + 1,
            ),
        None => true,
    }
}

} // verus!
