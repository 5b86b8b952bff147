use vstd::prelude::*;

use crate::grid::{
    grid_count, row_count, indicator, set_entry, lemma_grid_count_set, with_cell, in_grid, is_open, is_walk, lemma_reachable_mono, lemma_reachable_refl, lemma_reachable_step,
    opens_kept, reachable, rows, walk_between, well_shaped, Maze, Pos,
};
use crate::random::shuffle;

verus! {

// ---------------------------------------------------------------------------
// The shape of a generated maze
// ---------------------------------------------------------------------------

/// The side length that `create_maze` uses for a requested side length `n`:
/// at least 3, and odd (an even request is rounded down).
pub open spec fn maze_dimension(n: int) -> int {
    if n < 3 {
        3
    } else if n % 2 == 0 {
        n - 1
    } else {
        n
    }
}

/// The side `create_maze` uses for a requested side `n` is the odd number
/// among `max(n, 3) - 1` and `max(n, 3)`: nothing larger is ever cut down.
pub proof fn lemma_maze_dimension(n: int)
    ensures
        ({
            let m = if n < 3 {
                3
            } else {
                n
            };
            &&& maze_dimension(n) % 2 == 1
            &&& maze_dimension(n) >= 3
            &&& m - 1 <= maze_dimension(n) <= m
        }),
{
}

/// A chamber: a cell with odd coordinates strictly inside the border.
/// Chambers are the rooms that the carving connects.
pub open spec fn is_chamber(w: int, h: int, x: int, y: int) -> bool {
    &&& 0 < x < w - 1
    &&& 0 < y < h - 1
    &&& x % 2 == 1
    &&& y % 2 == 1
}

/// A passage: the cell between two chambers that lie side by side.
pub open spec fn is_passage(w: int, h: int, x: int, y: int) -> bool {
    ||| is_chamber(w, h, x - 1, y) && is_chamber(w, h, x + 1, y)
    ||| is_chamber(w, h, x, y - 1) && is_chamber(w, h, x, y + 1)
}

/// The cells that carving may open.
pub open spec fn carvable(w: int, h: int, x: int, y: int) -> bool {
    is_chamber(w, h, x, y) || is_passage(w, h, x, y)
}

/// The start cell.
pub open spec fn start_pos() -> Pos {
    (1, 1)
}

/// The finish cell of a `w` by `h` maze.
pub open spec fn finish_pos(w: int, h: int) -> Pos {
    (w - 2, h - 2)
}

/// Every open cell can be reached from the start.
pub open spec fn connected_from_start(g: Seq<Seq<char>>) -> bool {
    forall|x: int, y: int| #[trigger] is_open(g, x, y) ==> reachable(g, start_pos(), (x, y))
}

/// What `create_maze` promises of the grid `g` it builds with sides `w` and `h`.
pub open spec fn is_generated_maze(g: Seq<Seq<char>>, w: int, h: int) -> bool {
    &&& w >= 3 && w % 2 == 1
    &&& h >= 3 && h % 2 == 1
    &&& well_shaped(g, w, h)
    // the outer ring is wall
    &&& forall|x: int, y: int|
        #![trigger g[y][x]]
        in_grid(g, x, y) && (x == 0 || y == 0 || x == w - 1 || y == h - 1) ==> g[y][x] == '#'
    // cells with two even coordinates are wall
    &&& forall|x: int, y: int|
        #![trigger g[y][x]]
        in_grid(g, x, y) && x % 2 == 0 && y % 2 == 0 ==> g[y][x] == '#'
    // every chamber is open
    &&& forall|x: int, y: int| #[trigger] is_chamber(w, h, x, y) ==> is_open(g, x, y)
    // the start and finish marks, and plain cells everywhere else
    &&& g[1][1] == (if w == 3 && h == 3 {
        'f'
    } else {
        's'
    })
    &&& g[h - 2][w - 2] == 'f'
    &&& forall|x: int, y: int|
        #![trigger g[y][x]]
        in_grid(g, x, y) && (x, y) != start_pos() && (x, y) != finish_pos(w, h) ==> (g[y][x]
            == '#' || g[y][x] == '.')
    // every open cell can be reached from the start
    &&& connected_from_start(g)
    // one passage fewer than chambers is open: with the chambers connected,
    // the open cells form a tree, so exactly one path joins any two of them
    &&& open_cells(g) == 2 * chamber_count(w, h) - 1
}

/// Holds of the cells that are not walls.
pub open spec fn floor_pred() -> spec_fn(char) -> bool {
    |c: char| c != '#'
}

/// The number of cells of `g` that are not walls.
pub open spec fn open_cells(g: Seq<Seq<char>>) -> nat {
    grid_count(g, floor_pred())
}

/// The number of chambers of a `w` by `h` maze with odd sides.
pub open spec fn chamber_count(w: int, h: int) -> int {
    ((w - 1) / 2) * ((h - 1) / 2)
}

// ---------------------------------------------------------------------------
// Bookkeeping for the carving
// ---------------------------------------------------------------------------

spec fn width_of(g: Seq<Seq<char>>) -> int {
    g[0].len() as int
}

/// A grid that carving works on: odd sides of at least 3, all rows alike.
spec fn carve_frame(g: Seq<Seq<char>>) -> bool {
    &&& g.len() >= 3
    &&& g.len() % 2 == 1
    &&& width_of(g) >= 3
    &&& width_of(g) % 2 == 1
    &&& well_shaped(g, width_of(g), g.len() as int)
    &&& forall|x: int, y: int|
        #![trigger g[y][x]]
        in_grid(g, x, y) ==> g[y][x] == '#' || g[y][x] == '.'
}

/// `g1` has the shape of `g0` and differs only where a wall of `g0` on a
/// carvable cell became a plain path.
spec fn grows(g0: Seq<Seq<char>>, g1: Seq<Seq<char>>) -> bool {
    &&& g1.len() == g0.len()
    &&& forall|y: int| 0 <= y < g0.len() ==> #[trigger] g1[y].len() == g0[y].len()
    &&& forall|x: int, y: int|
        #![trigger g1[y][x]]
        in_grid(g0, x, y) ==> (g1[y][x] == g0[y][x] || (g0[y][x] == '#' && g1[y][x] == '.'
            && carvable(width_of(g0), g0.len() as int, x, y)))
}

/// The chambers two cells away from `(x, y)` are open.
spec fn around_open(g: Seq<Seq<char>>, w: int, h: int, x: int, y: int) -> bool {
    &&& is_chamber(w, h, x + 2, y) ==> is_open(g, x + 2, y)
    &&& is_chamber(w, h, x - 2, y) ==> is_open(g, x - 2, y)
    &&& is_chamber(w, h, x, y + 2) ==> is_open(g, x, y + 2)
    &&& is_chamber(w, h, x, y - 2) ==> is_open(g, x, y - 2)
}

/// Every chamber opened between `g0` and `g1` has its neighbouring chambers open.
spec fn new_chambers_done(g0: Seq<Seq<char>>, g1: Seq<Seq<char>>, w: int, h: int) -> bool {
    forall|x: int, y: int|
        is_chamber(w, h, x, y) && !is_open(g0, x, y) && #[trigger] is_open(g1, x, y)
            ==> around_open(g1, w, h, x, y)
}

spec fn is_step_dir(d: (isize, isize)) -> bool {
    d == (2isize, 0isize) || d == (-2isize, 0isize) || d == (0isize, 2isize) || d == (0isize, -2isize)
}

spec fn dir_done(g: Seq<Seq<char>>, w: int, h: int, x: int, y: int, d: (isize, isize)) -> bool {
    is_chamber(w, h, x + d.0, y + d.1) ==> is_open(g, x + d.0, y + d.1)
}

/// Holds of walls.
spec fn wall_pred() -> spec_fn(char) -> bool {
    |c: char| c == '#'
}

/// The number of walls in a grid.
spec fn grid_walls(g: Seq<Seq<char>>) -> nat {
    grid_count(g, wall_pred())
}

spec fn wall_count(c: char) -> int {
    indicator(c == '#')
}

proof fn lemma_with_cell_walls(g: Seq<Seq<char>>, x: int, y: int, c: char)
    requires
        in_grid(g, x, y),
    ensures
        grid_walls(with_cell(g, x, y, c)) == grid_walls(g) - wall_count(g[y][x]) + wall_count(c),
{
    lemma_grid_count_set(g, x, y, c, wall_pred());
}

/// `g` with every cell that is not a chamber turned into a wall.
spec fn chamber_mask(g: Seq<Seq<char>>, w: int, h: int) -> Seq<Seq<char>> {
    Seq::new(
        g.len(),
        |y: int|
            Seq::new(
                g[y].len(),
                |x: int|
                    if is_chamber(w, h, x, y) {
                        g[y][x]
                    } else {
                        '#'
                    },
            ),
    )
}

/// The number of open chambers.
spec fn open_chambers(g: Seq<Seq<char>>, w: int, h: int) -> nat {
    grid_count(chamber_mask(g, w, h), floor_pred())
}

proof fn lemma_mask_set(g: Seq<Seq<char>>, w: int, h: int, x: int, y: int, c: char)
    requires
        in_grid(g, x, y),
    ensures
        chamber_mask(with_cell(g, x, y, c), w, h) == with_cell(
            chamber_mask(g, w, h),
            x,
            y,
            if is_chamber(w, h, x, y) {
                c
            } else {
                '#'
            },
        ),
{
    let a = chamber_mask(with_cell(g, x, y, c), w, h);
    let b = with_cell(
        chamber_mask(g, w, h),
        x,
        y,
        if is_chamber(w, h, x, y) {
            c
        } else {
            '#'
        },
    );
    assert forall|yy: int| 0 <= yy < a.len() implies #[trigger] a[yy] =~= b[yy] by {
        if yy == y {
        }
    }
    assert(a =~= b);
}

/// Writing `c` at `(x, y)` changes the number of open cells and the number
/// of open chambers by what the cell was and becomes.
proof fn lemma_counts_set(g: Seq<Seq<char>>, w: int, h: int, x: int, y: int, c: char)
    requires
        in_grid(g, x, y),
    ensures
        open_cells(with_cell(g, x, y, c)) == open_cells(g) - indicator(g[y][x] != '#')
            + indicator(c != '#'),
        open_chambers(with_cell(g, x, y, c), w, h) == open_chambers(g, w, h) + if is_chamber(
            w,
            h,
            x,
            y,
        ) {
            indicator(c != '#') - indicator(g[y][x] != '#')
        } else {
            0
        },
{
    lemma_grid_count_set(g, x, y, c, floor_pred());
    lemma_mask_set(g, w, h, x, y, c);
    let m = chamber_mask(g, w, h);
    assert(m[y].len() == g[y].len());
    lemma_grid_count_set(
        m,
        x,
        y,
        if is_chamber(w, h, x, y) {
            c
        } else {
            '#'
        },
        floor_pred(),
    );
}

/// A row in which exactly the odd places are not walls has half its length
/// of such cells.
proof fn lemma_row_odd(r: Seq<char>)
    requires
        forall|i: int| 0 <= i < r.len() ==> ((#[trigger] r[i] != '#') <==> i % 2 == 1),
    ensures
        row_count(r, floor_pred()) == r.len() / 2,
    decreases r.len(),
{
    if r.len() > 0 {
        let d = r.drop_last();
        assert forall|i: int| 0 <= i < d.len() implies ((#[trigger] d[i] != '#') <==> i % 2 == 1) by {
            assert(d[i] == r[i]);
        }
        lemma_row_odd(d);
        assert(r.last() == r[r.len() - 1]);
    }
}

/// A row of walls only has no open cell.
proof fn lemma_row_walls(r: Seq<char>)
    requires
        forall|i: int| 0 <= i < r.len() ==> #[trigger] r[i] == '#',
    ensures
        row_count(r, floor_pred()) == 0,
    decreases r.len(),
{
    if r.len() > 0 {
        let d = r.drop_last();
        assert forall|i: int| 0 <= i < d.len() implies #[trigger] d[i] == '#' by {
            assert(d[i] == r[i]);
        }
        lemma_row_walls(d);
        assert(r.last() == r[r.len() - 1]);
    }
}

/// A grid whose odd rows each hold `c` open cells and whose even rows hold
/// none has `c` open cells for each odd row.
proof fn lemma_grid_odd_rows(g: Seq<Seq<char>>, c: int)
    requires
        c >= 0,
        forall|y: int|
            0 <= y < g.len() ==> #[trigger] row_count(g[y], floor_pred()) == if y % 2 == 1 {
                c
            } else {
                0
            },
    ensures
        grid_count(g, floor_pred()) == (g.len() / 2) * c,
    decreases g.len(),
{
    if g.len() > 0 {
        let n = g.len() as int;
        let d = g.drop_last();
        assert forall|y: int| 0 <= y < d.len() implies #[trigger] row_count(d[y], floor_pred()) == if y
            % 2 == 1 {
            c
        } else {
            0
        } by {
            assert(d[y] == g[y]);
        }
        lemma_grid_odd_rows(d, c);
        assert(g.last() == g[n - 1]);
        let last = row_count(g[n - 1], floor_pred()) as int;
        assert(grid_count(g, floor_pred()) == ((n - 1) / 2) * c + last);
        if (n - 1) % 2 == 1 {
            assert(last == c);
            assert(n / 2 == (n - 1) / 2 + 1);
            assert(((n - 1) / 2) * c + c == ((n - 1) / 2 + 1) * c) by (nonlinear_arith);
            assert(grid_count(g, floor_pred()) == (n / 2) * c);
        } else {
            assert(last == 0);
            assert(n / 2 == (n - 1) / 2);
            assert(grid_count(g, floor_pred()) == (n / 2) * c);
        }
        assert(g.len() / 2 == n / 2);
    } else {
        assert(grid_count(g, floor_pred()) == 0);
        assert(g.len() / 2 == 0);
        assert(0 * c == 0) by (nonlinear_arith);
    }
}

/// In a `w` by `h` grid with odd sides whose chambers are all open, the
/// number of open chambers is the number of chambers.
proof fn lemma_all_chambers_counted(g: Seq<Seq<char>>, w: int, h: int)
    requires
        w >= 3 && w % 2 == 1,
        h >= 3 && h % 2 == 1,
        well_shaped(g, w, h),
        forall|x: int, y: int| #[trigger] is_chamber(w, h, x, y) ==> is_open(g, x, y),
    ensures
        open_chambers(g, w, h) == chamber_count(w, h),
{
    let m = chamber_mask(g, w, h);
    assert forall|y: int| 0 <= y < m.len() implies #[trigger] row_count(m[y], floor_pred()) == if y
        % 2 == 1 {
        (w - 1) / 2
    } else {
        0
    } by {
        assert(g[y].len() == w);
        let r = m[y];
        if y % 2 == 1 {
            assert forall|i: int| 0 <= i < r.len() implies ((#[trigger] r[i] != '#') <==> i % 2
                == 1) by {
                if i % 2 == 1 && i < w - 1 {
                    assert(is_chamber(w, h, i, y));
                    assert(is_open(g, i, y));
                }
            }
            lemma_row_odd(r);
        } else {
            lemma_row_walls(r);
        }
    }
    lemma_grid_odd_rows(m, (w - 1) / 2);
    assert(m.len() / 2 == (h - 1) / 2);
}

/// Every open cell that is not a chamber lies between two open chambers.
spec fn passages_ok(g: Seq<Seq<char>>, w: int, h: int) -> bool {
    forall|x: int, y: int|
        #[trigger] is_open(g, x, y) && !is_chamber(w, h, x, y) ==> {
            ||| is_chamber(w, h, x - 1, y) && is_chamber(w, h, x + 1, y) && is_open(g, x - 1, y)
                && is_open(g, x + 1, y)
            ||| is_chamber(w, h, x, y - 1) && is_chamber(w, h, x, y + 1) && is_open(g, x, y - 1)
                && is_open(g, x, y + 1)
        }
}

/// The counting facts about the grid before carving: one open cell, the
/// start chamber.
proof fn lemma_initial_counts(w: int, h: int)
    requires
        w >= 3 && w % 2 == 1,
        h >= 3 && h % 2 == 1,
    ensures
        open_cells(with_cell(solid_grid(w, h), 1, 1, '.')) == 1,
        open_chambers(with_cell(solid_grid(w, h), 1, 1, '.'), w, h) == 1,
{
    let s = solid_grid(w, h);
    let m = chamber_mask(s, w, h);
    assert forall|y: int| 0 <= y < s.len() implies #[trigger] row_count(s[y], floor_pred()) == if y
        % 2 == 1 {
        0int
    } else {
        0int
    } by {
        lemma_row_walls(s[y]);
    }
    lemma_grid_odd_rows(s, 0);
    assert forall|y: int| 0 <= y < m.len() implies #[trigger] row_count(m[y], floor_pred()) == if y
        % 2 == 1 {
        0int
    } else {
        0int
    } by {
        lemma_row_walls(m[y]);
    }
    lemma_grid_odd_rows(m, 0);
    assert(s[1].len() == w);
    lemma_counts_set(s, w, h, 1, 1, '.');
}

proof fn lemma_grows_trans(g0: Seq<Seq<char>>, g1: Seq<Seq<char>>, g2: Seq<Seq<char>>)
    requires
        grows(g0, g1),
        grows(g1, g2),
        g0.len() > 0,
    ensures
        grows(g0, g2),
{
    assert(g1[0].len() == g0[0].len());
    assert forall|x: int, y: int| in_grid(g0, x, y) implies (#[trigger] g2[y][x] == g0[y][x] || (
    g0[y][x] == '#' && g2[y][x] == '.' && carvable(width_of(g0), g0.len() as int, x, y))) by {
        assert(g1[y].len() == g0[y].len());
        assert(g1[y][x] == g0[y][x] || g0[y][x] == '#');
        assert(g2[y][x] == g1[y][x] || g1[y][x] == '#');
    }
}

proof fn lemma_grows_keeps_open(g0: Seq<Seq<char>>, g1: Seq<Seq<char>>)
    requires
        grows(g0, g1),
    ensures
        opens_kept(g0, g1),
{
    assert forall|x: int, y: int| #[trigger] is_open(g0, x, y) implies is_open(g1, x, y) by {
        assert(g1[y].len() == g0[y].len());
        assert(g1[y][x] == g0[y][x] || g0[y][x] == '#');
    }
}

proof fn lemma_grows_frame(g0: Seq<Seq<char>>, g1: Seq<Seq<char>>)
    requires
        carve_frame(g0),
        grows(g0, g1),
    ensures
        carve_frame(g1),
        width_of(g1) == width_of(g0),
{
    assert(g1[0].len() == g0[0].len());
    assert forall|y: int| 0 <= y < g1.len() implies #[trigger] g1[y].len() == width_of(g1) by {
        assert(g1[y].len() == g0[y].len());
        assert(g0[y].len() == width_of(g0));
    }
    assert forall|x: int, y: int| in_grid(g1, x, y) implies #[trigger] g1[y][x] == '#' || g1[y][x]
        == '.' by {
        assert(g1[y].len() == g0[y].len());
        assert(in_grid(g0, x, y));
    }
}

proof fn lemma_grows_refl(g: Seq<Seq<char>>)
    ensures
        grows(g, g),
{
}

/// Opening the passage towards a closed chamber `(nx, ny)` and the chamber
/// itself keeps the carving bookkeeping.
proof fn lemma_open_step(
    entry: Seq<Seq<char>>,
    g: Seq<Seq<char>>,
    x: int,
    y: int,
    nx: int,
    ny: int,
    wx: int,
    wy: int,
)
    requires
        carve_frame(g),
        grows(entry, g),
        entry.len() > 0,
        width_of(entry) == width_of(g),
        connected_from_start(g),
        is_chamber(width_of(g), g.len() as int, x, y),
        is_chamber(width_of(g), g.len() as int, nx, ny),
        is_open(g, x, y),
        !is_open(g, nx, ny),
        (nx == x && (ny == y + 2 || ny == y - 2)) || (ny == y && (nx == x + 2 || nx == x - 2)),
        wx == (x + nx) / 2,
        wy == (y + ny) / 2,
        passages_ok(g, width_of(g), g.len() as int),
    ensures
        ({
            let g2 = with_cell(with_cell(g, wx, wy, '.'), nx, ny, '.');
            &&& passages_ok(g2, width_of(g), g.len() as int)
            &&& open_cells(g2) == open_cells(g) + 2
            &&& open_chambers(g2, width_of(g), g.len() as int) == open_chambers(
                g,
                width_of(g),
                g.len() as int,
            ) + 1
            &&& carve_frame(g2)
            &&& grows(g, g2)
            &&& grows(entry, g2)
            &&& opens_kept(g, g2)
            &&& connected_from_start(g2)
            &&& is_open(g2, nx, ny)
            &&& width_of(g2) == width_of(g)
            &&& grid_walls(g2) < grid_walls(g)
        }),
{
    let w = width_of(g);
    let h = g.len() as int;
    let g1 = with_cell(g, wx, wy, '.');
    let g2 = with_cell(g1, nx, ny, '.');
    assert(g[wy].len() == w);
    assert(g[ny].len() == w);
    assert(g[0].len() == w);
    assert(is_passage(w, h, wx, wy));
    assert(g1[ny][nx] == '#');
    assert(g1[0].len() == w);
    assert(well_shaped(g2, w, h)) by {
        assert forall|yy: int| 0 <= yy < h implies #[trigger] g2[yy].len() == w by {
            assert(g[yy].len() == w);
        }
    }
    assert(width_of(g2) == w);
    assert(grows(g, g2)) by {
        assert forall|xx: int, yy: int| in_grid(g, xx, yy) implies (#[trigger] g2[yy][xx] == g[yy][xx]
            || (g[yy][xx] == '#' && g2[yy][xx] == '.' && carvable(width_of(g), g.len() as int, xx, yy))) by {
            if xx == nx && yy == ny {
            } else if xx == wx && yy == wy {
            } else {
            }
        }
    }
    assert forall|xx: int, yy: int| in_grid(g2, xx, yy) implies #[trigger] g2[yy][xx] == '#'
        || g2[yy][xx] == '.' by {
        assert(g[yy].len() == w);
        assert(in_grid(g, xx, yy));
        assert(g2[yy][xx] == g[yy][xx] || g2[yy][xx] == '.');
    }
    lemma_grows_trans(entry, g, g2);
    lemma_grows_keeps_open(g, g2);
    lemma_with_cell_walls(g, wx, wy, '.');
    lemma_with_cell_walls(g1, nx, ny, '.');
    assert(is_open(g2, wx, wy));
    assert(is_open(g2, nx, ny));
    assert(!is_chamber(w, h, wx, wy));
    // the passage was still a wall: an open passage has both its chambers open
    assert(g[wy][wx] == '#') by {
        if is_open(g, wx, wy) {
            assert(is_open(g, x, y));
        }
    }
    lemma_counts_set(g, w, h, wx, wy, '.');
    lemma_counts_set(g1, w, h, nx, ny, '.');
    assert(passages_ok(g2, w, h)) by {
        assert forall|a: int, b: int| #[trigger] is_open(g2, a, b) && !is_chamber(w, h, a, b) implies {
            ||| is_chamber(w, h, a - 1, b) && is_chamber(w, h, a + 1, b) && is_open(g2, a - 1, b)
                && is_open(g2, a + 1, b)
            ||| is_chamber(w, h, a, b - 1) && is_chamber(w, h, a, b + 1) && is_open(g2, a, b - 1)
                && is_open(g2, a, b + 1)
        } by {
            assert(g[b].len() == w);
            if a == wx && b == wy {
                assert(is_open(g2, x, y));
            } else {
                assert(is_open(g, a, b));
                assert(opens_kept(g, g2));
                assert(is_open(g, a - 1, b) ==> is_open(g2, a - 1, b));
                assert(is_open(g, a + 1, b) ==> is_open(g2, a + 1, b));
                assert(is_open(g, a, b - 1) ==> is_open(g2, a, b - 1));
                assert(is_open(g, a, b + 1) ==> is_open(g2, a, b + 1));
            }
        }
    }
    assert(connected_from_start(g2)) by {
        assert(reachable(g, start_pos(), (x, y)));
        lemma_reachable_mono(g, g2, start_pos(), (x, y));
        lemma_reachable_step(g2, start_pos(), (x, y), (wx, wy));
        lemma_reachable_step(g2, start_pos(), (wx, wy), (nx, ny));
        assert forall|xx: int, yy: int| #[trigger] is_open(g2, xx, yy) implies reachable(
            g2,
            start_pos(),
            (xx, yy),
        ) by {
            if xx == nx && yy == ny {
            } else if xx == wx && yy == wy {
            } else {
                assert(is_open(g, xx, yy));
                lemma_reachable_mono(g, g2, start_pos(), (xx, yy));
            }
        }
    }
}

// ---------------------------------------------------------------------------
// Executable carving
// ---------------------------------------------------------------------------

/// The coordinate `v + d` when it lies strictly between 0 and `size - 1`.
fn shift(v: usize, d: isize, size: usize) -> (r: Option<usize>)
    requires
        v < size,
        d == 2 || d == -2 || d == 0,
    ensures
        match r {
            Some(n) => n == v + d && 0 < n < size - 1,
            None => !(0 < v + d < size - 1),
        },
{
    if d == 2 {
        if size >= 3 && v < size - 3 {
            Some(v + 2)
        } else {
            None
        }
    } else if d == -2 {
        if v > 2 {
            Some(v - 2)
        } else {
            None
        }
    } else {
        if v > 0 && v + 1 < size {
            Some(v)
        } else {
            None
        }
    }
}

/// Depth-first carving from the open chamber `(x, y)`: tries the four
/// neighbouring chambers in a random order and, for each one still walled
/// in, opens the passage to it and carves on from there.
fn carve(maze: &mut Maze, x: usize, y: usize)
    requires
        carve_frame(rows(*old(maze))),
        is_chamber(width_of(rows(*old(maze))), rows(*old(maze)).len() as int, x as int, y as int),
        is_open(rows(*old(maze)), x as int, y as int),
        connected_from_start(rows(*old(maze))),
        passages_ok(rows(*old(maze)), width_of(rows(*old(maze))), rows(*old(maze)).len() as int),
    ensures
        grows(rows(*old(maze)), rows(*final(maze))),
        passages_ok(rows(*final(maze)), width_of(rows(*old(maze))), rows(*old(maze)).len() as int),
        open_cells(rows(*final(maze))) - open_cells(rows(*old(maze))) == 2 * (open_chambers(
            rows(*final(maze)),
            width_of(rows(*old(maze))),
            rows(*old(maze)).len() as int,
        ) - open_chambers(
            rows(*old(maze)),
            width_of(rows(*old(maze))),
            rows(*old(maze)).len() as int,
        )),
        connected_from_start(rows(*final(maze))),
        around_open(
            rows(*final(maze)),
            width_of(rows(*old(maze))),
            rows(*old(maze)).len() as int,
            x as int,
            y as int,
        ),
        new_chambers_done(
            rows(*old(maze)),
            rows(*final(maze)),
            width_of(rows(*old(maze))),
            rows(*old(maze)).len() as int,
        ),
        grid_walls(rows(*final(maze))) <= grid_walls(rows(*old(maze))),
    decreases grid_walls(rows(*old(maze))),
{
    let ghost entry = rows(*maze);
    let ghost w = width_of(entry);
    let ghost h = entry.len() as int;
    let mut directions: Vec<(isize, isize)> = Vec::new();
    directions.push((2, 0));
    directions.push((-2, 0));
    directions.push((0, 2));
    directions.push((0, -2));
    let ghost canon = directions@;
    shuffle(&mut directions);
    proof {
        broadcast use vstd::seq_lib::group_to_multiset_ensures;

        assert(canon.to_multiset().len() == canon.len());
        assert(directions@.to_multiset().len() == directions@.len());
        assert(directions@.len() == 4);
        assert forall|k: int| 0 <= k < 4 implies is_step_dir(#[trigger] directions@[k]) by {
            assert(directions@.contains(directions@[k]));
            assert(directions@.to_multiset().count(directions@[k]) > 0);
            assert(canon.to_multiset().count(directions@[k]) > 0);
            assert(canon.contains(directions@[k]));
            let j = choose|j: int| 0 <= j < canon.len() && canon[j] == directions@[k];
            assert(canon[j] == directions@[k]);
        }
        assert forall|k: int| 0 <= k < 4 implies directions@.contains(#[trigger] canon[k]) by {
            assert(canon.contains(canon[k]));
            assert(canon.to_multiset().count(canon[k]) > 0);
            assert(directions@.to_multiset().count(canon[k]) > 0);
        }
        lemma_grows_refl(entry);
    }
    let width = maze[0].len();
    let height = maze.len();
    let mut i: usize = 0;
    while i < directions.len()
        invariant
            directions@.len() == 4,
            forall|k: int| 0 <= k < 4 ==> is_step_dir(#[trigger] directions@[k]),
            forall|k: int| 0 <= k < 4 ==> directions@.contains(#[trigger] canon[k]),
            canon == seq![(2isize, 0isize), (-2isize, 0isize), (0isize, 2isize), (0isize, -2isize)],
            0 <= i <= 4,
            entry == rows(*old(maze)),
            w == width_of(entry),
            h == entry.len(),
            width == w,
            height == h,
            carve_frame(entry),
            carve_frame(rows(*maze)),
            width_of(rows(*maze)) == w,
            grows(entry, rows(*maze)),
            connected_from_start(rows(*maze)),
            is_chamber(w, h, x as int, y as int),
            is_open(rows(*maze), x as int, y as int),
            new_chambers_done(entry, rows(*maze), w, h),
            grid_walls(rows(*maze)) <= grid_walls(entry),
            passages_ok(rows(*maze), w, h),
            open_cells(rows(*maze)) - open_cells(entry) == 2 * (open_chambers(rows(*maze), w, h)
                - open_chambers(entry, w, h)),
            forall|k: int|
                0 <= k < i ==> dir_done(rows(*maze), w, h, x as int, y as int, #[trigger] directions@[k]),
        decreases 4 - i,
    {
        let ghost pre = rows(*maze);
        let (dx, dy) = directions[i];
        assert(is_step_dir(directions@[i as int]));
        let tx = shift(x, dx, width);
        let ty = shift(y, dy, height);
        if let (Some(nx), Some(ny)) = (tx, ty) {
            assert(pre[ny as int].len() == w);
            if maze[ny][nx] == '#' {
                let wall_x = if nx >= x {
                    x + (nx - x) / 2
                } else {
                    nx + (x - nx) / 2
                };
                let wall_y = if ny >= y {
                    y + (ny - y) / 2
                } else {
                    ny + (y - ny) / 2
                };
                proof {
                    lemma_open_step(
                        entry,
                        pre,
                        x as int,
                        y as int,
                        nx as int,
                        ny as int,
                        wall_x as int,
                        wall_y as int,
                    );
                    assert(pre[wall_y as int].len() == w);
                }
                set_entry(maze, wall_x, wall_y, '.');
                set_entry(maze, nx, ny, '.');
                let ghost mid = rows(*maze);
                carve(maze, nx, ny);
                let ghost post = rows(*maze);
                proof {
                    lemma_grows_trans(entry, mid, post);
                    lemma_grows_frame(mid, post);
                    lemma_grows_keeps_open(mid, post);
                    lemma_grows_keeps_open(pre, mid);
                    assert(mid[0].len() == w);
                    assert(post[0].len() == w);
                    assert forall|k: int|
                        0 <= k <= i implies dir_done(
                        post,
                        w,
                        h,
                        x as int,
                        y as int,
                        #[trigger] directions@[k],
                    ) by {
                        if k < i {
                            assert(dir_done(pre, w, h, x as int, y as int, directions@[k]));
                            let d = directions@[k];
                            if is_chamber(w, h, x + d.0, y + d.1) {
                                assert(is_open(pre, x + d.0, y + d.1));
                                assert(is_open(mid, x + d.0, y + d.1));
                            }
                        } else {
                            assert(is_open(mid, nx as int, ny as int));
                        }
                    }
                    assert forall|xx: int, yy: int|
                        is_chamber(w, h, xx, yy) && !is_open(entry, xx, yy) && #[trigger] is_open(
                            post,
                            xx,
                            yy,
                        ) implies around_open(post, w, h, xx, yy) by {
                        if is_open(pre, xx, yy) {
                            assert(around_open(pre, w, h, xx, yy));
                            assert(is_open(pre, xx + 2, yy) ==> is_open(mid, xx + 2, yy));
                            assert(is_open(pre, xx - 2, yy) ==> is_open(mid, xx - 2, yy));
                            assert(is_open(pre, xx, yy + 2) ==> is_open(mid, xx, yy + 2));
                            assert(is_open(pre, xx, yy - 2) ==> is_open(mid, xx, yy - 2));
                        } else if xx == nx && yy == ny {
                        } else {
                            assert(!is_open(mid, xx, yy));
                        }
                    }
                    assert(is_open(mid, x as int, y as int));
                }
            } else {
                proof {
                    assert(is_open(pre, nx as int, ny as int));
                }
            }
        } else {
            proof {
                let d = directions@[i as int];
                assert(!is_chamber(w, h, x + d.0, y + d.1));
            }
        }
        i += 1;
    }
    proof {
        assert(directions@.contains(canon[0]));
        assert(directions@.contains(canon[1]));
        assert(directions@.contains(canon[2]));
        assert(directions@.contains(canon[3]));
        let k0 = choose|k: int| 0 <= k < 4 && directions@[k] == canon[0];
        let k1 = choose|k: int| 0 <= k < 4 && directions@[k] == canon[1];
        let k2 = choose|k: int| 0 <= k < 4 && directions@[k] == canon[2];
        let k3 = choose|k: int| 0 <= k < 4 && directions@[k] == canon[3];
        assert(dir_done(rows(*maze), w, h, x as int, y as int, directions@[k0]));
        assert(dir_done(rows(*maze), w, h, x as int, y as int, directions@[k1]));
        assert(dir_done(rows(*maze), w, h, x as int, y as int, directions@[k2]));
        assert(dir_done(rows(*maze), w, h, x as int, y as int, directions@[k3]));
    }
}

} // verus!

verus! {

// ---------------------------------------------------------------------------
// From a carved grid to the finished maze
// ---------------------------------------------------------------------------

/// A `w` by `h` grid of walls.
spec fn solid_grid(w: int, h: int) -> Seq<Seq<char>> {
    Seq::new(h as nat, |_y: int| Seq::new(w as nat, |_x: int| '#'))
}

/// Carving is done: each open chamber has its neighbouring chambers open.
spec fn chambers_closed_under_neighbours(g: Seq<Seq<char>>, w: int, h: int) -> bool {
    forall|x: int, y: int|
        is_chamber(w, h, x, y) && #[trigger] is_open(g, x, y) ==> around_open(g, w, h, x, y)
}

proof fn lemma_chamber_open(g: Seq<Seq<char>>, w: int, h: int, x: int, y: int)
    requires
        chambers_closed_under_neighbours(g, w, h),
        is_open(g, 1, 1),
        is_chamber(w, h, x, y),
    ensures
        is_open(g, x, y),
    decreases x + y,
{
    if x == 1 && y == 1 {
    } else if x > 1 {
        lemma_chamber_open(g, w, h, x - 2, y);
        assert(around_open(g, w, h, x - 2, y));
    } else {
        lemma_chamber_open(g, w, h, x, y - 2);
        assert(around_open(g, w, h, x, y - 2));
    }
}

/// The whole grid is carved once carving is closed under neighbours: the
/// chambers form one connected lattice.
proof fn lemma_all_chambers_open(g: Seq<Seq<char>>, w: int, h: int)
    requires
        chambers_closed_under_neighbours(g, w, h),
        is_open(g, 1, 1),
    ensures
        forall|x: int, y: int| #[trigger] is_chamber(w, h, x, y) ==> is_open(g, x, y),
{
    assert forall|x: int, y: int| #[trigger] is_chamber(w, h, x, y) implies is_open(g, x, y) by {
        lemma_chamber_open(g, w, h, x, y);
    }
}

/// The grid before carving starts: all wall but the start chamber.
proof fn lemma_initial_grid(w: int, h: int)
    requires
        w >= 3 && w % 2 == 1,
        h >= 3 && h % 2 == 1,
    ensures
        ({
            let g0 = with_cell(solid_grid(w, h), 1, 1, '.');
            &&& carve_frame(g0)
            &&& width_of(g0) == w
            &&& g0.len() == h
            &&& connected_from_start(g0)
            &&& is_open(g0, 1, 1)
            &&& is_chamber(w, h, 1, 1)
            &&& forall|x: int, y: int| #[trigger] is_open(g0, x, y) ==> x == 1 && y == 1
            &&& forall|x: int, y: int|
                #![trigger g0[y][x]]
                in_grid(g0, x, y) && (x, y) != start_pos() ==> g0[y][x] == '#'
        }),
{
    let s = solid_grid(w, h);
    let g0 = with_cell(s, 1, 1, '.');
    assert(s[1].len() == w);
    assert(g0[0].len() == w);
    assert forall|y: int| 0 <= y < h implies #[trigger] g0[y].len() == w by {
        assert(s[y].len() == w);
    }
    assert forall|x: int, y: int| #[trigger] is_open(g0, x, y) implies x == 1 && y == 1 by {
        if !(x == 1 && y == 1) {
            assert(s[y].len() == w);
            assert(s[y][x] == '#');
        }
    }
    assert forall|x: int, y: int| in_grid(g0, x, y) && (x, y) != start_pos() implies #[trigger] g0[y][x]
        == '#' by {
        assert(s[y].len() == w);
    }
    assert forall|x: int, y: int| in_grid(g0, x, y) implies #[trigger] g0[y][x] == '#' || g0[y][x]
        == '.' by {
        assert(s[y].len() == w);
    }
    lemma_reachable_refl(g0, start_pos());
}

/// After carving from the start and writing the two marks, the grid is a
/// generated maze.
proof fn lemma_finished_maze(g0: Seq<Seq<char>>, g1: Seq<Seq<char>>, w: int, h: int)
    requires
        w >= 3 && w % 2 == 1,
        h >= 3 && h % 2 == 1,
        g0 == with_cell(solid_grid(w, h), 1, 1, '.'),
        grows(g0, g1),
        carve_frame(g1),
        connected_from_start(g1),
        around_open(g1, w, h, 1, 1),
        new_chambers_done(g0, g1, w, h),
        open_cells(g1) - open_cells(g0) == 2 * (open_chambers(g1, w, h) - open_chambers(g0, w, h)),
    ensures
        ({
            let g3 = with_cell(with_cell(g1, 1, 1, 's'), w - 2, h - 2, 'f');
            &&& is_generated_maze(g3, w, h)
            &&& reachable(g3, start_pos(), finish_pos(w, h))
        }),
{
    lemma_initial_grid(w, h);
    assert(width_of(g0) == w);
    assert(g1[0].len() == w);
    assert(chambers_closed_under_neighbours(g1, w, h)) by {
        assert forall|x: int, y: int| is_chamber(w, h, x, y) && #[trigger] is_open(g1, x, y) implies around_open(
            g1,
            w,
            h,
            x,
            y,
        ) by {
            if !(x == 1 && y == 1) {
                assert(!is_open(g0, x, y));
            }
        }
    }
    lemma_grows_keeps_open(g0, g1);
    assert(is_open(g1, 1, 1));
    lemma_all_chambers_open(g1, w, h);
    let g2 = with_cell(g1, 1, 1, 's');
    let g3 = with_cell(g2, w - 2, h - 2, 'f');
    assert(is_chamber(w, h, w - 2, h - 2));
    assert(is_open(g1, w - 2, h - 2));
    assert(g1[1].len() == w);
    assert(g1[h - 2].len() == w);
    assert(g2[h - 2].len() == w);
    assert(well_shaped(g3, w, h)) by {
        assert forall|y: int| 0 <= y < h implies #[trigger] g3[y].len() == w by {
            assert(g1[y].len() == w);
        }
    }
    // the two marked cells were open, so the open cells are the same
    assert(opens_kept(g1, g3)) by {
        assert forall|x: int, y: int| #[trigger] is_open(g1, x, y) implies is_open(g3, x, y) by {
            assert(g1[y].len() == w);
        }
    }
    assert(opens_kept(g3, g1)) by {
        assert forall|x: int, y: int| #[trigger] is_open(g3, x, y) implies is_open(g1, x, y) by {
            assert(g1[y].len() == w);
        }
    }
    assert(connected_from_start(g3)) by {
        assert forall|x: int, y: int| #[trigger] is_open(g3, x, y) implies reachable(
            g3,
            start_pos(),
            (x, y),
        ) by {
            assert(is_open(g1, x, y));
            lemma_reachable_mono(g1, g3, start_pos(), (x, y));
        }
    }
    assert forall|x: int, y: int| in_grid(g3, x, y) && !carvable(w, h, x, y) implies #[trigger] g3[y][x]
        == '#' by {
        assert(g1[y].len() == w);
        assert(in_grid(g0, x, y));
        assert(g1[y][x] == g0[y][x]);
        assert((x, y) != start_pos());
    }
    assert forall|x: int, y: int| in_grid(g3, x, y) && (x, y) != start_pos() && (x, y) != finish_pos(w, h) implies (
    #[trigger] g3[y][x] == '#' || g3[y][x] == '.') by {
        assert(g1[y].len() == w);
    }
    assert forall|x: int, y: int| #[trigger] is_chamber(w, h, x, y) implies is_open(g3, x, y) by {
        assert(is_open(g1, x, y));
    }
    assert(is_open(g3, w - 2, h - 2));
    // counting: 2k - 1 open cells
    lemma_initial_counts(w, h);
    assert(well_shaped(g1, w, h)) by {
        assert forall|y: int| 0 <= y < h implies #[trigger] g1[y].len() == w by {
            assert(g0[y].len() == w);
        }
    }
    lemma_all_chambers_counted(g1, w, h);
    assert(g1[1][1] != '#');
    lemma_counts_set(g1, w, h, 1, 1, 's');
    assert(g2[h - 2][w - 2] != '#');
    lemma_counts_set(g2, w, h, w - 2, h - 2, 'f');
}

/// Builds a maze of about `width` by `height` cells.
///
/// Each side is raised to at least 3 and an even side is lowered by one, so
/// that the cells with two odd coordinates form a lattice of chambers.
/// Starting from the chamber at (1, 1), a randomised depth-first search
/// knocks out walls between neighbouring chambers until every chamber is
/// open and reachable from the start. The start cell (1, 1) is then marked
/// `'s'` and the opposite corner chamber `'f'` (on the smallest maze both
/// are the same cell, which ends up `'f'`).
pub fn create_maze(width: usize, height: usize) -> (maze: Maze)
    ensures
        // each side is the odd one of max(side, 3) - 1 and max(side, 3)
        maze@.len() % 2 == 1,
        maze@.len() >= 3,
        maze@.len() <= if height < 3 {
            3
        } else {
            height as int
        },
        maze@.len() + 1 >= if height < 3 {
            3
        } else {
            height as int
        },
        forall|y: int|
            0 <= y < maze@.len() ==> {
                let n = #[trigger] maze@[y]@.len();
                &&& n % 2 == 1
                &&& n >= 3
                &&& n <= if width < 3 {
                    3
                } else {
                    width as int
                }
                &&& n + 1 >= if width < 3 {
                    3
                } else {
                    width as int
                }
            },
        is_generated_maze(
            rows(maze),
            maze_dimension(width as int),
            maze_dimension(height as int),
        ),
        reachable(
            rows(maze),
            start_pos(),
            finish_pos(maze_dimension(width as int), maze_dimension(height as int)),
        ),
{
    let width = if width < 3 {
        3
    } else {
        width
    };
    let height = if height < 3 {
        3
    } else {
        height
    };
    // The carving needs odd sides.
    let width = if width % 2 == 0 {
        width - 1
    } else {
        width
    };
    let height = if height % 2 == 0 {
        height - 1
    } else {
        height
    };

    let mut maze: Maze = Vec::new();
    let mut j: usize = 0;
    while j < height
        invariant
            j <= height,
            rows(maze) =~= solid_grid(width as int, height as int).take(j as int),
        decreases height - j,
    {
        let mut row: Vec<char> = Vec::new();
        let mut i: usize = 0;
        while i < width
            invariant
                i <= width,
                row@ =~= Seq::new(i as nat, |_x: int| '#'),
            decreases width - i,
        {
            row.push('#');
            i += 1;
        }
        let ghost before = rows(maze);
        maze.push(row);
        proof {
            let s = solid_grid(width as int, height as int);
            assert(s[j as int] =~= row@);
            assert(rows(maze) =~= before.push(row@));
            assert(rows(maze) =~= s.take(j as int + 1));
        }
        j += 1;
    }
    proof {
        assert(rows(maze) =~= solid_grid(width as int, height as int));
        lemma_initial_grid(width as int, height as int);
    }
    let ghost solid = rows(maze);
    set_entry(&mut maze, 1, 1, '.');
    let ghost g0 = rows(maze);
    carve(&mut maze, 1, 1);
    let ghost g1 = rows(maze);
    proof {
        lemma_grows_frame(g0, g1);
        assert(g1[1].len() == width);
        assert(g1[(height - 2) as int].len() == width);
    }
    set_entry(&mut maze, 1, 1, 's');
    set_entry(&mut maze, width - 2, height - 2, 'f');
    proof {
        lemma_finished_maze(g0, g1, width as int, height as int);
        assert forall|y: int| 0 <= y < maze@.len() implies #[trigger] maze@[y]@.len() == width by {
            assert(rows(maze)[y] == maze@[y]@);
        }
    }
    maze
}

} // verus!
