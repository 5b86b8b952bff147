use vstd::prelude::*;

verus! {

/// A maze grid, indexed as `maze[y][x]`: `'#'` is a wall, every other
/// character is floor (`'.'` a plain path, `'s'` the start, `'f'` the finish).
pub type Maze = Vec<Vec<char>>;

/// A grid position `(x, y)` in mathematical integers.
pub type Pos = (int, int);

/// The rows of a maze as mathematical sequences.
pub open spec fn rows(m: Maze) -> Seq<Seq<char>> {
    table(m)
}

/// A vector of rows as a sequence of sequences.
pub open spec fn table<T>(m: Vec<Vec<T>>) -> Seq<Seq<T>> {
    m@.map_values(|r: Vec<T>| r@)
}

/// Whether `(x, y)` names a cell of the grid (rows may differ in length).
pub open spec fn in_grid(g: Seq<Seq<char>>, x: int, y: int) -> bool {
    0 <= y < g.len() && 0 <= x < g[y].len()
}

/// Whether `(x, y)` is a cell of the grid that is not a wall.
pub open spec fn is_open(g: Seq<Seq<char>>, x: int, y: int) -> bool {
    in_grid(g, x, y) && g[y][x] != '#'
}

/// Every row of `g` has length `w`, and there are `h` rows.
pub open spec fn well_shaped<T>(g: Seq<Seq<T>>, w: int, h: int) -> bool {
    &&& g.len() == h
    &&& forall|y: int| 0 <= y < h ==> #[trigger] g[y].len() == w
}

/// Two positions that share a side.
pub open spec fn adjacent(a: Pos, b: Pos) -> bool {
    ||| a.0 == b.0 && (a.1 == b.1 + 1 || b.1 == a.1 + 1)
    ||| a.1 == b.1 && (a.0 == b.0 + 1 || b.0 == a.0 + 1)
}

/// Step `i` of the walk `p` moves to a side neighbour that is open.
pub open spec fn step_ok(g: Seq<Seq<char>>, p: Seq<Pos>, i: int) -> bool {
    adjacent(p[i], p[i + 1]) && is_open(g, p[i + 1].0, p[i + 1].1)
}

/// A non-empty sequence of positions, each one a side neighbour of the one
/// before and open. The first position itself need not be open.
pub open spec fn is_walk(g: Seq<Seq<char>>, p: Seq<Pos>) -> bool {
    &&& p.len() > 0
    &&& forall|i: int| 0 <= i < p.len() - 1 ==> #[trigger] step_ok(g, p, i)
}

/// `p` is a walk from `a` to `b`.
pub open spec fn walk_between(g: Seq<Seq<char>>, p: Seq<Pos>, a: Pos, b: Pos) -> bool {
    is_walk(g, p) && p[0] == a && p.last() == b
}

/// `b` can be reached from `a` by moving through open cells.
pub open spec fn reachable(g: Seq<Seq<char>>, a: Pos, b: Pos) -> bool {
    exists|p: Seq<Pos>| #[trigger] walk_between(g, p, a, b)
}

/// Every cell open in `g0` is open in `g1`.
pub open spec fn opens_kept(g0: Seq<Seq<char>>, g1: Seq<Seq<char>>) -> bool {
    forall|x: int, y: int| #[trigger] is_open(g0, x, y) ==> is_open(g1, x, y)
}

/// A walk stays a walk when one more open neighbour is appended.
pub proof fn lemma_walk_push(g: Seq<Seq<char>>, p: Seq<Pos>, n: Pos)
    requires
        is_walk(g, p),
        adjacent(p.last(), n),
        is_open(g, n.0, n.1),
    ensures
        is_walk(g, p.push(n)),
        p.push(n)[0] == p[0],
        p.push(n).last() == n,
{
    let q = p.push(n);
    assert forall|i: int| 0 <= i < q.len() - 1 implies #[trigger] step_ok(g, q, i) by {
        if i < p.len() - 1 {
            assert(step_ok(g, p, i));
        }
    }
}

/// A walk stays a walk in a grid where no open cell was closed.
pub proof fn lemma_walk_mono(g0: Seq<Seq<char>>, g1: Seq<Seq<char>>, p: Seq<Pos>)
    requires
        is_walk(g0, p),
        opens_kept(g0, g1),
    ensures
        is_walk(g1, p),
{
    assert forall|i: int| 0 <= i < p.len() - 1 implies #[trigger] step_ok(g1, p, i) by {
        assert(step_ok(g0, p, i));
        assert(is_open(g0, p[i + 1].0, p[i + 1].1));
    }
}

/// Reachability survives in a grid where no open cell was closed.
pub proof fn lemma_reachable_mono(g0: Seq<Seq<char>>, g1: Seq<Seq<char>>, a: Pos, b: Pos)
    requires
        reachable(g0, a, b),
        opens_kept(g0, g1),
    ensures
        reachable(g1, a, b),
{
    let p = choose|p: Seq<Pos>| #[trigger] walk_between(g0, p, a, b);
    lemma_walk_mono(g0, g1, p);
    assert(walk_between(g1, p, a, b));
}

/// Reaching `b` and then stepping to an open neighbour `n` reaches `n`.
pub proof fn lemma_reachable_step(g: Seq<Seq<char>>, a: Pos, b: Pos, n: Pos)
    requires
        reachable(g, a, b),
        adjacent(b, n),
        is_open(g, n.0, n.1),
    ensures
        reachable(g, a, n),
{
    let p = choose|p: Seq<Pos>| #[trigger] walk_between(g, p, a, b);
    lemma_walk_push(g, p, n);
    assert(walk_between(g, p.push(n), a, n));
}

/// Every position reaches itself.
pub proof fn lemma_reachable_refl(g: Seq<Seq<char>>, a: Pos)
    ensures
        reachable(g, a, a),
{
    let p = seq![a];
    assert(is_walk(g, p));
    assert(walk_between(g, p, a, a));
}

/// The grid with the cell `(x, y)` replaced by `v`.
pub open spec fn with_cell<T>(g: Seq<Seq<T>>, x: int, y: int, v: T) -> Seq<Seq<T>> {
    g.update(y, g[y].update(x, v))
}

/// 1 for true, 0 for false.
pub open spec fn indicator(b: bool) -> int {
    if b {
        1
    } else {
        0
    }
}

/// The number of items of a row that satisfy `p`.
pub open spec fn row_count<T>(r: Seq<T>, p: spec_fn(T) -> bool) -> nat
    decreases r.len(),
{
    if r.len() == 0 {
        0
    } else {
        row_count(r.drop_last(), p) + if p(r.last()) {
            1nat
        } else {
            0nat
        }
    }
}

/// The number of cells of a grid that satisfy `p`.
pub open spec fn grid_count<T>(g: Seq<Seq<T>>, p: spec_fn(T) -> bool) -> nat
    decreases g.len(),
{
    if g.len() == 0 {
        0
    } else {
        grid_count(g.drop_last(), p) + row_count(g.last(), p)
    }
}

proof fn lemma_row_count_update<T>(r: Seq<T>, j: int, v: T, p: spec_fn(T) -> bool)
    requires
        0 <= j < r.len(),
    ensures
        row_count(r.update(j, v), p) == row_count(r, p) - indicator(p(r[j])) + indicator(p(v)),
    decreases r.len(),
{
    let u = r.update(j, v);
    if j == r.len() - 1 {
        assert(u.drop_last() =~= r.drop_last());
    } else {
        assert(u.drop_last() =~= r.drop_last().update(j, v));
        lemma_row_count_update(r.drop_last(), j, v, p);
    }
}

proof fn lemma_grid_count_update<T>(g: Seq<Seq<T>>, i: int, r: Seq<T>, p: spec_fn(T) -> bool)
    requires
        0 <= i < g.len(),
    ensures
        grid_count(g.update(i, r), p) == grid_count(g, p) - row_count(g[i], p) + row_count(r, p),
    decreases g.len(),
{
    let u = g.update(i, r);
    if i == g.len() - 1 {
        assert(u.drop_last() =~= g.drop_last());
    } else {
        assert(u.drop_last() =~= g.drop_last().update(i, r));
        lemma_grid_count_update(g.drop_last(), i, r, p);
    }
}

/// Replacing one cell changes the count by at most one, as `p` says.
pub proof fn lemma_grid_count_set<T>(g: Seq<Seq<T>>, x: int, y: int, v: T, p: spec_fn(T) -> bool)
    requires
        0 <= y < g.len(),
        0 <= x < g[y].len(),
    ensures
        grid_count(with_cell(g, x, y, v), p) == grid_count(g, p) - indicator(p(g[y][x]))
            + indicator(p(v)),
{
    lemma_row_count_update(g[y], x, v, p);
    lemma_grid_count_update(g, y, g[y].update(x, v), p);
}

/// A `w` by `h` table with `value` in every cell.
pub fn filled_table<T: Copy>(w: usize, h: usize, value: T) -> (t: Vec<Vec<T>>)
    ensures
        well_shaped(table(t), w as int, h as int),
        forall|x: int, y: int|
            #![trigger table(t)[y][x]]
            0 <= y < h && 0 <= x < w ==> table(t)[y][x] == value,
{
    let mut t: Vec<Vec<T>> = Vec::new();
    let mut j: usize = 0;
    while j < h
        invariant
            j <= h,
            table(t).len() == j,
            forall|y: int| 0 <= y < j ==> #[trigger] table(t)[y] =~= Seq::new(w as nat, |_x: int| value),
        decreases h - j,
    {
        let mut row: Vec<T> = Vec::new();
        let mut i: usize = 0;
        while i < w
            invariant
                i <= w,
                row@ =~= Seq::new(i as nat, |_x: int| value),
            decreases w - i,
        {
            row.push(value);
            i += 1;
        }
        let ghost before = table(t);
        t.push(row);
        proof {
            assert forall|y: int| 0 <= y < j + 1 implies #[trigger] table(t)[y] =~= Seq::new(
                w as nat,
                |_x: int| value,
            ) by {
                if y < j {
                    assert(table(t)[y] == before[y]);
                }
            }
        }
        j += 1;
    }
    proof {
        assert forall|y: int| 0 <= y < h implies #[trigger] table(t)[y].len() == w by {
            assert(table(t)[y] =~= Seq::new(w as nat, |_x: int| value));
        }
        assert forall|x: int, y: int| 0 <= y < h && 0 <= x < w implies #[trigger] table(t)[y][x]
            == value by {
            assert(table(t)[y] =~= Seq::new(w as nat, |_x: int| value));
        }
    }
    t
}

/// Replaces the cell `(x, y)` of a table.
pub fn set_entry<T>(t: &mut Vec<Vec<T>>, x: usize, y: usize, value: T)
    requires
        in_table(table(*old(t)), x as int, y as int),
    ensures
        table(*final(t)) == with_cell(table(*old(t)), x as int, y as int, value),
{
    t[y][x] = value;
    proof {
        assert(table(*t) =~= with_cell(table(*old(t)), x as int, y as int, value));
    }
}

/// Whether `(x, y)` names a cell of a table.
pub open spec fn in_table<T>(t: Seq<Seq<T>>, x: int, y: int) -> bool {
    0 <= y < t.len() && 0 <= x < t[y].len()
}

/// Whether the position `(x, y)` exists in the maze and is not a wall.
pub fn cell_is_open(maze: &Maze, x: usize, y: usize) -> (open: bool)
    ensures
        open == is_open(rows(*maze), x as int, y as int),
{
    y < maze.len() && x < maze[y].len() && maze[y][x] != '#'
}

/// `(x, y)` is the first cell holding `target` in row-major order.
pub open spec fn first_in_row_major(g: Seq<Seq<char>>, target: char, x: int, y: int) -> bool {
    &&& in_grid(g, x, y)
    &&& g[y][x] == target
    &&& forall|j: int, i: int|
        #![trigger g[j][i]]
        in_grid(g, i, j) && g[j][i] == target ==> (j > y || (j == y && i >= x))
}

/// The grid holds `target` somewhere.
pub open spec fn contains_char(g: Seq<Seq<char>>, target: char) -> bool {
    exists|x: int, y: int| in_grid(g, x, y) && #[trigger] g[y][x] == target
}

/// The position of the first cell holding `target`, scanning rows top to
/// bottom and each row left to right.
pub fn find_cell(maze: &Maze, target: char) -> (found: Option<(usize, usize)>)
    ensures
        match found {
            Some((x, y)) => first_in_row_major(rows(*maze), target, x as int, y as int),
            None => !contains_char(rows(*maze), target),
        },
{
    let ghost g = rows(*maze);
    let mut y: usize = 0;
    while y < maze.len()
        invariant
            g == rows(*maze),
            y <= maze@.len(),
            forall|j: int, i: int| #![trigger g[j][i]] 0 <= j < y && in_grid(g, i, j) ==> g[j][i] != target,
        decreases maze@.len() - y,
    {
        let row = &maze[y];
        let mut x: usize = 0;
        while x < row.len()
            invariant
                g == rows(*maze),
                y < maze@.len(),
                row@ == g[y as int],
                x <= row@.len(),
                forall|j: int, i: int| #![trigger g[j][i]] 0 <= j < y && in_grid(g, i, j) ==> g[j][i] != target,
                forall|i: int| 0 <= i < x ==> g[y as int][i] != target,
            decreases row@.len() - x,
        {
            if row[x] == target {
                return Some((x, y));
            }
            x += 1;
        }
        y += 1;
    }
    None
}

} // verus!
