use vstd::prelude::*;

use crate::grid::{in_grid, rows, Maze};
use crate::random::shuffle;

verus! {

/// A Skull Kid placed in the maze: the cell it stands in and the order in
/// which it was placed (which staggers its animation).
#[derive(Clone, Copy, Debug, PartialEq, Eq, Structural)]
pub struct SkullKid {
    pub cell_x: usize,
    pub cell_y: usize,
    pub spawn_index: usize,
}

/// The plain path cells (`'.'`) among the first `x` cells of row `y`.
pub open spec fn row_paths(g: Seq<Seq<char>>, y: int, x: int) -> Seq<(usize, usize)>
    decreases x,
{
    if x <= 0 {
        Seq::empty()
    } else if g[y][x - 1] == '.' {
        row_paths(g, y, x - 1).push(((x - 1) as usize, y as usize))
    } else {
        row_paths(g, y, x - 1)
    }
}

/// The plain path cells of the first `y` rows.
pub open spec fn grid_paths(g: Seq<Seq<char>>, y: int) -> Seq<(usize, usize)>
    decreases y,
{
    if y <= 0 {
        Seq::empty()
    } else {
        grid_paths(g, y - 1) + row_paths(g, y - 1, g[y - 1].len() as int)
    }
}

/// Every plain path cell (`'.'`) of the maze in row-major order, as `(x, y)`.
pub open spec fn path_cells(g: Seq<Seq<char>>) -> Seq<(usize, usize)> {
    grid_paths(g, g.len() as int)
}

/// The number of Skull Kids placed: `count`, or fewer when the maze has
/// fewer path cells.
pub open spec fn spawn_count(g: Seq<Seq<char>>, count: int) -> int {
    if count < path_cells(g).len() {
        count
    } else {
        path_cells(g).len() as int
    }
}

spec fn is_path_cell(g: Seq<Seq<char>>, c: (usize, usize)) -> bool {
    in_grid(g, c.0 as int, c.1 as int) && g[c.1 as int][c.0 as int] == '.'
}

/// `a` comes before `b` in row-major order.
spec fn row_major_before(a: (usize, usize), b: (usize, usize)) -> bool {
    a.1 < b.1 || (a.1 == b.1 && a.0 < b.0)
}

/// The path cells of the maze, in row-major order.
fn collect_path_cells(maze: &Maze) -> (cells: Vec<(usize, usize)>)
    ensures
        cells@ == path_cells(rows(*maze)),
        forall|i: int| 0 <= i < cells@.len() ==> is_path_cell(rows(*maze), #[trigger] cells@[i]),
        forall|i: int, j: int|
            0 <= i < j < cells@.len() ==> row_major_before(#[trigger] cells@[i], #[trigger] cells@[j]),
{
    let ghost g = rows(*maze);
    let mut cells: Vec<(usize, usize)> = Vec::new();
    let mut y: usize = 0;
    while y < maze.len()
        invariant
            g == rows(*maze),
            y <= g.len(),
            cells@ == grid_paths(g, y as int),
            forall|i: int| 0 <= i < cells@.len() ==> is_path_cell(g, #[trigger] cells@[i]) && (cells@[i].1 as int) < y,
            forall|i: int, j: int|
                0 <= i < j < cells@.len() ==> row_major_before(#[trigger] cells@[i], #[trigger] cells@[j]),
        decreases g.len() - y,
    {
        let row = &maze[y];
        let ghost start = cells@;
        let mut x: usize = 0;
        proof {
            assert(start + row_paths(g, y as int, 0) =~= start);
        }
        while x < row.len()
            invariant
                g == rows(*maze),
                y < g.len(),
                row@ == g[y as int],
                x <= row@.len(),
                start == grid_paths(g, y as int),
                cells@ == start + row_paths(g, y as int, x as int),
                forall|i: int| 0 <= i < cells@.len() ==> is_path_cell(g, #[trigger] cells@[i]) && ((cells@[i].1 as int) < y || (cells@[i].1 == y && (cells@[i].0 as int) < x)),
                forall|i: int, j: int|
                    0 <= i < j < cells@.len() ==> row_major_before(#[trigger] cells@[i], #[trigger] cells@[j]),
            decreases row@.len() - x,
        {
            if row[x] == '.' {
                cells.push((x, y));
                proof {
                    assert(cells@ =~= start + row_paths(g, y as int, x as int + 1));
                }
            } else {
                proof {
                    assert(row_paths(g, y as int, x as int + 1) == row_paths(g, y as int, x as int));
                }
            }
            x += 1;
        }
        proof {
            assert(grid_paths(g, y as int + 1) =~= start + row_paths(g, y as int, row@.len() as int));
        }
        y += 1;
    }
    proof {
        assert(path_cells(g) == grid_paths(g, g.len() as int));
    }
    cells
}

/// Places up to `count` Skull Kids on distinct plain path cells chosen at
/// random: the path cells are shuffled and the first `count` of them taken.
pub fn spawn_skull_kids(maze: &Maze, count: usize) -> (kids: Vec<SkullKid>)
    ensures
        kids@.len() == spawn_count(rows(*maze), count as int),
        exists|order: Seq<(usize, usize)>|
            #![trigger order.to_multiset()]
            order.to_multiset() == path_cells(rows(*maze)).to_multiset() && kids@.len() <= order.len() && forall|i: int|
                0 <= i < kids@.len() ==> (#[trigger] kids@[i]).cell_x == order[i].0
                    && kids@[i].cell_y == order[i].1,
        forall|i: int|
            0 <= i < kids@.len() ==> (#[trigger] kids@[i]).spawn_index == i && in_grid(
                rows(*maze),
                kids@[i].cell_x as int,
                kids@[i].cell_y as int,
            ) && rows(*maze)[kids@[i].cell_y as int][kids@[i].cell_x as int] == '.',
        forall|i: int, j: int|
            0 <= i < j < kids@.len() ==> ((#[trigger] kids@[i]).cell_x, kids@[i].cell_y) != (
                (#[trigger] kids@[j]).cell_x,
                kids@[j].cell_y,
            ),
{
    let ghost g = rows(*maze);
    let mut cells = collect_path_cells(maze);
    let ghost listed = cells@;
    shuffle(&mut cells);
    let ghost order = cells@;
    proof {
        broadcast use vstd::seq_lib::group_to_multiset_ensures;

        assert(listed.no_duplicates()) by {
            assert forall|i: int, j: int| 0 <= i < listed.len() && 0 <= j < listed.len() && i != j implies listed[i] != listed[j] by {
                if i < j {
                    assert(row_major_before(listed[i], listed[j]));
                } else {
                    assert(row_major_before(listed[j], listed[i]));
                }
            }
        }
        assert(order.len() == listed.len()) by {
            assert(order.to_multiset().len() == order.len());
            assert(listed.to_multiset().len() == listed.len());
        }
        listed.lemma_multiset_has_no_duplicates();
        order.lemma_multiset_has_no_duplicates_conv();
        assert forall|i: int| 0 <= i < order.len() implies is_path_cell(g, #[trigger] order[i]) by {
            assert(order.contains(order[i]));
            assert(order.to_multiset().count(order[i]) > 0);
            assert(listed.contains(order[i]));
            let j = choose|j: int| 0 <= j < listed.len() && listed[j] == order[i];
            assert(is_path_cell(g, listed[j]));
        }
    }
    let total = cells.len();
    let n = if count < total {
        count
    } else {
        total
    };
    let mut kids: Vec<SkullKid> = Vec::new();
    let mut i: usize = 0;
    while i < n
        invariant
            n <= total,
            total == order.len(),
            cells@ == order,
            i <= n,
            kids@.len() == i,
            forall|k: int|
                0 <= k < i ==> (#[trigger] kids@[k]).cell_x == order[k].0 && kids@[k].cell_y
                    == order[k].1 && kids@[k].spawn_index == k,
        decreases n - i,
    {
        let (x, y) = cells[i];
        kids.push(SkullKid { cell_x: x, cell_y: y, spawn_index: i });
        i += 1;
    }
    proof {
        assert forall|k: int| 0 <= k < kids@.len() implies (#[trigger] kids@[k]).spawn_index == k
            && in_grid(g, kids@[k].cell_x as int, kids@[k].cell_y as int)
            && g[kids@[k].cell_y as int][kids@[k].cell_x as int] == '.' by {
            assert(is_path_cell(g, order[k]));
        }
        assert forall|a: int, b: int| 0 <= a < b < kids@.len() implies ((#[trigger] kids@[a]).cell_x, kids@[a].cell_y)
            != ((#[trigger] kids@[b]).cell_x, kids@[b].cell_y) by {
            assert(order[a] != order[b]);
        }
        assert(order.to_multiset() == path_cells(g).to_multiset());
    }
    kids
}

} // verus!
