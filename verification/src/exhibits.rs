use vstd::prelude::*;

use crate::grid::{in_grid, in_table, rows, set_entry, table, with_cell, Maze};

verus! {

/// A wall face: the wall cell `(x, y)` seen from a side; side 0 is seen from
/// the left or right neighbour, side 1 from the cell above or below.
pub type Face = (int, int, int);

/// The scan's `k`-th look from a cell: right, left, down, up, with the side
/// of the face seen.
pub open spec fn scan_dir(k: int) -> (int, int, int) {
    if k == 0 {
        (1, 0, 0)
    } else if k == 1 {
        (-1, 0, 0)
    } else if k == 2 {
        (0, 1, 1)
    } else {
        (0, -1, 1)
    }
}

/// The wall face that the open cell `(x, y)` sees in its `k`-th look, if
/// that neighbour is a wall of the maze.
pub open spec fn face_towards(g: Seq<Seq<char>>, x: int, y: int, k: int) -> Option<Face> {
    let d = scan_dir(k);
    if g[y][x] != '#' && in_grid(g, x + d.0, y + d.1) && g[y + d.1][x + d.0] == '#' {
        Some((x + d.0, y + d.1, d.2))
    } else {
        None
    }
}

/// The faces seen from `(x, y)` in its first `k` looks.
pub open spec fn cell_faces(g: Seq<Seq<char>>, x: int, y: int, k: int) -> Seq<Face>
    decreases k,
{
    if k <= 0 {
        Seq::empty()
    } else {
        let s = cell_faces(g, x, y, k - 1);
        match face_towards(g, x, y, k - 1) {
            Some(f) => s.push(f),
            None => s,
        }
    }
}

/// The faces seen from the first `x` cells of row `y`.
pub open spec fn row_faces(g: Seq<Seq<char>>, y: int, x: int) -> Seq<Face>
    decreases x,
{
    if x <= 0 {
        Seq::empty()
    } else {
        row_faces(g, y, x - 1) + cell_faces(g, x - 1, y, 4)
    }
}

/// The faces seen from the cells of the first `y` rows.
pub open spec fn grid_faces(g: Seq<Seq<char>>, y: int) -> Seq<Face>
    decreases y,
{
    if y <= 0 {
        Seq::empty()
    } else {
        grid_faces(g, y - 1) + row_faces(g, y - 1, g[y - 1].len() as int)
    }
}

/// Every wall face next to an open cell, in the order that a scan of the
/// maze meets them: rows top to bottom, cells left to right, and from each
/// open cell the looks right, left, down, up. A face may be met twice.
pub open spec fn scan_faces(g: Seq<Seq<char>>) -> Seq<Face> {
    grid_faces(g, g.len() as int)
}

/// The items of `s` in the order of their first occurrence, each once.
pub open spec fn first_seen<A>(s: Seq<A>) -> Seq<A>
    decreases s.len(),
{
    if s.len() == 0 {
        s
    } else {
        let d = first_seen(s.drop_last());
        if d.contains(s.last()) {
            d
        } else {
            d.push(s.last())
        }
    }
}

/// The exhibit of each wall face: the faces are dealt the `n` artworks in
/// turn, in the order that the scan first meets them.
pub open spec fn exhibit_assignment(g: Seq<Seq<char>>, n: int) -> Map<Face, int> {
    let order = first_seen(scan_faces(g));
    Map::new(|f: Face| order.contains(f), |f: Face| order.index_of(f) % n)
}

/// Which artwork hangs on which wall face.
pub struct ExhibitMap {
    side_x: Vec<Vec<Option<usize>>>,
    side_y: Vec<Vec<Option<usize>>>,
}

spec fn slot(m: ExhibitMap, f: Face) -> Option<usize> {
    let t = if f.2 == 0 {
        table(m.side_x)
    } else {
        table(m.side_y)
    };
    if (f.2 == 0 || f.2 == 1) && in_table(t, f.0, f.1) {
        t[f.1][f.0]
    } else {
        None
    }
}

impl View for ExhibitMap {
    type V = Map<Face, int>;

    closed spec fn view(&self) -> Map<Face, int> {
        Map::new(|f: Face| slot(*self, f) is Some, |f: Face| slot(*self, f)->0 as int)
    }
}

impl ExhibitMap {
    /// The artwork on the face of the wall cell `(x, y)` seen from `side`.
    pub fn get(&self, x: usize, y: usize, side: usize) -> (r: Option<usize>)
        ensures
            r matches Some(v) ==> self@.contains_key((x as int, y as int, side as int)) && self@[(
                x as int,
                y as int,
                side as int,
            )] == v,
            r is None ==> !self@.contains_key((x as int, y as int, side as int)),
    {
        let t = if side == 0 {
            &self.side_x
        } else if side == 1 {
            &self.side_y
        } else {
            return None;
        };
        if y < t.len() && x < t[y].len() {
            t[y][x]
        } else {
            None
        }
    }
}

// ---------------------------------------------------------------------------
// Proofs about the scan
// ---------------------------------------------------------------------------

proof fn lemma_first_seen_push<A>(s: Seq<A>, a: A)
    ensures
        first_seen(s.push(a)) == if first_seen(s).contains(a) {
            first_seen(s)
        } else {
            first_seen(s).push(a)
        },
{
    assert(s.push(a).drop_last() =~= s);
}

proof fn lemma_push_contains<A>(d: Seq<A>, a: A, b: A)
    ensures
        d.push(a).contains(b) <==> (d.contains(b) || b == a),
{
    if d.push(a).contains(b) {
        let i = choose|i: int| 0 <= i < d.push(a).len() && d.push(a)[i] == b;
        if i < d.len() {
            assert(d[i] == b);
        }
    }
    if d.contains(b) {
        let i = choose|i: int| 0 <= i < d.len() && d[i] == b;
        assert(d.push(a)[i] == b);
    }
    if b == a {
        assert(d.push(a)[d.len() as int] == b);
    }
}

proof fn lemma_first_seen_props<A>(s: Seq<A>)
    ensures
        first_seen(s).no_duplicates(),
        first_seen(s).len() <= s.len(),
        forall|a: A| first_seen(s).contains(a) <==> s.contains(a),
    decreases s.len(),
{
    if s.len() > 0 {
        let t = s.drop_last();
        lemma_first_seen_props(t);
        let d = first_seen(t);
        let fs = first_seen(s);
        assert forall|a: A| fs.contains(a) <==> s.contains(a) by {
            lemma_push_contains(t, s.last(), a);
            assert(s =~= t.push(s.last()));
            lemma_push_contains(d, s.last(), a);
            assert(d.contains(a) <==> t.contains(a));
        }
        if !d.contains(s.last()) {
            assert forall|i: int, j: int| 0 <= i < fs.len() && 0 <= j < fs.len() && i != j implies fs[i] != fs[j] by {
                if i < d.len() && j < d.len() {
                } else if i < d.len() {
                    assert(d[i] == fs[i]);
                } else {
                    assert(d[j] == fs[j]);
                }
            }
        }
    }
}

proof fn lemma_cell_faces_wall(g: Seq<Seq<char>>, x: int, y: int, k: int)
    requires
        g[y][x] == '#',
    ensures
        cell_faces(g, x, y, k) == Seq::<Face>::empty(),
    decreases k,
{
    if k > 0 {
        lemma_cell_faces_wall(g, x, y, k - 1);
    }
}

proof fn lemma_cell_mono(g: Seq<Seq<char>>, x: int, y: int, k1: int, k2: int)
    requires
        0 <= k1 <= k2,
    ensures
        cell_faces(g, x, y, k1).len() <= cell_faces(g, x, y, k2).len(),
    decreases k2 - k1,
{
    if k1 < k2 {
        lemma_cell_mono(g, x, y, k1, k2 - 1);
    }
}

proof fn lemma_row_mono(g: Seq<Seq<char>>, y: int, x1: int, x2: int)
    requires
        0 <= x1 <= x2,
    ensures
        row_faces(g, y, x1).len() <= row_faces(g, y, x2).len(),
    decreases x2 - x1,
{
    if x1 < x2 {
        lemma_row_mono(g, y, x1, x2 - 1);
    }
}

proof fn lemma_grid_mono(g: Seq<Seq<char>>, y1: int, y2: int)
    requires
        0 <= y1 <= y2,
    ensures
        grid_faces(g, y1).len() <= grid_faces(g, y2).len(),
    decreases y2 - y1,
{
    if y1 < y2 {
        lemma_grid_mono(g, y1, y2 - 1);
    }
}

/// The part of the scan up to look `k` of cell `(x, y)` is no longer than
/// the whole scan.
proof fn lemma_scan_prefix_len(g: Seq<Seq<char>>, y: int, x: int, k: int)
    requires
        0 <= y < g.len(),
        0 <= x < g[y].len(),
        0 <= k <= 4,
    ensures
        (grid_faces(g, y) + row_faces(g, y, x) + cell_faces(g, x, y, k)).len() <= scan_faces(g).len(),
{
    lemma_cell_mono(g, x, y, k, 4);
    lemma_row_mono(g, y, x + 1, g[y].len() as int);
    lemma_grid_mono(g, y + 1, g.len() as int);
}

/// A face that the scan meets is a wall cell of the maze, side 0 or 1.
spec fn valid_face(g: Seq<Seq<char>>, f: Face) -> bool {
    in_grid(g, f.0, f.1) && g[f.1][f.0] == '#' && (f.2 == 0 || f.2 == 1)
}

spec fn all_valid(g: Seq<Seq<char>>, s: Seq<Face>) -> bool {
    forall|i: int| 0 <= i < s.len() ==> #[trigger] valid_face(g, s[i])
}

/// The map recorded in the two tables is the assignment for the faces in
/// `seen`, and `next` counts the distinct faces among them.
spec fn tables_hold(
    g: Seq<Seq<char>>,
    n: int,
    sx: Seq<Seq<Option<usize>>>,
    sy: Seq<Seq<Option<usize>>>,
    seen: Seq<Face>,
    next: int,
) -> bool {
    let order = first_seen(seen);
    &&& sx.len() == g.len()
    &&& sy.len() == g.len()
    &&& forall|j: int| 0 <= j < g.len() ==> #[trigger] sx[j].len() == g[j].len()
    &&& forall|j: int| 0 <= j < g.len() ==> #[trigger] sy[j].len() == g[j].len()
    &&& all_valid(g, seen)
    &&& next == order.len()
    &&& forall|x: int, y: int|
        #![trigger sx[y][x]]
        in_grid(g, x, y) ==> sx[y][x] == if order.contains((x, y, 0)) {
            Some((order.index_of((x, y, 0)) % n) as usize)
        } else {
            None::<usize>
        }
    &&& forall|x: int, y: int|
        #![trigger sy[y][x]]
        in_grid(g, x, y) ==> sy[y][x] == if order.contains((x, y, 1)) {
            Some((order.index_of((x, y, 1)) % n) as usize)
        } else {
            None::<usize>
        }
}

proof fn lemma_index_of_push<A>(d: Seq<A>, a: A, b: A)
    requires
        d.no_duplicates(),
        !d.contains(a),
        d.push(a).contains(b),
    ensures
        d.push(a).index_of(b) == if b == a {
            d.len() as int
        } else {
            d.index_of(b)
        },
{
    let e = d.push(a);
    let i = e.index_of(b);
    assert(0 <= i < e.len() && e[i] == b);
    if b == a {
        if i < d.len() {
            assert(d[i] == a);
        }
    } else {
        assert(i < d.len());
        assert(d.contains(b));
        let j = d.index_of(b);
        assert(d[j] == b);
        assert(d[i] == b);
    }
}

/// Giving a face not met before the next artwork keeps the tables right.
proof fn lemma_assign_step(
    g: Seq<Seq<char>>,
    n: int,
    sx: Seq<Seq<Option<usize>>>,
    sy: Seq<Seq<Option<usize>>>,
    seen: Seq<Face>,
    next: int,
    face: Face,
    value: usize,
    sx2: Seq<Seq<Option<usize>>>,
    sy2: Seq<Seq<Option<usize>>>,
)
    requires
        tables_hold(g, n, sx, sy, seen, next),
        valid_face(g, face),
        !first_seen(seen).contains(face),
        n > 0,
        value == next % n,
        face.2 == 0 ==> sx2 == with_cell(sx, face.0, face.1, Some(value)) && sy2 == sy,
        face.2 == 1 ==> sy2 == with_cell(sy, face.0, face.1, Some(value)) && sx2 == sx,
    ensures
        tables_hold(g, n, sx2, sy2, seen.push(face), next + 1),
{
    let order = first_seen(seen);
    let order2 = order.push(face);
    lemma_first_seen_push(seen, face);
    lemma_first_seen_props(seen);
    assert(first_seen(seen.push(face)) == order2);
    assert(sx[face.1].len() == g[face.1].len());
    assert(sy[face.1].len() == g[face.1].len());
    assert forall|j: int| 0 <= j < g.len() implies #[trigger] sx2[j].len() == g[j].len() by {
        assert(sx[j].len() == g[j].len());
    }
    assert forall|j: int| 0 <= j < g.len() implies #[trigger] sy2[j].len() == g[j].len() by {
        assert(sy[j].len() == g[j].len());
    }
    assert forall|a: int, b: int| #![trigger sx2[b][a]] in_grid(g, a, b) implies sx2[b][a] == if order2.contains((a, b, 0)) {
        Some((order2.index_of((a, b, 0)) % n) as usize)
    } else {
        None::<usize>
    } by {
        let t: Face = (a, b, 0);
        assert(sx[b].len() == g[b].len());
        assert(sx[b][a] == if order.contains(t) {
            Some((order.index_of(t) % n) as usize)
        } else {
            None::<usize>
        });
        lemma_push_contains(order, face, t);
        if order2.contains(t) {
            lemma_index_of_push(order, face, t);
        }
    }
    assert forall|a: int, b: int| #![trigger sy2[b][a]] in_grid(g, a, b) implies sy2[b][a] == if order2.contains((a, b, 1)) {
        Some((order2.index_of((a, b, 1)) % n) as usize)
    } else {
        None::<usize>
    } by {
        let t: Face = (a, b, 1);
        assert(sy[b].len() == g[b].len());
        assert(sy[b][a] == if order.contains(t) {
            Some((order.index_of(t) % n) as usize)
        } else {
            None::<usize>
        });
        lemma_push_contains(order, face, t);
        if order2.contains(t) {
            lemma_index_of_push(order, face, t);
        }
    }
    let s2 = seen.push(face);
    assert forall|i: int| 0 <= i < s2.len() implies #[trigger] valid_face(g, s2[i]) by {
        if i < seen.len() {
            assert(s2[i] == seen[i]);
        }
    }
}

// ---------------------------------------------------------------------------
// Executable assignment
// ---------------------------------------------------------------------------

/// A table of empty slots with the shape of the maze.
fn blank_like(maze: &Maze) -> (t: Vec<Vec<Option<usize>>>)
    ensures
        table(t).len() == rows(*maze).len(),
        forall|j: int| 0 <= j < rows(*maze).len() ==> #[trigger] table(t)[j].len() == rows(*maze)[j].len(),
        forall|x: int, y: int| #![trigger table(t)[y][x]] in_grid(rows(*maze), x, y) ==> table(t)[y][x] is None,
{
    let mut t: Vec<Vec<Option<usize>>> = Vec::new();
    let mut j: usize = 0;
    while j < maze.len()
        invariant
            j <= maze@.len(),
            table(t).len() == j,
            forall|y: int| 0 <= y < j ==> #[trigger] table(t)[y] =~= Seq::new(rows(*maze)[y].len(), |_x: int| None::<usize>),
        decreases maze@.len() - j,
    {
        let n = maze[j].len();
        let mut row: Vec<Option<usize>> = Vec::new();
        let mut i: usize = 0;
        while i < n
            invariant
                i <= n,
                row@ =~= Seq::new(i as nat, |_x: int| None::<usize>),
            decreases n - i,
        {
            row.push(None);
            i += 1;
        }
        let ghost before = table(t);
        t.push(row);
        proof {
            assert forall|y: int| 0 <= y < j + 1 implies #[trigger] table(t)[y] =~= Seq::new(rows(*maze)[y].len(), |_x: int| None::<usize>) by {
                if y < j {
                    assert(table(t)[y] == before[y]);
                }
            }
        }
        j += 1;
    }
    proof {
        assert forall|y: int| 0 <= y < rows(*maze).len() implies #[trigger] table(t)[y].len() == rows(*maze)[y].len() by {
            assert(table(t)[y] =~= Seq::new(rows(*maze)[y].len(), |_x: int| None::<usize>));
        }
        assert forall|x: int, y: int| in_grid(rows(*maze), x, y) implies #[trigger] table(t)[y][x] is None by {
            assert(table(t)[y] =~= Seq::new(rows(*maze)[y].len(), |_x: int| None::<usize>));
        }
    }
    t
}

/// The face that the open cell `(x, y)` sees in its `k`-th look, if that
/// neighbour is a wall of the maze.
fn look(maze: &Maze, x: usize, y: usize, k: usize) -> (r: Option<(usize, usize, usize)>)
    requires
        in_grid(rows(*maze), x as int, y as int),
        rows(*maze)[y as int][x as int] != '#',
        k < 4,
    ensures
        match r {
            Some(f) => face_towards(rows(*maze), x as int, y as int, k as int) == Some(
                (f.0 as int, f.1 as int, f.2 as int),
            ),
            None => face_towards(rows(*maze), x as int, y as int, k as int) is None,
        },
{
    let row_len = maze[y].len();
    let height = maze.len();
    assert(rows(*maze)[y as int] == maze@[y as int]@);
    let (fx, fy, side) = if k == 0 {
        (Some(x + 1), Some(y), 0)
    } else if k == 1 {
        (if x > 0 {
            Some(x - 1)
        } else {
            None
        }, Some(y), 0)
    } else if k == 2 {
        (Some(x), Some(y + 1), 1)
    } else {
        (Some(x), if y > 0 {
            Some(y - 1)
        } else {
            None
        }, 1)
    };
    match (fx, fy) {
        (Some(fx), Some(fy)) => {
            if fy < maze.len() && fx < maze[fy].len() && maze[fy][fx] == '#' {
                Some((fx, fy, side))
            } else {
                None
            }
        },
        _ => None,
    }
}

/// Hangs the museum's artworks on the walls: every wall face next to an
/// open cell gets an artwork, the faces taking the artworks
/// `0, 1, ..., artwork_count - 1, 0, 1, ...` in the order that a scan of the
/// maze first meets them (rows top to bottom, cells left to right, and from
/// each open cell the looks right, left, down, up).
pub fn assign_exhibits(maze: &Maze, artwork_count: usize) -> (assignments: ExhibitMap)
    requires
        artwork_count > 0 || scan_faces(rows(*maze)).len() == 0,
        scan_faces(rows(*maze)).len() < usize::MAX,
    ensures
        assignments@ == exhibit_assignment(rows(*maze), artwork_count as int),
{
    let ghost g = rows(*maze);
    let ghost n = artwork_count as int;
    let mut side_x = blank_like(maze);
    let mut side_y = blank_like(maze);
    let mut next: usize = 0;
    proof {
        lemma_first_seen_props(scan_faces(g));
    }
    let mut y: usize = 0;
    while y < maze.len()
        invariant
            g == rows(*maze),
            n == artwork_count,
            artwork_count > 0 || scan_faces(g).len() == 0,
            first_seen(scan_faces(g)).len() <= scan_faces(g).len() < usize::MAX,
            y <= g.len(),
            tables_hold(g, n, table(side_x), table(side_y), grid_faces(g, y as int), next as int),
        decreases g.len() - y,
    {
        let row_len = maze[y].len();
        let mut x: usize = 0;
        while x < row_len
            invariant
                g == rows(*maze),
                n == artwork_count,
                artwork_count > 0 || scan_faces(g).len() == 0,
                first_seen(scan_faces(g)).len() <= scan_faces(g).len() < usize::MAX,
                y < g.len(),
                row_len == g[y as int].len(),
                x <= row_len,
                tables_hold(
                    g,
                    n,
                    table(side_x),
                    table(side_y),
                    grid_faces(g, y as int) + row_faces(g, y as int, x as int),
                    next as int,
                ),
            decreases row_len - x,
        {
            let ghost before = grid_faces(g, y as int) + row_faces(g, y as int, x as int);
            if maze[y][x] != '#' {
                let mut k: usize = 0;
                while k < 4
                    invariant
                        g == rows(*maze),
                        n == artwork_count,
                        artwork_count > 0 || scan_faces(g).len() == 0,
                        first_seen(scan_faces(g)).len() <= scan_faces(g).len() < usize::MAX,
                        y < g.len(),
                        x < g[y as int].len(),
                        g[y as int][x as int] != '#',
                        before == grid_faces(g, y as int) + row_faces(g, y as int, x as int),
                        k <= 4,
                        tables_hold(
                            g,
                            n,
                            table(side_x),
                            table(side_y),
                            before + cell_faces(g, x as int, y as int, k as int),
                            next as int,
                        ),
                    decreases 4 - k,
                {
                    let ghost seen = before + cell_faces(g, x as int, y as int, k as int);
                    let ghost seen2 = before + cell_faces(g, x as int, y as int, k as int + 1);
                    let ghost order = first_seen(seen);
                    let ghost sx = table(side_x);
                    let ghost sy = table(side_y);
                    if let Some((fx, fy, side)) = look(maze, x, y, k) {
                        let ghost face: Face = (fx as int, fy as int, side as int);
                        proof {
                            assert(seen2 =~= seen.push(face));
                            lemma_first_seen_push(seen, face);
                            assert(sx[fy as int].len() == g[fy as int].len());
                            assert(sy[fy as int].len() == g[fy as int].len());
                            assert(valid_face(g, face));
                        }
                        let taken = if side == 0 {
                            side_x[fy][fx].is_some()
                        } else {
                            side_y[fy][fx].is_some()
                        };
                        if !taken {
                            proof {
                                assert(!order.contains(face));
                                lemma_scan_prefix_len(g, y as int, x as int, k as int + 1);
                                assert(seen2 == grid_faces(g, y as int) + row_faces(g, y as int, x as int) + cell_faces(g, x as int, y as int, k as int + 1));
                                assert(seen2.len() <= scan_faces(g).len());
                                assert(artwork_count > 0);
                                lemma_first_seen_props(seen2);
                                assert(first_seen(seen2) == order.push(face));
                            }
                            let value = next % artwork_count;
                            if side == 0 {
                                set_entry(&mut side_x, fx, fy, Some(value));
                            } else {
                                set_entry(&mut side_y, fx, fy, Some(value));
                            }
                            proof {
                                lemma_assign_step(g, n, sx, sy, seen, next as int, face, value, table(side_x), table(side_y));
                            }
                            next += 1;
                        } else {
                            proof {
                                assert(order.contains(face));
                                assert(all_valid(g, seen2)) by {
                                    assert forall|i: int| 0 <= i < seen2.len() implies #[trigger] valid_face(g, seen2[i]) by {
                                        if i < seen.len() {
                                            assert(seen2[i] == seen[i]);
                                        }
                                    }
                                }
                            }
                        }
                    } else {
                        proof {
                            assert(seen2 =~= seen);
                        }
                    }
                    k += 1;
                }
                proof {
                    assert(before + cell_faces(g, x as int, y as int, 4) =~= grid_faces(g, y as int)
                        + row_faces(g, y as int, x as int + 1));
                }
            } else {
                proof {
                    lemma_cell_faces_wall(g, x as int, y as int, 4);
                    assert(before =~= grid_faces(g, y as int) + row_faces(g, y as int, x as int + 1));
                }
            }
            x += 1;
        }
        proof {
            assert(grid_faces(g, y as int) + row_faces(g, y as int, row_len as int) =~= grid_faces(
                g,
                y as int + 1,
            ));
        }
        y += 1;
    }
    let assignments = ExhibitMap { side_x, side_y };
    proof {
        let order = first_seen(scan_faces(g));
        assert(grid_faces(g, g.len() as int) == scan_faces(g));
        lemma_first_seen_props(scan_faces(g));
        assert forall|f: Face| #[trigger] assignments@.contains_key(f) <==> exhibit_assignment(g, n).contains_key(f) by {
            if order.contains(f) {
                let i = order.index_of(f);
                assert(scan_faces(g).contains(f));
                let j = choose|j: int| 0 <= j < scan_faces(g).len() && scan_faces(g)[j] == f;
                assert(valid_face(g, scan_faces(g)[j]));
            }
        }
        assert(assignments@ =~= exhibit_assignment(g, n));
    }
    assignments
}

} // verus!

verus! {

/// The artworks are dealt round-robin: the `k`-th distinct wall face that
/// the scan meets gets artwork `k % n`, so every assigned artwork is one of
/// `0 .. n`, and each artwork is used once there are at least `n` faces.
pub proof fn lemma_exhibits_round_robin(g: Seq<Seq<char>>, n: int, k: int)
    requires
        n > 0,
        0 <= k < first_seen(scan_faces(g)).len(),
    ensures
        ({
            let order = first_seen(scan_faces(g));
            let m = exhibit_assignment(g, n);
            &&& m.contains_key(order[k])
            &&& m[order[k]] == k % n
            &&& forall|f: Face| #[trigger] m.contains_key(f) ==> 0 <= m[f] < n
        }),
{
    let order = first_seen(scan_faces(g));
    lemma_first_seen_props(scan_faces(g));
    assert(order.contains(order[k]));
    let i = order.index_of(order[k]);
    assert(order[i] == order[k]);
}

} // verus!
