use vstd::prelude::*;

use crate::color::Color;
use crate::framebuffer::Framebuffer;
use crate::grid::{in_grid, rows, Maze};

verus! {

/// The two ways of showing the maze.
#[derive(Clone, Copy, Debug, PartialEq, Eq, Structural)]
pub enum RenderMode {
    TwoD,
    ThreeD,
}

impl RenderMode {
    /// The other mode: what the view switch key selects.
    pub fn toggled(self) -> (m: RenderMode)
        ensures
            m == match self {
                RenderMode::TwoD => RenderMode::ThreeD,
                RenderMode::ThreeD => RenderMode::TwoD,
            },
    {
        match self {
            RenderMode::TwoD => RenderMode::ThreeD,
            RenderMode::ThreeD => RenderMode::TwoD,
        }
    }
}

/// Switching the view twice shows the mode one started with.
pub proof fn lemma_toggle_twice(m: RenderMode)
    ensures
        ({
            let once = match m {
                RenderMode::TwoD => RenderMode::ThreeD,
                RenderMode::ThreeD => RenderMode::TwoD,
            };
            let twice = match once {
                RenderMode::TwoD => RenderMode::ThreeD,
                RenderMode::ThreeD => RenderMode::TwoD,
            };
            twice == m
        }),
{
}

/// The colour that the map view gives a maze cell: walls blue, the start
/// green, the finish red, paths white.
pub open spec fn cell_color(cell: char) -> Color {
    if cell == '#' {
        Color { r: 0, g: 0, b: 255, a: 255 }
    } else if cell == 's' {
        Color { r: 0, g: 128, b: 0, a: 255 }
    } else if cell == 'f' {
        Color { r: 255, g: 0, b: 0, a: 255 }
    } else {
        Color { r: 255, g: 255, b: 255, a: 255 }
    }
}

/// The low 32 bits of a coordinate: the pixel coordinate that a `usize`
/// coordinate becomes when converted with `as u32`.
pub open spec fn low32(v: int) -> int {
    (v as u32) as int
}

/// Some coordinate in `lo .. lo + n` becomes the pixel coordinate `p`.
pub open spec fn covers(lo: int, n: int, p: int) -> bool {
    exists|v: int| lo <= v < lo + n && #[trigger] low32(v) == p
}

proof fn lemma_covers_extend(lo: int, n: int, p: int)
    requires
        n >= 0,
    ensures
        covers(lo, n + 1, p) <==> (covers(lo, n, p) || low32(lo + n) == p),
{
    if covers(lo, n + 1, p) {
        let v = choose|v: int| lo <= v < lo + n + 1 && #[trigger] low32(v) == p;
        if v < lo + n {
            assert(lo <= v < lo + n && low32(v) == p);
        }
    }
    if covers(lo, n, p) {
        let v = choose|v: int| lo <= v < lo + n && #[trigger] low32(v) == p;
        assert(lo <= v < lo + n + 1 && low32(v) == p);
    }
    if low32(lo + n) == p {
        assert(lo <= lo + n < lo + n + 1 && low32(lo + n) == p);
    }
}

/// Fills the `block_size` by `block_size` square at `(xo, yo)` with the
/// colour of `cell`, which stays the current colour. Coordinates are
/// converted to pixels with `as u32`; pixels outside the frame are ignored.
pub fn draw_cell(framebuffer: &mut Framebuffer, xo: usize, yo: usize, block_size: usize, cell: char)
    requires
        xo + block_size <= usize::MAX,
        yo + block_size <= usize::MAX,
    ensures
        final(framebuffer).current() == cell_color(cell),
        final(framebuffer).frame_width() == old(framebuffer).frame_width(),
        final(framebuffer).frame_height() == old(framebuffer).frame_height(),
        final(framebuffer).background() == old(framebuffer).background(),
        forall|a: int, b: int|
            #![trigger final(framebuffer).pixel(a, b)]
            old(framebuffer).in_frame(a, b) ==> final(framebuffer).pixel(a, b) == if covers(
                xo as int,
                block_size as int,
                a,
            ) && covers(yo as int, block_size as int, b) {
                cell_color(cell)
            } else {
                old(framebuffer).pixel(a, b)
            },
{
    let color = if cell == '#' {
        Color::blue()
    } else if cell == 's' {
        Color::green()
    } else if cell == 'f' {
        Color::red()
    } else {
        Color::white()
    };
    framebuffer.set_current_color(color);
    let ghost start = *framebuffer;
    let end_x = xo + block_size;
    let end_y = yo + block_size;
    let mut x = xo;
    while x < end_x
        invariant
            xo <= x <= end_x,
            end_x == xo + block_size,
            end_y == yo + block_size,
            framebuffer.current() == color,
            color == cell_color(cell),
            framebuffer.frame_width() == start.frame_width(),
            framebuffer.frame_height() == start.frame_height(),
            framebuffer.background() == start.background(),
            forall|a: int, b: int|
                #![trigger framebuffer.pixel(a, b)]
                start.in_frame(a, b) ==> framebuffer.pixel(a, b) == if covers(xo as int, x - xo, a)
                    && covers(yo as int, block_size as int, b) {
                    color
                } else {
                    start.pixel(a, b)
                },
        decreases end_x - x,
    {
        let ghost before_column = *framebuffer;
        let mut y = yo;
        while y < end_y
            invariant
                xo <= x < end_x,
                yo <= y <= end_y,
                end_y == yo + block_size,
                framebuffer.current() == color,
                framebuffer.frame_width() == start.frame_width(),
                framebuffer.frame_height() == start.frame_height(),
                framebuffer.background() == start.background(),
                forall|a: int, b: int|
                    #![trigger framebuffer.pixel(a, b)]
                    start.in_frame(a, b) ==> framebuffer.pixel(a, b) == if a == low32(x as int)
                        && covers(yo as int, y - yo, b) {
                        color
                    } else {
                        before_column.pixel(a, b)
                    },
            decreases end_y - y,
        {
            framebuffer.set_pixel(x as u32, y as u32);
            proof {
                assert forall|a: int, b: int| start.in_frame(a, b) implies #[trigger] framebuffer.pixel(a, b) == if a == low32(x as int)
                    && covers(yo as int, y + 1 - yo, b) {
                    color
                } else {
                    before_column.pixel(a, b)
                } by {
                    lemma_covers_extend(yo as int, y - yo, b);
                }
            }
            y += 1;
        }
        proof {
            assert forall|a: int, b: int| start.in_frame(a, b) implies #[trigger] framebuffer.pixel(a, b) == if covers(xo as int, x + 1 - xo, a)
                && covers(yo as int, block_size as int, b) {
                color
            } else {
                start.pixel(a, b)
            } by {
                lemma_covers_extend(xo as int, x - xo, a);
                assert(before_column.pixel(a, b) == framebuffer.pixel(a, b) || a == low32(x as int));
            }
        }
        x += 1;
    }
}

/// Fills the column `column` of the frame for a wall slice `wall_height`
/// pixels tall, centred vertically: ceiling colour above the slice,
/// `wall_color` on it, floor colour below it. The floor colour stays the
/// current colour.
pub fn draw_column(framebuffer: &mut Framebuffer, column: u32, wall_height: usize, wall_color: Color)
    ensures
        final(framebuffer).current() == floor_color(),
        final(framebuffer).frame_width() == old(framebuffer).frame_width(),
        final(framebuffer).frame_height() == old(framebuffer).frame_height(),
        final(framebuffer).background() == old(framebuffer).background(),
        forall|a: int, b: int|
            #![trigger final(framebuffer).pixel(a, b)]
            old(framebuffer).in_frame(a, b) ==> final(framebuffer).pixel(a, b) == if a == column {
                column_color(old(framebuffer).frame_height() as int, wall_height as int, wall_color, b)
            } else {
                old(framebuffer).pixel(a, b)
            },
        // the slice is min(wall_height, h) rows of the wall colour, centred
        forall|b: int|
            #![trigger final(framebuffer).pixel(column as int, b)]
            old(framebuffer).in_frame(column as int, b) ==> ({
                let h = old(framebuffer).frame_height() as int;
                let rows = if (wall_height as int) < h {
                    wall_height as int
                } else {
                    h
                };
                let top = (h - rows) / 2;
                final(framebuffer).pixel(column as int, b) == if b < top {
                    Color { r: 30, g: 30, b: 55, a: 255 }
                } else if b < top + rows {
                    wall_color
                } else {
                    Color { r: 55, g: 45, b: 40, a: 255 }
                }
            }),
{
    proof {
        lemma_column_slice(framebuffer.frame_height() as int, wall_height as int);
    }
    let ghost start = *framebuffer;
    let height = framebuffer.height() as usize;
    let wall_top = height.saturating_sub(wall_height) / 2;
    let wall_bottom = if wall_top + wall_height < height {
        wall_top + wall_height
    } else {
        height
    };
    let ghost h = height as int;
    let ghost wh = wall_height as int;

    framebuffer.set_current_color(Color::new(30, 30, 55, 255));
    let mut y: usize = 0;
    while y < wall_top
        invariant
            y <= wall_top <= wall_bottom <= height,
            height <= u32::MAX,
            height == framebuffer.frame_height(),
            h == height,
            wh == wall_height,
            wall_top == slice_top(h, wh),
            wall_bottom == slice_bottom(h, wh),
            framebuffer.current() == ceiling_color(),
            framebuffer.frame_width() == start.frame_width(),
            framebuffer.frame_height() == start.frame_height(),
            framebuffer.background() == start.background(),
            forall|a: int, b: int|
                #![trigger framebuffer.pixel(a, b)]
                start.in_frame(a, b) ==> framebuffer.pixel(a, b) == if a == column && b < y {
                    column_color(h, wh, wall_color, b)
                } else {
                    start.pixel(a, b)
                },
        decreases wall_top - y,
    {
        framebuffer.set_pixel(column, y as u32);
        y += 1;
    }
    let ghost mid = *framebuffer;
    framebuffer.set_current_color(wall_color);
    proof {
        assert forall|a: int, b: int| start.in_frame(a, b) implies #[trigger] framebuffer.pixel(a, b) == if a == column && b < wall_top {
            column_color(h, wh, wall_color, b)
        } else {
            start.pixel(a, b)
        } by {
            assert(framebuffer.pixel(a, b) == mid.pixel(a, b));
        }
    }
    let mut y: usize = wall_top;
    while y < wall_bottom
        invariant
            wall_top <= y <= wall_bottom <= height,
            height <= u32::MAX,
            height == framebuffer.frame_height(),
            h == height,
            wh == wall_height,
            wall_top == slice_top(h, wh),
            wall_bottom == slice_bottom(h, wh),
            framebuffer.current() == wall_color,
            framebuffer.frame_width() == start.frame_width(),
            framebuffer.frame_height() == start.frame_height(),
            framebuffer.background() == start.background(),
            forall|a: int, b: int|
                #![trigger framebuffer.pixel(a, b)]
                start.in_frame(a, b) ==> framebuffer.pixel(a, b) == if a == column && b < y {
                    column_color(h, wh, wall_color, b)
                } else {
                    start.pixel(a, b)
                },
        decreases wall_bottom - y,
    {
        framebuffer.set_pixel(column, y as u32);
        y += 1;
    }
    let ghost mid = *framebuffer;
    framebuffer.set_current_color(Color::new(55, 45, 40, 255));
    proof {
        assert forall|a: int, b: int| start.in_frame(a, b) implies #[trigger] framebuffer.pixel(a, b) == if a == column && b < wall_bottom {
            column_color(h, wh, wall_color, b)
        } else {
            start.pixel(a, b)
        } by {
            assert(framebuffer.pixel(a, b) == mid.pixel(a, b));
        }
    }
    let mut y: usize = wall_bottom;
    while y < height
        invariant
            wall_bottom <= y <= height,
            height <= u32::MAX,
            height == framebuffer.frame_height(),
            h == height,
            wh == wall_height,
            wall_top == slice_top(h, wh),
            wall_bottom == slice_bottom(h, wh),
            framebuffer.current() == floor_color(),
            framebuffer.frame_width() == start.frame_width(),
            framebuffer.frame_height() == start.frame_height(),
            framebuffer.background() == start.background(),
            forall|a: int, b: int|
                #![trigger framebuffer.pixel(a, b)]
                start.in_frame(a, b) ==> framebuffer.pixel(a, b) == if a == column && b < y {
                    column_color(h, wh, wall_color, b)
                } else {
                    start.pixel(a, b)
                },
        decreases height - y,
    {
        framebuffer.set_pixel(column, y as u32);
        y += 1;
    }
}

/// The colour above the wall slices.
pub open spec fn ceiling_color() -> Color {
    Color { r: 30, g: 30, b: 55, a: 255 }
}

/// The colour below the wall slices.
pub open spec fn floor_color() -> Color {
    Color { r: 55, g: 45, b: 40, a: 255 }
}

/// The first row of a wall slice `wh` pixels tall in a frame `h` pixels
/// tall.
pub open spec fn slice_top(h: int, wh: int) -> int {
    if wh < h {
        (h - wh) / 2
    } else {
        0
    }
}

/// The row just below a wall slice `wh` pixels tall in a frame `h` pixels
/// tall.
pub open spec fn slice_bottom(h: int, wh: int) -> int {
    if slice_top(h, wh) + wh < h {
        slice_top(h, wh) + wh
    } else {
        h
    }
}

/// A wall slice `wh` pixels tall in a frame `h` pixels tall covers
/// `min(wh, h)` rows and is centred: as many rows above it as below it, or
/// one fewer above.
pub proof fn lemma_column_slice(h: int, wh: int)
    requires
        0 <= h,
        0 <= wh,
    ensures
        ({
            let rows = if wh < h {
                wh
            } else {
                h
            };
            &&& slice_bottom(h, wh) - slice_top(h, wh) == rows
            &&& slice_top(h, wh) == (h - rows) / 2
            &&& h - slice_bottom(h, wh) - slice_top(h, wh) == (h - rows) % 2
        }),
{
}

/// The colour of row `b` of a column holding a wall slice.
pub open spec fn column_color(h: int, wh: int, wall: Color, b: int) -> Color {
    if b < slice_top(h, wh) {
        ceiling_color()
    } else if b < slice_bottom(h, wh) {
        wall
    } else {
        floor_color()
    }
}

/// The player's marker on the map: a 9 by 9 square centred on `(px, py)`,
/// in magenta, which stays the current colour. Pixels with a negative
/// coordinate or outside the frame are skipped.
pub fn draw_player_marker(framebuffer: &mut Framebuffer, px: i32, py: i32)
    requires
        i32::MIN + 4 <= px <= i32::MAX - 4,
        i32::MIN + 4 <= py <= i32::MAX - 4,
    ensures
        final(framebuffer).current() == (Color { r: 255, g: 0, b: 255, a: 255 }),
        final(framebuffer).frame_width() == old(framebuffer).frame_width(),
        final(framebuffer).frame_height() == old(framebuffer).frame_height(),
        final(framebuffer).background() == old(framebuffer).background(),
        forall|a: int, b: int|
            #![trigger final(framebuffer).pixel(a, b)]
            old(framebuffer).in_frame(a, b) ==> final(framebuffer).pixel(a, b) == if px - 4 <= a
                <= px + 4 && py - 4 <= b <= py + 4 {
                Color { r: 255, g: 0, b: 255, a: 255 }
            } else {
                old(framebuffer).pixel(a, b)
            },
{
    let ghost start = *framebuffer;
    let magenta = Color::magenta();
    framebuffer.set_current_color(magenta);
    let player_radius: i32 = 4;
    let x_end = (px + player_radius) as i64;
    let y_end = (py + player_radius) as i64;
    let mut x = (px - player_radius) as i64;
    while x <= x_end
        invariant
            px - 4 <= x <= px + 5,
            x_end == px + 4,
            y_end == py + 4,
            player_radius == 4,
            i32::MIN + 4 <= px <= i32::MAX - 4,
            i32::MIN + 4 <= py <= i32::MAX - 4,
            framebuffer.current() == magenta,
            magenta == (Color { r: 255, g: 0, b: 255, a: 255 }),
            framebuffer.frame_width() == start.frame_width(),
            framebuffer.frame_height() == start.frame_height(),
            framebuffer.background() == start.background(),
            forall|a: int, b: int|
                #![trigger framebuffer.pixel(a, b)]
                start.in_frame(a, b) ==> framebuffer.pixel(a, b) == if px - 4 <= a < x && py - 4
                    <= b <= py + 4 {
                    magenta
                } else {
                    start.pixel(a, b)
                },
        decreases px + 5 - x,
    {
        let mut y = (py - player_radius) as i64;
        while y <= y_end
            invariant
                px - 4 <= x <= px + 4,
                py - 4 <= y <= py + 5,
                y_end == py + 4,
                player_radius == 4,
                i32::MIN + 4 <= px <= i32::MAX - 4,
                i32::MIN + 4 <= py <= i32::MAX - 4,
                framebuffer.current() == magenta,
                framebuffer.frame_width() == start.frame_width(),
                framebuffer.frame_height() == start.frame_height(),
                framebuffer.background() == start.background(),
                forall|a: int, b: int|
                    #![trigger framebuffer.pixel(a, b)]
                    start.in_frame(a, b) ==> framebuffer.pixel(a, b) == if (px - 4 <= a < x && py
                        - 4 <= b <= py + 4) || (a == x && py - 4 <= b < y) {
                        magenta
                    } else {
                        start.pixel(a, b)
                    },
            decreases py + 5 - y,
        {
            if x >= 0 && y >= 0 {
                framebuffer.set_pixel(x as u32, y as u32);
            }
            y += 1;
        }
        x += 1;
    }
}

/// Draws every cell of the maze as a `block_size` square, row by row and
/// each row left to right, so that a pixel covered by several squares shows
/// the last of them. The drawing colour ends as that of the last cell drawn.
pub fn render_maze(framebuffer: &mut Framebuffer, maze: &Maze, block_size: usize)
    requires
        maze_fits(rows(*maze), block_size as int),
    ensures
        final(framebuffer).frame_width() == old(framebuffer).frame_width(),
        final(framebuffer).frame_height() == old(framebuffer).frame_height(),
        final(framebuffer).background() == old(framebuffer).background(),
        final(framebuffer).current() == last_cell_color(
            rows(*maze),
            rows(*maze).len() as int,
            old(framebuffer).current(),
        ),
        forall|a: int, b: int|
            #![trigger final(framebuffer).pixel(a, b)]
            old(framebuffer).in_frame(a, b) ==> shows_last_square(
                rows(*maze),
                block_size as int,
                a,
                b,
                old(framebuffer).pixel(a, b),
                final(framebuffer).pixel(a, b),
            ),
{
    let ghost g = rows(*maze);
    let ghost bs = block_size as int;
    let ghost start = *framebuffer;
    let mut row_index: usize = 0;
    while row_index < maze.len()
        invariant
            g == rows(*maze),
            bs == block_size,
            maze_fits(g, bs),
            row_index <= g.len(),
            framebuffer.frame_width() == start.frame_width(),
            framebuffer.frame_height() == start.frame_height(),
            framebuffer.background() == start.background(),
            framebuffer.current() == last_cell_color(g, row_index as int, start.current()),
            forall|a: int, b: int|
                #![trigger framebuffer.pixel(a, b)]
                start.in_frame(a, b) ==> shows_last_square_before(
                    g,
                    bs,
                    a,
                    b,
                    row_index as int,
                    0,
                    start.pixel(a, b),
                    framebuffer.pixel(a, b),
                ),
        decreases g.len() - row_index,
    {
        let row = &maze[row_index];
        let mut col_index: usize = 0;
        while col_index < row.len()
            invariant
                g == rows(*maze),
                bs == block_size,
                maze_fits(g, bs),
                row_index < g.len(),
                row@ == g[row_index as int],
                col_index <= row@.len(),
                framebuffer.frame_width() == start.frame_width(),
                framebuffer.frame_height() == start.frame_height(),
                framebuffer.background() == start.background(),
                framebuffer.current() == if col_index > 0 {
                    cell_color(g[row_index as int][col_index - 1])
                } else {
                    last_cell_color(g, row_index as int, start.current())
                },
                forall|a: int, b: int|
                    #![trigger framebuffer.pixel(a, b)]
                    start.in_frame(a, b) ==> shows_last_square_before(
                        g,
                        bs,
                        a,
                        b,
                        row_index as int,
                        col_index as int,
                        start.pixel(a, b),
                        framebuffer.pixel(a, b),
                    ),
            decreases row@.len() - col_index,
        {
            proof {
                lemma_square_fits(g, bs, row_index as int, col_index as int);
            }
            let xo = col_index * block_size;
            let yo = row_index * block_size;
            let cell = row[col_index];
            let ghost before = *framebuffer;
            draw_cell(framebuffer, xo, yo, block_size, cell);
            proof {
                assert forall|a: int, b: int| start.in_frame(a, b) implies #[trigger] shows_last_square_before(
                    g,
                    bs,
                    a,
                    b,
                    row_index as int,
                    col_index + 1,
                    start.pixel(a, b),
                    framebuffer.pixel(a, b),
                ) by {
                    assert(shows_last_square_before(g, bs, a, b, row_index as int, col_index as int, start.pixel(a, b), before.pixel(a, b)));
                    lemma_last_square_step(g, bs, a, b, row_index as int, col_index as int, start.pixel(a, b), before.pixel(a, b), framebuffer.pixel(a, b));
                }
            }
            col_index += 1;
        }
        proof {
            assert forall|a: int, b: int| start.in_frame(a, b) implies #[trigger] shows_last_square_before(
                g,
                bs,
                a,
                b,
                row_index + 1,
                0,
                start.pixel(a, b),
                framebuffer.pixel(a, b),
            ) by {
                lemma_last_square_row(g, bs, a, b, row_index as int, start.pixel(a, b), framebuffer.pixel(a, b));
            }
        }
        row_index += 1;
    }
    proof {
        assert forall|a: int, b: int| start.in_frame(a, b) implies #[trigger] shows_last_square(
            g,
            bs,
            a,
            b,
            start.pixel(a, b),
            framebuffer.pixel(a, b),
        ) by {
            lemma_last_square_done(g, bs, a, b, start.pixel(a, b), framebuffer.pixel(a, b));
        }
    }
}

/// The colour of the last cell in the first `i` rows (row by row, each row
/// left to right), or `otherwise` when those rows have no cell.
pub open spec fn last_cell_color(g: Seq<Seq<char>>, i: int, otherwise: Color) -> Color
    decreases i,
{
    if i <= 0 {
        otherwise
    } else if g[i - 1].len() > 0 {
        cell_color(g[i - 1].last())
    } else {
        last_cell_color(g, i - 1, otherwise)
    }
}

/// Every square of the map has coordinates that fit in a `usize`.
pub open spec fn maze_fits(g: Seq<Seq<char>>, bs: int) -> bool {
    forall|j: int|
        0 <= j < g.len() && #[trigger] g[j].len() > 0 ==> (j + 1) * bs <= usize::MAX && g[j].len()
            * bs <= usize::MAX
}

/// The square of cell `(i, j)` covers the pixel `(a, b)`.
pub open spec fn square_covers(bs: int, i: int, j: int, a: int, b: int) -> bool {
    covers(i * bs, bs, a) && covers(j * bs, bs, b)
}

/// Cell `(i, j)` comes before cell `(i2, j2)` in row-major order.
pub open spec fn cell_before(i: int, j: int, i2: int, j2: int) -> bool {
    j < j2 || (j == j2 && i < i2)
}

/// Cell `(i, j)` comes before cell `(ci, cj)` in row-major order and its
/// square covers the pixel `(a, b)`.
pub open spec fn covering_cell_before(
    g: Seq<Seq<char>>,
    bs: int,
    a: int,
    b: int,
    cj: int,
    ci: int,
    i: int,
    j: int,
) -> bool {
    in_grid(g, i, j) && cell_before(i, j, ci, cj) && square_covers(bs, i, j, a, b)
}

/// Cell `(i, j)` is the last cell before `(ci, cj)` whose square covers the
/// pixel `(a, b)`.
pub open spec fn last_covering_cell_before(
    g: Seq<Seq<char>>,
    bs: int,
    a: int,
    b: int,
    cj: int,
    ci: int,
    i: int,
    j: int,
) -> bool {
    &&& covering_cell_before(g, bs, a, b, cj, ci, i, j)
    &&& forall|i2: int, j2: int|
        #[trigger] covering_cell_before(g, bs, a, b, cj, ci, i2, j2) ==> !cell_before(i, j, i2, j2)
}

/// Among the cells before `(ci, cj)` in row-major order, the pixel `(a, b)`
/// shows the colour of the last one whose square covers it, or `old` when
/// none does.
pub open spec fn shows_last_square_before(
    g: Seq<Seq<char>>,
    bs: int,
    a: int,
    b: int,
    cj: int,
    ci: int,
    old: Color,
    now: Color,
) -> bool {
    if exists|i: int, j: int| #[trigger] covering_cell_before(g, bs, a, b, cj, ci, i, j) {
        exists|i: int, j: int|
            #[trigger] last_covering_cell_before(g, bs, a, b, cj, ci, i, j) && now == cell_color(
                g[j][i],
            )
    } else {
        now == old
    }
}

/// The pixel `(a, b)` shows the colour of the last cell, in row-major order,
/// whose square covers it, or keeps `old` when no square covers it.
pub open spec fn shows_last_square(
    g: Seq<Seq<char>>,
    bs: int,
    a: int,
    b: int,
    old: Color,
    now: Color,
) -> bool {
    shows_last_square_before(g, bs, a, b, g.len() as int, 0, old, now)
}

proof fn lemma_square_fits(g: Seq<Seq<char>>, bs: int, j: int, i: int)
    requires
        maze_fits(g, bs),
        0 <= j < g.len(),
        0 <= i < g[j].len(),
        bs >= 0,
    ensures
        0 <= i * bs,
        0 <= j * bs,
        i * bs + bs <= usize::MAX,
        j * bs + bs <= usize::MAX,
{
    assert(g[j].len() > 0);
    assert((j + 1) * bs <= usize::MAX && g[j].len() * bs <= usize::MAX);
    assert(0 <= i * bs && i * bs + bs <= g[j].len() * bs) by (nonlinear_arith)
        requires
            0 <= i < g[j].len(),
            bs >= 0,
    ;
    assert(0 <= j * bs && j * bs + bs == (j + 1) * bs) by (nonlinear_arith)
        requires
            0 <= j,
            bs >= 0,
    ;
}

proof fn lemma_last_square_step(
    g: Seq<Seq<char>>,
    bs: int,
    a: int,
    b: int,
    cj: int,
    ci: int,
    old: Color,
    before: Color,
    now: Color,
)
    requires
        0 <= cj < g.len(),
        0 <= ci < g[cj].len(),
        shows_last_square_before(g, bs, a, b, cj, ci, old, before),
        now == if square_covers(bs, ci, cj, a, b) {
            cell_color(g[cj][ci])
        } else {
            before
        },
    ensures
        shows_last_square_before(g, bs, a, b, cj, ci + 1, old, now),
{
    // a cell before the next one is a cell before this one, or this one
    assert forall|i2: int, j2: int|
        #[trigger] covering_cell_before(g, bs, a, b, cj, ci + 1, i2, j2) implies covering_cell_before(
        g,
        bs,
        a,
        b,
        cj,
        ci,
        i2,
        j2,
    ) || (i2 == ci && j2 == cj) by {
    }
    if square_covers(bs, ci, cj, a, b) {
        assert(covering_cell_before(g, bs, a, b, cj, ci + 1, ci, cj));
        assert(last_covering_cell_before(g, bs, a, b, cj, ci + 1, ci, cj));
    } else if exists|i: int, j: int| #[trigger] covering_cell_before(g, bs, a, b, cj, ci, i, j) {
        let (i, j) = choose|i: int, j: int|
            #[trigger] last_covering_cell_before(g, bs, a, b, cj, ci, i, j) && before == cell_color(
                g[j][i],
            );
        assert(covering_cell_before(g, bs, a, b, cj, ci + 1, i, j));
        assert forall|i2: int, j2: int|
            #[trigger] covering_cell_before(g, bs, a, b, cj, ci + 1, i2, j2) implies !cell_before(
            i,
            j,
            i2,
            j2,
        ) by {
            assert(covering_cell_before(g, bs, a, b, cj, ci, i2, j2));
        }
        assert(last_covering_cell_before(g, bs, a, b, cj, ci + 1, i, j));
    } else {
        assert forall|i: int, j: int| !#[trigger] covering_cell_before(g, bs, a, b, cj, ci + 1, i, j) by {
            if covering_cell_before(g, bs, a, b, cj, ci + 1, i, j) {
                assert(covering_cell_before(g, bs, a, b, cj, ci, i, j));
            }
        }
    }
}

proof fn lemma_last_square_row(g: Seq<Seq<char>>, bs: int, a: int, b: int, cj: int, old: Color, now: Color)
    requires
        0 <= cj < g.len(),
        shows_last_square_before(g, bs, a, b, cj, g[cj].len() as int, old, now),
    ensures
        shows_last_square_before(g, bs, a, b, cj + 1, 0, old, now),
{
    let n = g[cj].len() as int;
    assert forall|i: int, j: int|
        #[trigger] covering_cell_before(g, bs, a, b, cj + 1, 0, i, j) implies covering_cell_before(
        g,
        bs,
        a,
        b,
        cj,
        n,
        i,
        j,
    ) by {
    }
    assert forall|i: int, j: int|
        #[trigger] covering_cell_before(g, bs, a, b, cj, n, i, j) implies covering_cell_before(
        g,
        bs,
        a,
        b,
        cj + 1,
        0,
        i,
        j,
    ) by {
    }
    if exists|i: int, j: int| #[trigger] covering_cell_before(g, bs, a, b, cj, n, i, j) {
        let (i, j) = choose|i: int, j: int|
            #[trigger] last_covering_cell_before(g, bs, a, b, cj, n, i, j) && now == cell_color(
                g[j][i],
            );
        assert(covering_cell_before(g, bs, a, b, cj + 1, 0, i, j));
        assert forall|i2: int, j2: int|
            #[trigger] covering_cell_before(g, bs, a, b, cj + 1, 0, i2, j2) implies !cell_before(
            i,
            j,
            i2,
            j2,
        ) by {
            assert(covering_cell_before(g, bs, a, b, cj, n, i2, j2));
        }
        assert(last_covering_cell_before(g, bs, a, b, cj + 1, 0, i, j));
    } else {
        assert forall|i: int, j: int| !#[trigger] covering_cell_before(g, bs, a, b, cj + 1, 0, i, j) by {
            if covering_cell_before(g, bs, a, b, cj + 1, 0, i, j) {
                assert(covering_cell_before(g, bs, a, b, cj, n, i, j));
            }
        }
    }
}

proof fn lemma_last_square_done(g: Seq<Seq<char>>, bs: int, a: int, b: int, old: Color, now: Color)
    requires
        shows_last_square_before(g, bs, a, b, g.len() as int, 0, old, now),
    ensures
        shows_last_square(g, bs, a, b, old, now),
{
}

} // verus!
