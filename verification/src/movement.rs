use vstd::prelude::*;

use crate::grid::{is_open, rows, Maze};

verus! {

/// A pixel position of the footprint stands on floor: it is not negative
/// and the maze cell under it (`block_size` pixels per cell) is open.
pub open spec fn stands_on_floor(g: Seq<Seq<char>>, p: (i64, i64), block_size: int) -> bool {
    p.0 >= 0 && p.1 >= 0 && is_open(g, p.0 as int / block_size, p.1 as int / block_size)
}

/// Whether the player fits at a place whose footprint has the given corner
/// pixels (each corner rounded down to whole pixels): every corner must lie
/// on an open maze cell.
pub fn can_stand_at(maze: &Maze, corners: &[(i64, i64)], block_size: usize) -> (ok: bool)
    requires
        block_size > 0,
    ensures
        ok == forall|i: int|
            0 <= i < corners@.len() ==> stands_on_floor(
                rows(*maze),
                #[trigger] corners@[i],
                block_size as int,
            ),
{
    let mut i: usize = 0;
    while i < corners.len()
        invariant
            block_size > 0,
            i <= corners@.len(),
            forall|k: int|
                0 <= k < i ==> stands_on_floor(rows(*maze), #[trigger] corners@[k], block_size as int),
        decreases corners@.len() - i,
    {
        let (x, y) = corners[i];
        if x < 0 || y < 0 {
            return false;
        }
        let map_x = (x as u64) / (block_size as u64);
        let map_y = (y as u64) / (block_size as u64);
        let height = maze.len();
        if map_y >= height as u64 {
            return false;
        }
        let row_len = maze[map_y as usize].len();
        if map_x >= row_len as u64 || maze[map_y as usize][map_x as usize] == '#' {
            return false;
        }
        i += 1;
    }
    true
}

} // verus!
