use std::collections::VecDeque;

use museum_maze::{cell_is_open, create_maze, find_cell, find_final_wall, Maze};

fn grid(rows: &[&str]) -> Maze {
    rows.iter().map(|r| r.chars().collect()).collect()
}

fn reachable(maze: &Maze, from: (usize, usize), to: (usize, usize)) -> bool {
    let mut seen = vec![vec![false; maze[0].len()]; maze.len()];
    let mut queue = VecDeque::new();
    seen[from.1][from.0] = true;
    queue.push_back(from);
    while let Some((x, y)) = queue.pop_front() {
        if (x, y) == to {
            return true;
        }
        let mut next = vec![(x + 1, y), (x, y + 1)];
        if x > 0 {
            next.push((x - 1, y));
        }
        if y > 0 {
            next.push((x, y - 1));
        }
        for (nx, ny) in next {
            if ny < maze.len() && nx < maze[ny].len() && maze[ny][nx] != '#' && !seen[ny][nx] {
                seen[ny][nx] = true;
                queue.push_back((nx, ny));
            }
        }
    }
    false
}

#[test]
fn generated_maze_has_odd_requested_shape() {
    let maze = create_maze(15, 11);
    assert_eq!(maze.len(), 11);
    assert!(maze.iter().all(|row| row.len() == 15));
}

#[test]
fn generated_maze_rounds_sides() {
    let maze = create_maze(16, 12);
    assert_eq!(maze.len(), 11);
    assert_eq!(maze[0].len(), 15);
    let small = create_maze(0, 1);
    assert_eq!(small.len(), 3);
    assert_eq!(small[0].len(), 3);
}

#[test]
fn smallest_maze_marks_finish_on_start() {
    let maze = create_maze(3, 3);
    assert_eq!(maze, grid(&["###", "#f#", "###"]));
}

#[test]
fn generated_maze_has_wall_border_and_marks() {
    for _ in 0..5 {
        let maze = create_maze(21, 9);
        let h = maze.len();
        let w = maze[0].len();
        for y in 0..h {
            for x in 0..w {
                if x == 0 || y == 0 || x == w - 1 || y == h - 1 || (x % 2 == 0 && y % 2 == 0) {
                    assert_eq!(maze[y][x], '#');
                }
                if x % 2 == 1 && y % 2 == 1 {
                    assert_ne!(maze[y][x], '#');
                }
            }
        }
        assert_eq!(maze[1][1], 's');
        assert_eq!(maze[h - 2][w - 2], 'f');
        let marks = maze.iter().flatten().filter(|c| **c == 's' || **c == 'f').count();
        assert_eq!(marks, 2);
    }
}

#[test]
fn generated_maze_is_solvable() {
    for _ in 0..10 {
        let maze = create_maze(25, 17);
        let h = maze.len();
        let w = maze[0].len();
        for y in 0..h {
            for x in 0..w {
                if maze[y][x] != '#' {
                    assert!(reachable(&maze, (1, 1), (x, y)));
                }
            }
        }
        assert!(reachable(&maze, (1, 1), (w - 2, h - 2)));
    }
}

#[test]
fn open_cells_are_inside_and_not_walls() {
    let maze = grid(&["###", "#s.", "##"]);
    assert!(cell_is_open(&maze, 1, 1));
    assert!(cell_is_open(&maze, 2, 1));
    assert!(!cell_is_open(&maze, 0, 1));
    assert!(!cell_is_open(&maze, 2, 2));
    assert!(!cell_is_open(&maze, 1, 3));
}

#[test]
fn find_cell_takes_first_in_row_major_order() {
    let maze = grid(&["#..#", "#.f#", "f..#"]);
    assert_eq!(find_cell(&maze, 'f'), Some((2, 1)));
    assert_eq!(find_cell(&maze, '.'), Some((1, 0)));
    assert_eq!(find_cell(&maze, 's'), None);
}

#[test]
fn final_wall_straight_ahead_of_the_finish() {
    let maze = grid(&["#####", "#s.f#", "#####"]);
    assert_eq!(find_final_wall(&maze), (4, 1));
}

#[test]
fn final_wall_when_arriving_from_above() {
    let maze = grid(&["###", "#s#", "#.#", "#f#", "###"]);
    assert_eq!(find_final_wall(&maze), (1, 4));
}

#[test]
fn final_wall_falls_back_below_when_ahead_is_open() {
    let maze = grid(&["######", "#s.f.#", "######"]);
    assert_eq!(find_final_wall(&maze), (3, 2));
}

#[test]
fn final_wall_falls_back_below_when_finish_is_unreachable() {
    let maze = grid(&["#####", "#s#f#", "#####"]);
    assert_eq!(find_final_wall(&maze), (3, 2));
}

#[test]
fn final_wall_defaults_without_marks() {
    // start (1, 1), finish (2, 2): reached from (2, 1), so the wall ahead is (2, 3)
    let maze = grid(&["####", "#..#", "#..#", "####"]);
    assert_eq!(find_final_wall(&maze), (2, 3));
}

#[test]
fn final_wall_below_when_finish_is_start() {
    let maze = grid(&["###", "#f#", "###"]);
    assert_eq!(find_final_wall(&maze), (1, 2));
}

#[test]
fn final_wall_of_generated_maze_borders_the_finish() {
    for _ in 0..10 {
        let maze = create_maze(19, 13);
        let (wx, wy) = find_final_wall(&maze);
        let (fx, fy) = (maze[0].len() - 2, maze.len() - 2);
        assert_eq!(maze[wy][wx], '#');
        assert_eq!(fx.abs_diff(wx) + fy.abs_diff(wy), 1);
    }
}

#[test]
fn generated_maze_opens_one_passage_fewer_than_chambers() {
    for (w, h) in [(3, 3), (5, 3), (15, 11), (21, 21), (9, 17)] {
        let maze = create_maze(w, h);
        let chambers = ((w - 1) / 2) * ((h - 1) / 2);
        let open = maze.iter().flatten().filter(|c| **c != '#').count();
        assert_eq!(open, 2 * chambers - 1);
    }
}

#[test]
fn final_wall_in_a_single_row() {
    // the cell ahead of the finish lies outside, so the cell below is chosen
    let maze = grid(&["sf"]);
    assert_eq!(find_final_wall(&maze), (1, 1));
}

#[test]
fn final_wall_keeps_to_the_first_row_width() {
    // the third row is longer; the search never looks past the first width
    let maze = grid(&["####", "#sf#", "#####.", "####"]);
    assert_eq!(find_final_wall(&maze), (3, 1));
}

#[test]
fn final_wall_prefers_the_first_neighbour_searched() {
    // the finish can be reached from the left and from above at the same
    // distance; the search expands right before down, so it arrives from above
    let maze = grid(&["#####", "#s..#", "#..f#", "#####"]);
    assert_eq!(find_final_wall(&maze), (3, 3));
}
