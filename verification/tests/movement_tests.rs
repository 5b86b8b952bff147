use museum_maze::{can_stand_at, Maze};

fn grid(rows: &[&str]) -> Maze {
    rows.iter().map(|r| r.chars().collect()).collect()
}

fn corners(x: i64, y: i64, r: i64) -> [(i64, i64); 4] {
    [(x - r, y - r), (x - r, y + r), (x + r, y - r), (x + r, y + r)]
}

#[test]
fn standing_inside_an_open_cell() {
    let maze = grid(&["#####", "#s..#", "#####"]);
    assert!(can_stand_at(&maze, &corners(60, 60, 8), 40));
}

#[test]
fn a_corner_in_a_wall_blocks() {
    let maze = grid(&["#####", "#s..#", "#####"]);
    // the top corners reach row 0, a wall
    assert!(!can_stand_at(&maze, &corners(60, 45, 8), 40));
    // straddling two open cells is fine
    assert!(can_stand_at(&maze, &corners(80, 60, 8), 40));
}

#[test]
fn negative_or_outside_positions_block() {
    let maze = grid(&["..", ".."]);
    assert!(!can_stand_at(&maze, &corners(4, 20, 8), 40));
    assert!(!can_stand_at(&maze, &corners(75, 20, 8), 40));
    assert!(can_stand_at(&maze, &corners(40, 40, 8), 40));
    assert!(can_stand_at(&maze, &[], 40));
}
