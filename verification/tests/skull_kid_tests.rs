use museum_maze::{create_maze, spawn_skull_kids};

#[test]
fn skull_kids_only_spawn_on_open_paths() {
    let maze = vec![
        vec!['#', '#', '#', '#', '#'],
        vec!['#', 's', '.', 'f', '#'],
        vec!['#', '.', '#', '.', '#'],
        vec!['#', '#', '#', '#', '#'],
    ];

    let block_size = 40;
    let skull_kids = spawn_skull_kids(&maze, 10);
    assert_eq!(skull_kids.len(), 3);
    for skull_kid in skull_kids {
        let position_x = (skull_kid.cell_x as f32 + 0.5) * block_size as f32;
        let position_y = (skull_kid.cell_y as f32 + 0.5) * block_size as f32;
        let x = position_x as usize / 40;
        let y = position_y as usize / 40;
        assert_eq!(maze[y][x], '.');
    }
}

#[test]
fn skull_kids_are_capped_by_count_and_numbered() {
    let maze = create_maze(21, 21);
    let paths = maze.iter().flatten().filter(|c| **c == '.').count();
    assert!(paths > 5);
    let kids = spawn_skull_kids(&maze, 5);
    assert_eq!(kids.len(), 5);
    for (i, kid) in kids.iter().enumerate() {
        assert_eq!(kid.spawn_index, i);
        assert_eq!(maze[kid.cell_y][kid.cell_x], '.');
    }
    let all = spawn_skull_kids(&maze, 100_000);
    assert_eq!(all.len(), paths);
}

#[test]
fn skull_kids_stand_on_distinct_cells() {
    let maze = create_maze(15, 15);
    let kids = spawn_skull_kids(&maze, 1000);
    for i in 0..kids.len() {
        for j in i + 1..kids.len() {
            assert_ne!((kids[i].cell_x, kids[i].cell_y), (kids[j].cell_x, kids[j].cell_y));
        }
    }
}

#[test]
fn skull_kids_need_path_cells() {
    let maze = vec![vec!['#', '#'], vec!['s', 'f']];
    assert!(spawn_skull_kids(&maze, 4).is_empty());
    assert!(spawn_skull_kids(&create_maze(9, 9), 0).is_empty());
}

#[test]
fn skull_kid_cells_are_shuffled() {
    // 20 path cells in one row: a shuffle that kept the row-major order every
    // time would be a broken shuffle (chance 1 in 20! per try)
    let mut row = vec!['#'];
    row.extend(std::iter::repeat('.').take(20));
    row.push('#');
    let maze = vec![row];
    let mut moved = false;
    for _ in 0..3 {
        let kids = spawn_skull_kids(&maze, 20);
        assert_eq!(kids.len(), 20);
        if kids.iter().enumerate().any(|(i, k)| k.cell_x != i + 1) {
            moved = true;
        }
    }
    assert!(moved);
}
