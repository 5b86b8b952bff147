use museum_maze::{
    draw_cell, draw_column, draw_player_marker, render_maze, Color, Framebuffer, Maze, RenderMode,
};

fn grid(rows: &[&str]) -> Maze {
    rows.iter().map(|r| r.chars().collect()).collect()
}

#[test]
fn render_mode_toggles_back_and_forth() {
    assert_eq!(RenderMode::TwoD.toggled(), RenderMode::ThreeD);
    assert_eq!(RenderMode::ThreeD.toggled(), RenderMode::TwoD);
    assert_eq!(RenderMode::TwoD.toggled().toggled(), RenderMode::TwoD);
}

#[test]
fn draw_cell_fills_a_square_in_the_cell_color() {
    let mut fb = Framebuffer::new(6, 6, Color::new(0, 0, 0, 255));
    draw_cell(&mut fb, 2, 1, 3, 's');
    assert_eq!(fb.current_color(), Color::green());
    for y in 0..6 {
        for x in 0..6 {
            let inside = (2..5).contains(&x) && (1..4).contains(&y);
            let expected = if inside { Color::green() } else { Color::new(0, 0, 0, 255) };
            assert_eq!(fb.get_pixel(x, y), Some(expected));
        }
    }
    draw_cell(&mut fb, 4, 4, 5, '#');
    assert_eq!(fb.get_pixel(5, 5), Some(Color::blue()));
    draw_cell(&mut fb, 0, 0, 1, 'f');
    assert_eq!(fb.get_pixel(0, 0), Some(Color::red()));
    draw_cell(&mut fb, 0, 0, 1, '.');
    assert_eq!(fb.get_pixel(0, 0), Some(Color::white()));
}

#[test]
fn render_maze_draws_each_cell() {
    let maze = grid(&["#s", ".f"]);
    let mut fb = Framebuffer::new(4, 4, Color::new(0, 0, 0, 255));
    render_maze(&mut fb, &maze, 2);
    assert_eq!(fb.get_pixel(1, 1), Some(Color::blue()));
    assert_eq!(fb.get_pixel(3, 0), Some(Color::green()));
    assert_eq!(fb.get_pixel(0, 3), Some(Color::white()));
    assert_eq!(fb.get_pixel(2, 2), Some(Color::red()));
    // the drawing colour is left at the last cell's colour
    assert_eq!(fb.current_color(), Color::red());
}

#[test]
fn render_maze_of_empty_rows_keeps_the_colour() {
    let maze: Vec<Vec<char>> = vec![vec![], vec![]];
    let mut fb = Framebuffer::new(2, 2, Color::new(0, 0, 0, 255));
    fb.set_current_color(Color::yellow());
    render_maze(&mut fb, &maze, 2);
    assert_eq!(fb.current_color(), Color::yellow());
}

#[test]
fn wall_column_is_centred() {
    let wall = Color::new(100, 100, 200, 255);
    let mut fb = Framebuffer::new(3, 10, Color::new(0, 0, 0, 255));
    draw_column(&mut fb, 1, 4, wall);
    let ceiling = Color::new(30, 30, 55, 255);
    let floor = Color::new(55, 45, 40, 255);
    for y in 0..10 {
        let expected = if y < 3 {
            ceiling
        } else if y < 7 {
            wall
        } else {
            floor
        };
        assert_eq!(fb.get_pixel(1, y), Some(expected));
        assert_eq!(fb.get_pixel(0, y), Some(Color::new(0, 0, 0, 255)));
    }
    assert_eq!(fb.current_color(), floor);
    // a slice taller than the frame covers the whole column
    draw_column(&mut fb, 2, 50, wall);
    for y in 0..10 {
        assert_eq!(fb.get_pixel(2, y), Some(wall));
    }
}

#[test]
fn player_marker_is_a_clipped_square() {
    let mut fb = Framebuffer::new(12, 12, Color::new(0, 0, 0, 255));
    draw_player_marker(&mut fb, 2, 3);
    for y in 0..12u32 {
        for x in 0..12u32 {
            let inside = x <= 6 && y <= 7;
            let expected = if inside { Color::magenta() } else { Color::new(0, 0, 0, 255) };
            assert_eq!(fb.get_pixel(x, y), Some(expected));
        }
    }
}
