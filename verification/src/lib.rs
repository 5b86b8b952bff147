//! A first-person museum maze: maze generation, path search, exhibit
//! placement, collision and a software framebuffer with its drawing
//! routines. Windowing, input, image files and floating-point rendering live
//! outside this library.

pub mod color;
pub mod exhibits;
pub mod framebuffer;
pub mod grid;
pub mod layout;
pub mod maze;
pub mod movement;
pub mod names;
mod random;
pub mod renderer;
pub mod skull_kid;
pub mod textures;

pub use color::Color;
pub use exhibits::{assign_exhibits, ExhibitMap};
pub use framebuffer::Framebuffer;
pub use grid::{cell_is_open, find_cell, Maze};
pub use layout::find_final_wall;
pub use maze::create_maze;
pub use movement::can_stand_at;
pub use names::{image_attempt_step, image_load_error, is_artwork_file, ImageAttempt};
pub use renderer::{draw_cell, draw_column, draw_player_marker, render_maze, RenderMode};
pub use skull_kid::{spawn_skull_kids, SkullKid};
pub use textures::{TextureManager, WallTexture};
