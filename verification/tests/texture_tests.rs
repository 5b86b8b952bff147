use museum_maze::{
    assign_exhibits, image_attempt_step, image_load_error, ImageAttempt, is_artwork_file, Color, Maze, TextureManager, WallTexture,
};

fn grid(rows: &[&str]) -> Maze {
    rows.iter().map(|r| r.chars().collect()).collect()
}

fn plain(shade: u8) -> WallTexture {
    WallTexture::from_pixels(1, 1, vec![Color::new(shade, shade, shade, 255)]).unwrap()
}

fn shade_of(t: &WallTexture) -> u8 {
    t.texel(0, 0).r
}

#[test]
fn texture_needs_matching_pixel_count() {
    let pixels: Vec<Color> = (0..6).map(|i| Color::new(i, 0, 0, 255)).collect();
    assert!(WallTexture::from_pixels(2, 2, pixels.clone()).is_none());
    let t = WallTexture::from_pixels(3, 2, pixels).unwrap();
    assert_eq!(t.width(), 3);
    assert_eq!(t.height(), 2);
    assert_eq!(t.texel(0, 0).r, 0);
    assert_eq!(t.texel(2, 0).r, 2);
    assert_eq!(t.texel(1, 1).r, 4);
    assert!(WallTexture::from_pixels(usize::MAX, 2, vec![]).is_none());
}

#[test]
fn exhibits_are_dealt_round_robin_in_scan_order() {
    let maze = grid(&["#####", "#s.f#", "#####"]);
    let m = assign_exhibits(&maze, 3);
    assert_eq!(m.get(0, 1, 0), Some(0));
    assert_eq!(m.get(1, 2, 1), Some(1));
    assert_eq!(m.get(1, 0, 1), Some(2));
    assert_eq!(m.get(2, 2, 1), Some(0));
    assert_eq!(m.get(2, 0, 1), Some(1));
    assert_eq!(m.get(4, 1, 0), Some(2));
    assert_eq!(m.get(3, 2, 1), Some(0));
    assert_eq!(m.get(3, 0, 1), Some(1));
    // not a face of an open cell
    assert_eq!(m.get(0, 0, 0), None);
    assert_eq!(m.get(0, 1, 1), None);
    assert_eq!(m.get(0, 1, 2), None);
    assert_eq!(m.get(9, 9, 0), None);
}

#[test]
fn a_face_seen_twice_keeps_its_first_exhibit() {
    // the wall at (2, 1) is seen from the left by (1, 1) and from the right by (3, 1)
    let maze = grid(&["#####", "#.#.#", "#####"]);
    let m = assign_exhibits(&maze, 100);
    assert_eq!(m.get(2, 1, 0), Some(0));
    assert_eq!(m.get(0, 1, 0), Some(1));
    assert_eq!(m.get(4, 1, 0), Some(4));
    assert_eq!(m.get(3, 0, 1), Some(6));
}

#[test]
fn walls_only_need_no_artwork() {
    let maze = grid(&["###", "###"]);
    let m = assign_exhibits(&maze, 0);
    assert_eq!(m.get(1, 1, 0), None);
}

#[test]
fn museum_without_artwork_is_refused() {
    let maze = grid(&["#####", "#s.f#", "#####"]);
    let r = TextureManager::from_parts(&maze, vec![], plain(1), plain(2), plain(3));
    assert_eq!(r.err(), Some("No museum artwork was found in textures/".to_string()));
}

#[test]
fn wall_textures_follow_the_exhibits() {
    let maze = grid(&["#####", "#s.f#", "#####"]);
    let tm = TextureManager::from_parts(&maze, vec![plain(10), plain(11)], plain(99), plain(2), plain(3))
        .unwrap();
    assert_eq!(tm.final_wall(), (4, 1));
    // the final wall shows the final picture from any side
    assert_eq!(shade_of(tm.wall_texture(4, 1, 0)), 99);
    assert_eq!(shade_of(tm.wall_texture(4, 1, 1)), 99);
    // (0, 1, 0) is the first face met, (1, 2, 1) the second
    assert_eq!(shade_of(tm.wall_texture(0, 1, 0)), 10);
    assert_eq!(shade_of(tm.wall_texture(1, 2, 1)), 11);
    // faces without an exhibit show the first artwork
    assert_eq!(shade_of(tm.wall_texture(0, 0, 1)), 10);
    assert_eq!(shade_of(tm.sky_texture()), 2);
    assert_eq!(shade_of(tm.floor_texture()), 3);
}

#[test]
fn artwork_files_are_pngs_other_than_the_fixed_textures() {
    assert!(is_artwork_file("mask.png"));
    assert!(is_artwork_file("..png"));
    assert!(!is_artwork_file(".png"));
    assert!(!is_artwork_file("mask.jpg"));
    assert!(!is_artwork_file("mask.PNG"));
    assert!(!is_artwork_file("png"));
    assert!(!is_artwork_file("background.png"));
    assert!(!is_artwork_file("final.png"));
    assert!(!is_artwork_file("sky.png"));
    assert!(!is_artwork_file("floor.png"));
    assert!(is_artwork_file("floor2.png"));
}

#[test]
fn image_errors_list_paths_or_errors() {
    let paths = vec!["textures/floor.png".to_string(), "textures/floor.jpg".to_string()];
    assert_eq!(
        image_load_error(&paths, &vec![]),
        "None of these texture files exist: textures/floor.png, textures/floor.jpg"
    );
    let errors = vec!["Failed to load a".to_string(), "Failed to load b".to_string()];
    assert_eq!(image_load_error(&paths, &errors), "Failed to load a; Failed to load b");
    assert_eq!(image_load_error(&vec![], &vec![]), "None of these texture files exist: ");
}

#[test]
fn image_attempts_stop_at_the_first_load_and_keep_errors() {
    let mut errors: Vec<String> = Vec::new();
    assert!(!image_attempt_step(&mut errors, ImageAttempt::Missing));
    assert!(errors.is_empty());
    assert!(!image_attempt_step(&mut errors, ImageAttempt::Failed("bad floor.png".to_string())));
    assert_eq!(errors, vec!["bad floor.png".to_string()]);
    assert!(image_attempt_step(&mut errors, ImageAttempt::Loaded));
    assert_eq!(errors.len(), 1);
}
