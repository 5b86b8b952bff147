use museum_maze::{Color, Framebuffer};

fn navy() -> Color {
    Color::new(50, 50, 100, 255)
}

#[test]
fn new_frame_is_filled_with_background() {
    let fb = Framebuffer::new(4, 3, navy());
    assert_eq!(fb.width(), 4);
    assert_eq!(fb.height(), 3);
    assert_eq!(fb.color_buffer().len(), 4 * 3 * 4);
    for y in 0..3 {
        for x in 0..4 {
            assert_eq!(fb.get_pixel(x, y), Some(navy()));
        }
    }
    assert_eq!(fb.get_pixel(4, 0), None);
    assert_eq!(fb.current_color(), Color::white());
    assert_eq!(fb.background_color(), navy());
}

#[test]
fn written_pixel_reads_back() {
    let mut fb = Framebuffer::new(5, 5, navy());
    let c = Color::new(1, 2, 3, 4);
    fb.set_pixel_color(2, 3, c);
    assert_eq!(fb.get_pixel(2, 3), Some(c));
    assert_eq!(fb.get_pixel(3, 2), Some(navy()));
    let offset = (3 * 5 + 2) * 4;
    assert_eq!(&fb.color_buffer()[offset..offset + 4], &[1, 2, 3, 4]);
}

#[test]
fn pixels_outside_are_ignored() {
    let mut fb = Framebuffer::new(2, 2, navy());
    let before = fb.color_buffer().clone();
    fb.set_pixel_color(2, 0, Color::red());
    fb.set_pixel_color(0, 7, Color::red());
    assert_eq!(fb.color_buffer(), &before);
}

#[test]
fn set_pixel_uses_current_color_and_clear_restores() {
    let mut fb = Framebuffer::new(3, 3, navy());
    fb.set_current_color(Color::yellow());
    fb.set_pixel(1, 1);
    assert_eq!(fb.get_pixel(1, 1), Some(Color::yellow()));
    fb.set_background_color(Color::green());
    fb.clear();
    for y in 0..3 {
        for x in 0..3 {
            assert_eq!(fb.get_pixel(x, y), Some(Color::green()));
        }
    }
    assert_eq!(fb.current_color(), Color::yellow());
}

#[test]
fn blending_respects_alpha() {
    let mut fb = Framebuffer::new(3, 1, Color::new(100, 100, 100, 255));
    let mix = |back: u8, front: u8, alpha: u8| {
        let a = alpha as f32 / 255.0;
        (front as f32 * a + back as f32 * (1.0 - a)) as u8
    };
    fb.blend_pixel(0, 0, Color::new(200, 0, 50, 0), mix);
    assert_eq!(fb.get_pixel(0, 0), Some(Color::new(100, 100, 100, 255)));
    fb.blend_pixel(1, 0, Color::new(200, 0, 50, 255), mix);
    assert_eq!(fb.get_pixel(1, 0), Some(Color::new(200, 0, 50, 255)));
    fb.blend_pixel(2, 0, Color::new(200, 0, 50, 51), mix);
    assert_eq!(fb.get_pixel(2, 0), Some(Color::new(120, 80, 90, 255)));
    fb.blend_pixel(3, 0, Color::new(200, 0, 50, 51), mix);
    assert_eq!(fb.color_buffer().len(), 12);
}

#[test]
fn named_colors() {
    assert_eq!(Color::blue(), Color::new(0, 0, 255, 255));
    assert_eq!(Color::green(), Color::new(0, 128, 0, 255));
    assert_eq!(Color::red(), Color::new(255, 0, 0, 255));
    assert_eq!(Color::white(), Color::new(255, 255, 255, 255));
    assert_eq!(Color::yellow(), Color::new(255, 255, 0, 255));
    assert_eq!(Color::magenta(), Color::new(255, 0, 255, 255));
}
