use raytracer::framebuffer::{Color, Framebuffer};

#[test]
fn new_framebuffer_is_black() {
    let f = Framebuffer::new(3, 2);
    assert_eq!(f.width(), 3);
    assert_eq!(f.height(), 2);
    assert_eq!(f.pixel(2, 1), Some(Color::black()));
    assert_eq!(f.pixel(3, 0), None);
}

#[test]
fn set_pixel_paints_current_color() {
    let mut f = Framebuffer::new(3, 2);
    let red = Color::new(255, 0, 0, 255);
    f.set_current_color(red);
    f.set_pixel(1, 1);
    assert_eq!(f.pixel(1, 1), Some(red));
    assert_eq!(f.pixel(1, 0), Some(Color::black()));
}

#[test]
fn set_pixel_outside_is_ignored() {
    let mut f = Framebuffer::new(2, 2);
    f.set_pixel(2, 0);
    f.set_pixel(0, 2);
    for y in 0..2 {
        for x in 0..2 {
            assert_eq!(f.pixel(x, y), Some(Color::black()));
        }
    }
}

#[test]
fn clear_uses_background() {
    let mut f = Framebuffer::new(2, 2);
    f.set_pixel(0, 0);
    let blue = Color::new(0, 0, 255, 255);
    f.set_background_color(blue);
    f.clear();
    assert_eq!(f.pixel(0, 0), Some(blue));
    assert_eq!(f.pixel(1, 1), Some(blue));
}

#[test]
fn set_pixels_scatters_row_major() {
    let mut f = Framebuffer::new(3, 2);
    let colors: Vec<Color> = (0..6u8).map(|i| Color::new(i, 0, 0, 255)).collect();
    f.set_pixels(&colors);
    assert_eq!(f.pixel(0, 0), Some(Color::new(0, 0, 0, 255)));
    assert_eq!(f.pixel(2, 0), Some(Color::new(2, 0, 0, 255)));
    assert_eq!(f.pixel(0, 1), Some(Color::new(3, 0, 0, 255)));
    assert_eq!(f.pixel(2, 1), Some(Color::new(5, 0, 0, 255)));
}

#[test]
fn set_pixels_drops_extra_colors() {
    let mut f = Framebuffer::new(2, 1);
    let colors = vec![Color::white(), Color::white(), Color::new(9, 9, 9, 9)];
    f.set_pixels(&colors);
    assert_eq!(f.pixel(0, 0), Some(Color::white()));
    assert_eq!(f.pixel(1, 0), Some(Color::white()));
}
