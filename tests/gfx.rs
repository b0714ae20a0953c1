use serenity_ipc::gfx::{Bitmap, Color, WindingRule};

#[test]
fn constructors_set_channels() {
    assert_eq!(Color::from_rgb(1, 2, 3), Color::from_rgba(1, 2, 3, 255));
    assert_eq!(Color::from_rgba(1, 2, 3, 4).with_alpha(9), Color::from_rgba(1, 2, 3, 9));
    assert!(WindingRule::Nonzero != WindingRule::EvenOdd);
}

#[test]
fn blend_mixes_by_alpha() {
    let dst = Color::from_rgba(100, 150, 200, 128);
    let src = Color::from_rgba(10, 20, 30, 64);
    assert_eq!(dst.blend(&src), Color::from_rgba(63, 97, 131, 159));
    let opaque_red = Color::from_rgb(255, 0, 0);
    let half_blue = Color::from_rgba(0, 0, 255, 128);
    assert_eq!(opaque_red.blend(&half_blue), Color::from_rgba(127, 0, 128, 255));
}

#[test]
fn blend_edge_alphas() {
    let a = Color::from_rgba(1, 2, 3, 0);
    let b = Color::from_rgba(4, 5, 6, 7);
    assert_eq!(a.blend(&b), b);
    assert_eq!(b.blend(&Color::from_rgba(9, 9, 9, 0)), b);
    assert_eq!(b.blend(&Color::from_rgb(9, 9, 9)), Color::from_rgb(9, 9, 9));
}

#[test]
fn pixels_are_stored_bgra() {
    let mut bmp = Bitmap::new(2, 2).ok().unwrap();
    assert_eq!(bmp.pitch, 8);
    assert_eq!(bmp.data.len(), 16);
    bmp.set_pixel(1, 1, &Color::from_rgba(10, 20, 30, 40));
    assert_eq!(&bmp.data[12..16], &[30, 20, 10, 40]);
    assert_eq!(bmp.get_pixel(1, 1), Color::from_rgba(10, 20, 30, 40));
    assert_eq!(bmp.get_pixel(0, 0), Color::from_rgba(0, 0, 0, 0));
}

#[test]
fn blend_pixel_draws_over() {
    let mut bmp = Bitmap::new(1, 1).ok().unwrap();
    bmp.set_pixel(0, 0, &Color::from_rgb(255, 0, 0));
    bmp.blend_pixel(0, 0, &Color::from_rgba(0, 0, 255, 128));
    assert_eq!(bmp.get_pixel(0, 0), Color::from_rgba(127, 0, 128, 255));
    bmp.blend_pixel(0, 0, &Color::from_rgb(1, 2, 3));
    assert_eq!(bmp.get_pixel(0, 0), Color::from_rgb(1, 2, 3));
}

#[test]
fn oversized_bitmap_is_refused() {
    assert!(Bitmap::new(0x4000_0000, 1).is_err());
    assert!(Bitmap::new(0, 5).ok().unwrap().data.is_empty());
}
