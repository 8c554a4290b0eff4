use snaprust::capture::bgra_to_rgba;
use snaprust::clipboard::rgba_to_bgra;

#[test]
fn converts_rgba_pixels_to_opaque_windows_bgra() {
    let mut pixels = vec![30, 20, 10, 1, 60, 50, 40, 127];

    rgba_to_bgra(&mut pixels);

    assert_eq!(pixels, [10, 20, 30, 255, 40, 50, 60, 255]);
}

#[test]
fn converts_windows_bgra_pixels_to_opaque_rgba() {
    let mut pixels = vec![10, 20, 30, 0, 40, 50, 60, 128];

    bgra_to_rgba(&mut pixels);

    assert_eq!(pixels, [30, 20, 10, 255, 60, 50, 40, 255]);
}

#[test]
fn converting_there_and_back_keeps_the_colors_and_makes_them_opaque() {
    let mut pixels = vec![1, 2, 3, 4, 5, 6, 7, 8, 9, 10];
    rgba_to_bgra(&mut pixels);
    bgra_to_rgba(&mut pixels);
    assert_eq!(pixels, [1, 2, 3, 255, 5, 6, 7, 255, 9, 10]);
}
