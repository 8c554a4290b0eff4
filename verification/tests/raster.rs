use snaprust::raster::{Raster, Rgba, encode_png, swap_red_blue_opaque};

fn px(r: u8, g: u8, b: u8, a: u8) -> Rgba {
    Rgba { r, g, b, a }
}

fn numbered(width: u32, height: u32) -> Raster {
    let mut bytes = Vec::new();
    for y in 0..height {
        for x in 0..width {
            bytes.extend_from_slice(&[(10 * y + x) as u8, 0, 0, 255]);
        }
    }
    Raster::from_rgba_bytes(width, height, &bytes).unwrap()
}

#[test]
fn bytes_go_in_and_out_unchanged() {
    let bytes: Vec<u8> = (0..24).collect();
    let image = Raster::from_rgba_bytes(3, 2, &bytes).unwrap();
    assert_eq!(image.pixel(1, 1), px(16, 17, 18, 19));
    assert_eq!(image.to_rgba_bytes(), bytes);
    assert!(Raster::from_rgba_bytes(3, 2, &bytes[..20]).is_none());
}

#[test]
fn crops_and_rotates_by_quarter_turns() {
    let image = numbered(3, 2);
    let crop = image.crop(1, 0, 2, 2);
    assert_eq!((crop.width(), crop.height()), (2, 2));
    assert_eq!(crop.pixel(0, 1).r, 11);

    let right = image.rotated(1);
    assert_eq!((right.width(), right.height()), (2, 3));
    assert_eq!(right.pixel(0, 0).r, 10);
    assert_eq!(right.pixel(1, 0).r, 0);
    let half = image.rotated(2);
    assert_eq!(half.pixel(0, 0).r, 12);
    let left = image.rotated(3);
    assert_eq!(left.pixel(0, 0).r, 2);
    assert_eq!(image.rotated(1).rotated(3).to_rgba_bytes(), image.to_rgba_bytes());
}

#[test]
fn flattens_onto_white_with_rounding() {
    let image = Raster::filled(1, 1, px(100, 0, 200, 128));
    // (100 * 128 + 255 * 127 + 127) / 255 = 177, (0 + 32385 + 127) / 255 = 127,
    // (200 * 128 + 32385 + 127) / 255 = 227.
    assert_eq!(image.flatten_transparency().pixel(0, 0), px(177, 127, 227, 255));
}

#[test]
fn averages_only_the_border_pixels() {
    let mut bytes = vec![10u8, 20, 30, 255].repeat(9);
    bytes[16..20].copy_from_slice(&[250, 250, 250, 255]);
    let image = Raster::from_rgba_bytes(3, 3, &bytes).unwrap();
    assert_eq!(image.edge_average_color(), px(10, 20, 30, 255));
    let single = Raster::filled(1, 1, px(1, 2, 3, 4));
    assert_eq!(single.edge_average_color(), px(1, 2, 3, 255));
    assert_eq!(Raster::filled(0, 0, px(9, 9, 9, 9)).edge_average_color(), px(0, 0, 0, 255));
}

#[test]
fn stacks_and_replaces_rows() {
    let top = numbered(2, 3);
    let bottom = numbered(2, 4);
    let both = Raster::stacked(&top, 2, &bottom, 1);
    assert_eq!(both.height(), 5);
    assert_eq!(both.pixel(0, 1).r, 10);
    assert_eq!(both.pixel(0, 2).r, 10);
    assert_eq!(both.pixel(1, 4).r, 31);

    let patched = top.with_rows_replaced(1, &Raster::filled(1, 2, px(9, 9, 9, 9)), 0, 2);
    assert_eq!(patched.pixel(0, 1), px(9, 9, 9, 9));
    assert_eq!(patched.pixel(1, 1).r, 11);
    assert_eq!(patched.pixel(0, 0).r, 0);
}

#[test]
fn swaps_red_and_blue_of_whole_pixels_only() {
    let mut bytes = vec![1, 2, 3, 4, 5, 6];
    swap_red_blue_opaque(&mut bytes);
    assert_eq!(bytes, [3, 2, 1, 255, 5, 6]);
}

#[test]
fn encodes_a_png_that_decodes_to_the_same_pixels() {
    let image = numbered(4, 3);
    let png = encode_png(&image).unwrap();
    assert!(png.starts_with(&[137, 80, 78, 71]));
    let decoded = image::load_from_memory(&png).unwrap().to_rgba8();
    assert_eq!((decoded.width(), decoded.height()), (4, 3));
    assert_eq!(decoded.into_raw(), image.to_rgba_bytes());
}
