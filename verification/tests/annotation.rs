use snaprust::annotation::check_annotation_text;
use snaprust::annotation::check_brush_point_count;
use snaprust::annotation::mosaic;
use snaprust::annotation::Color;
use snaprust::raster::Raster;
use snaprust::raster::Rgba;

#[test]
fn parses_hex_colors_with_and_without_alpha() {
    assert_eq!(Color::parse("#ff0000").unwrap(), Color(Rgba { r: 255, g: 0, b: 0, a: 255 }));
    assert_eq!(Color::parse("00aa77").unwrap(), Color(Rgba { r: 0, g: 0xaa, b: 0x77, a: 255 }));
    assert_eq!(Color::parse("#10203040").unwrap(), Color(Rgba { r: 16, g: 32, b: 48, a: 64 }));
}

#[test]
fn rejects_malformed_colors() {
    assert_eq!(Color::parse("#fff").unwrap_err(), "annotation color must be #RRGGBB or #RRGGBBAA");
    assert_eq!(
        Color::parse("#gg0000").unwrap_err(),
        "annotation color contains non-hexadecimal characters"
    );
    assert_eq!(
        Color::parse("éé0000").unwrap_err(),
        "annotation color contains non-hexadecimal characters"
    );
    assert_eq!(Color::parse("#é000").unwrap_err(), "annotation color must be #RRGGBB or #RRGGBBAA");
    assert_eq!(Color::parse("#é0000").unwrap_err(), "annotation color contains non-hexadecimal characters");
    assert_eq!(
        Color::parse("#+f0000").unwrap_err(),
        "annotation color contains non-hexadecimal characters"
    );
    assert_eq!(
        Color::parse("#a€bc").unwrap_err(),
        "annotation color contains non-hexadecimal characters"
    );
    assert_eq!(
        Color::parse("éé00").unwrap_err(),
        "annotation color contains non-hexadecimal characters"
    );
}

#[test]
fn bounds_text_and_brush_annotations() {
    assert!(check_annotation_text("").is_err());
    assert!(check_annotation_text(&"字".repeat(512)).is_ok());
    assert!(check_annotation_text(&"字".repeat(513)).is_err());
    assert!(check_brush_point_count(0).is_err());
    assert!(check_brush_point_count(20_000).is_ok());
    assert!(check_brush_point_count(20_001).is_err());
}

#[test]
fn mosaic_replaces_each_block_with_its_average_color() {
    let mut bytes = Vec::new();
    for y in 0..4u32 {
        for x in 0..4u32 {
            bytes.extend_from_slice(&[(x * 20) as u8, (y * 20) as u8, 0, 255]);
        }
    }
    let image = Raster::from_rgba_bytes(4, 4, &bytes).unwrap();

    let image = mosaic(&image, 0, 0, 4, 4, 2);

    assert_eq!(image.pixel(0, 0), Rgba { r: 10, g: 10, b: 0, a: 255 });
    assert_eq!(image.pixel(0, 0), image.pixel(1, 1));
    assert_ne!(image.pixel(0, 0), image.pixel(2, 0));
}

#[test]
fn mosaic_cuts_blocks_at_the_area_and_image_edges() {
    let mut bytes = Vec::new();
    for y in 0..3u32 {
        for x in 0..5u32 {
            bytes.extend_from_slice(&[(x * 10) as u8, (y * 30) as u8, 9, 255]);
        }
    }
    let image = Raster::from_rgba_bytes(5, 3, &bytes).unwrap();
    let result = mosaic(&image, 1, 1, 9, 9, 3);
    assert_eq!(result.pixel(0, 0), image.pixel(0, 0));
    assert_eq!(result.pixel(0, 2), image.pixel(0, 2));
    assert_eq!(result.pixel(1, 1), Rgba { r: 20, g: 45, b: 9, a: 255 });
    assert_eq!(result.pixel(4, 2), Rgba { r: 40, g: 45, b: 9, a: 255 });
}
