use snaprust::ocr::available_languages;
use snaprust::ocr::check_ocr_source;
use snaprust::ocr::explicit_language_tag;
use snaprust::ocr::line_text;
use snaprust::ocr::ocr_content_limit;
use snaprust::ocr::ocr_padding;
use snaprust::ocr::padded_recognition_size;

#[test]
fn rejects_control_characters_in_explicit_language_tags() {
    let error = explicit_language_tag(Some("en-US\0invalid")).unwrap_err();
    assert!(error.contains("invalid"));
}

#[test]
fn uses_profile_languages_when_no_tag_is_named() {
    assert_eq!(explicit_language_tag(None).unwrap(), None);
    assert_eq!(explicit_language_tag(Some("  ")).unwrap(), None);
    assert_eq!(explicit_language_tag(Some("zh-Hans-CN")).unwrap(), Some("zh-Hans-CN".to_owned()));
    assert!(explicit_language_tag(Some(&"a".repeat(129))).is_err());
}

#[test]
fn joins_the_words_of_a_line() {
    let words: Vec<String> = ["Hello", " ", "world", ""].iter().map(|w| w.to_string()).collect();
    assert_eq!(line_text(&words), "Hello world");
    assert_eq!(line_text(&[]), "");
}

#[test]
fn sizes_the_padded_recognition_image() {
    assert_eq!(ocr_padding(0), 16);
    assert_eq!(ocr_padding(2_600), 16);
    assert_eq!(ocr_padding(21), 10);
    assert_eq!(ocr_content_limit(1_000, 16), 968);
    assert_eq!(ocr_content_limit(0, 16), u32::MAX);
    assert_eq!(ocr_content_limit(20, 10), 1);
    assert_eq!(padded_recognition_size(800, 400, 16).unwrap(), (832, 432));
    assert_eq!(
        padded_recognition_size(u32::MAX, 1, 16).unwrap_err(),
        "OCR image padding would make the image too wide"
    );
    assert_eq!(
        padded_recognition_size(1, u32::MAX - 10, 16).unwrap_err(),
        "OCR image padding would make the image too tall"
    );
    assert!(check_ocr_source(0, 5).is_err());
    assert!(check_ocr_source(5, 5).is_ok());
}

#[test]
fn reports_that_recognition_needs_windows() {
    assert_eq!(available_languages().unwrap_err(), "OCR is currently available only on Windows");
}

use snaprust::raster::{Raster, Rgba};

#[test]
fn pads_content_with_its_edge_color_under_a_large_limit() {
    let background = Rgba { r: 24, g: 32, b: 40, a: 255 };
    let content = Raster::filled(800, 400, background);
    let padding = ocr_padding(2_600);
    assert_eq!(padding, 16);
    assert_eq!(padded_recognition_size(content.width(), content.height(), padding).unwrap(), (832, 432));
    assert_eq!(content.edge_average_color(), background);
}

#[test]
fn limits_content_to_the_engine_size_less_padding() {
    let padding = ocr_padding(1_300);
    assert_eq!(ocr_content_limit(1_300, padding), 1_268);
    assert_eq!(padded_recognition_size(1_268, 127, padding).unwrap(), (1_300, 159));
}

#[test]
fn keeps_full_padding_under_a_small_limit() {
    let padding = ocr_padding(1_000);
    assert_eq!(ocr_content_limit(1_000, padding), 968);
    assert_eq!(padded_recognition_size(968, 484, padding).unwrap(), (1_000, 516));
}

#[test]
fn flattens_transparent_pixels_before_recognition() {
    let image = Raster::filled(1, 1, Rgba { r: 0, g: 0, b: 0, a: 0 });
    let flattened = image.flatten_transparency();
    assert_eq!(flattened.pixel(0, 0), Rgba { r: 255, g: 255, b: 255, a: 255 });
    assert_eq!(flattened.edge_average_color(), Rgba { r: 255, g: 255, b: 255, a: 255 });
}
