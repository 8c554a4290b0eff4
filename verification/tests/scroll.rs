use snaprust::raster::Raster;
use snaprust::scroll::append_scrolled_frame_at_seam;
use snaprust::scroll::check_scroll_region;
use snaprust::scroll::find_bottom_fixed_band;
use snaprust::scroll::find_seam;
use snaprust::scroll::find_vertical_offset;
use snaprust::scroll::frames_match;
use snaprust::scroll::image_difference;
use snaprust::scroll::patch_fixed_rows;
use snaprust::scroll::ScrollCapture;
use snaprust::scroll::StitchFrameResult;

fn document_pixel(x: u32, y: u32) -> [u8; 4] {
    [
        ((x * 17 + y * 3) % 251) as u8,
        ((x * 5 + y * 11) % 241) as u8,
        ((x * 13 + y * 7) % 239) as u8,
        255,
    ]
}

fn document(width: u32, height: u32) -> Raster {
    let mut bytes = Vec::new();
    for y in 0..height {
        for x in 0..width {
            bytes.extend_from_slice(&document_pixel(x, y));
        }
    }
    Raster::from_rgba_bytes(width, height, &bytes).unwrap()
}

fn with_bar(frame: &Raster, from_row: u32, color: [u8; 4]) -> Raster {
    let mut bytes = frame.to_rgba_bytes();
    let width = frame.width() as usize;
    for y in from_row as usize..frame.height() as usize {
        for x in 0..width {
            let at = (y * width + x) * 4;
            bytes[at..at + 4].copy_from_slice(&color);
        }
    }
    Raster::from_rgba_bytes(frame.width(), frame.height(), &bytes).unwrap()
}

#[test]
fn finds_the_vertical_displacement_between_two_viewports() {
    let source = document(120, 500);
    let first = source.crop(0, 0, 120, 200);
    let second = source.crop(0, 120, 120, 200);
    let (offset, score) = find_vertical_offset(&first, &second).unwrap();
    assert_eq!(offset, 120);
    assert_eq!(score.difference, 0);
}

#[test]
fn appends_only_rows_that_are_new_after_scrolling() {
    let source = document(120, 500);
    let first = source.crop(0, 0, 120, 200);
    let second = source.crop(0, 120, 120, 200);
    let stitched = append_scrolled_frame_at_seam(first, &second, 120, 80).unwrap();
    assert_eq!((stitched.width(), stitched.height()), (120, 320));
    assert_eq!(stitched.to_rgba_bytes(), source.crop(0, 0, 120, 320).to_rgba_bytes());
}

#[test]
fn appends_using_a_seam_without_dropping_or_duplicating_rows() {
    let source = document(120, 500);
    let first = source.crop(0, 0, 120, 200);
    let second = source.crop(0, 120, 120, 200);
    let stitched = append_scrolled_frame_at_seam(first, &second, 120, 40).unwrap();
    assert_eq!((stitched.width(), stitched.height()), (120, 320));
    assert_eq!(stitched.to_rgba_bytes(), source.crop(0, 0, 120, 320).to_rgba_bytes());
}

#[test]
fn finds_a_large_manual_scroll_when_a_small_overlap_remains() {
    let source = document(120, 500);
    let first = source.crop(0, 0, 120, 200);
    let second = source.crop(0, 160, 120, 200);
    let (offset, score) = find_vertical_offset(&first, &second).unwrap();
    assert_eq!(offset, 160);
    assert_eq!(score.difference, 0);
}

#[test]
fn duplicate_frames_have_zero_difference() {
    let frame = document(80, 120);
    let score = image_difference(&frame, &frame, 0).unwrap();
    assert_eq!(score.difference, 0);
    assert!(score.samples > 0);
}

#[test]
fn detects_and_repairs_a_fixed_bottom_bar_before_stitching() {
    let source = document(120, 500);
    let bar = [238, 216, 170, 255];
    let first = with_bar(&source.crop(0, 0, 120, 200), 190, bar);
    let second = with_bar(&source.crop(0, 120, 120, 200), 190, bar);

    let band = find_bottom_fixed_band(&first, &second, 120).unwrap();
    assert_eq!(band, (190, 200));
    let mut stitched = first.copy();
    patch_fixed_rows(&mut stitched, &second, 0, 120, band.0, band.1).unwrap();
    assert_eq!(
        stitched.crop(0, 190, 120, 10).to_rgba_bytes(),
        source.crop(0, 190, 120, 10).to_rgba_bytes()
    );
}

#[test]
fn does_not_mark_a_normal_scrolling_document_as_fixed() {
    let source = document(120, 500);
    let first = source.crop(0, 0, 120, 200);
    let second = source.crop(0, 120, 120, 200);
    assert_eq!(find_bottom_fixed_band(&first, &second, 120), None);
}

#[test]
fn refuses_regions_too_small_to_scroll() {
    assert_eq!(
        check_scroll_region(31, 400).unwrap_err(),
        "滚动截图区域太小，请选择完整的可滚动内容区域"
    );
    assert!(check_scroll_region(32, 63).is_err());
    assert!(check_scroll_region(32, 64).is_ok());
}

#[test]
fn seams_fall_inside_the_overlap() {
    let source = document(120, 500);
    let first = source.crop(0, 0, 120, 200);
    let second = source.crop(0, 120, 120, 200);
    let seam = find_seam(&first, &second, 120);
    assert!(seam >= 8 && seam < 80);
    assert_eq!(find_seam(&first, &second, 198), 2);
}

#[test]
fn rejects_an_append_with_a_mismatched_width() {
    let first = document(100, 200);
    let second = document(120, 200);
    assert_eq!(
        append_scrolled_frame_at_seam(first, &second, 120, 40).unwrap_err(),
        "滚动截图拼接尺寸无效"
    );
}

#[test]
fn a_manual_scroll_is_stitched_once_the_frame_settles() {
    let source = document(120, 500);
    let first = source.crop(0, 0, 120, 200);
    let second = source.crop(0, 120, 120, 200);
    let mut capture = ScrollCapture::start(first.copy());
    assert!(capture.poll(first.copy()).unwrap());
    assert!(!capture.shows_new_content(&first));
    assert!(capture.poll(second.copy()).unwrap());
    assert_eq!(capture.segments(), 1);
    assert!(capture.poll(second.copy()).unwrap());
    assert_eq!(capture.segments(), 2);
    assert!(frames_match(&second, &second));
    let (image, segments) = capture.finish().unwrap();
    assert_eq!(segments, 2);
    assert_eq!(image.to_rgba_bytes(), source.crop(0, 0, 120, 320).to_rgba_bytes());
}

#[test]
fn a_capture_without_scrolling_is_refused() {
    let capture = ScrollCapture::start(document(120, 200));
    assert_eq!(
        capture.finish().unwrap_err(),
        "尚未记录滚动内容，请先向下滚动至少一次，再按 Enter 完成"
    );
}

#[test]
fn a_long_screenshot_stops_at_twenty_four_frames() {
    let source = document(120, 200 + 25 * 120);
    let frame = |index: u32| source.crop(0, index * 120, 120, 200);
    let mut capture = ScrollCapture::start(frame(0));
    for index in 1..24 {
        assert!(matches!(capture.stitch(frame(index)), Ok(StitchFrameResult::Accepted)));
    }
    assert_eq!(capture.segments(), 24);
    assert!(capture.is_full());
    assert!(matches!(capture.stitch(frame(24)), Ok(StitchFrameResult::LimitReached)));
    assert_eq!(capture.segments(), 24);
    let (image, segments) = capture.finish().unwrap();
    assert_eq!(segments, 24);
    assert_eq!(image.to_rgba_bytes(), source.crop(0, 0, 120, 200 + 23 * 120).to_rgba_bytes());
}
