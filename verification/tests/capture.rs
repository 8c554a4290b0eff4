use snaprust::capture::rotate_output;
use snaprust::capture::CaptureSession;
use snaprust::capture::CapturedScreen;
use snaprust::capture::DesktopBounds;
use snaprust::capture::FrameStyle;
use snaprust::capture::PhysicalSelectionRect;
use snaprust::capture::PixelRect;
use snaprust::capture::SelectionCropRect;
use snaprust::raster::Raster;
use snaprust::raster::Rgba;

fn desktop(x: i32, y: i32, width: u32, height: u32) -> DesktopBounds {
    DesktopBounds { x, y, width, height }
}

fn image_from_fn(width: u32, height: u32, pixel: impl Fn(u32, u32) -> [u8; 4]) -> Raster {
    let mut bytes = Vec::new();
    for y in 0..height {
        for x in 0..width {
            bytes.extend_from_slice(&pixel(x, y));
        }
    }
    Raster::from_rgba_bytes(width, height, &bytes).unwrap()
}

fn decode(png: &[u8]) -> image::RgbaImage {
    image::load_from_memory(png).unwrap().to_rgba8()
}

#[test]
fn exposes_capture_images_as_binary_png_without_embedding_them_in_metadata() {
    let mut session: CaptureSession<()> = CaptureSession::default();
    assert!(!session.is_active());
    session.replace(CapturedScreen {
        desktop: desktop(0, 0, 8, 6),
        image: Some(Raster::filled(8, 6, Rgba { r: 10, g: 20, b: 30, a: 255 })),
        selection: None,
        annotations: Vec::new(),
        rotation_quarters: 0,
    });
    assert!(session.is_active());
    assert_eq!(session.full_image_extent().unwrap(), (8, 6));

    let capture_png = session.capture_png().unwrap();
    assert!(capture_png.starts_with(&[137, 80, 78, 71]));
    assert_eq!(decode(&capture_png).dimensions(), (8, 6));

    session
        .select(PhysicalSelectionRect { x: 2, y: 1, width: 3, height: 4 })
        .unwrap();
    assert!(session.capture_png().is_err());
    assert_eq!(decode(&session.selected_png().unwrap()).dimensions(), (3, 4));

    session.clear();
    assert!(!session.is_active());
}

#[test]
fn maps_absolute_pixels_across_mixed_dpi_monitors_with_a_negative_origin() {
    let desktop = desktop(-1920, 0, 4480, 1440);
    let rect = PhysicalSelectionRect { x: -960, y: 100, width: 2240, height: 800 };

    assert_eq!(
        rect.to_pixel_rect(&desktop, 4480, 1440).unwrap(),
        PixelRect { x: 960, y: 100, width: 2240, height: 800 }
    );
}

#[test]
fn clamps_absolute_selection_to_the_virtual_desktop() {
    let desktop = desktop(-100, -20, 1000, 500);
    let rect = PhysicalSelectionRect { x: -200, y: -40, width: 250, height: 100 };

    assert_eq!(
        rect.to_pixel_rect(&desktop, 1000, 500).unwrap(),
        PixelRect { x: 0, y: 0, width: 150, height: 80 }
    );
}

#[test]
fn rejects_empty_or_outside_absolute_selection() {
    let desktop = desktop(0, 0, 100, 100);
    let empty = PhysicalSelectionRect { x: 1, y: 1, width: 0, height: 10 };
    let outside = PhysicalSelectionRect { x: 200, y: 200, width: 10, height: 10 };

    assert!(empty.to_pixel_rect(&desktop, 100, 100).is_err());
    assert!(outside.to_pixel_rect(&desktop, 100, 100).is_err());
}

#[test]
fn crop_dimensions_match_the_mapped_selection() {
    let image = Raster::filled(1_250, 625, Rgba { r: 0, g: 0, b: 0, a: 0 });
    let desktop = desktop(0, 0, image.width(), image.height());
    let rect = PhysicalSelectionRect { x: 0, y: 0, width: 1_250, height: 625 }
        .to_pixel_rect(&desktop, image.width(), image.height())
        .unwrap();
    let crop = image.crop(rect.x, rect.y, rect.width, rect.height);

    assert_eq!((crop.width(), crop.height()), (1_250, 625));
}

#[test]
fn crops_selected_pixels_and_resets_rotation() {
    let image = image_from_fn(4, 3, |x, y| [x as u8, y as u8, 0, 255]);
    let mut session: CaptureSession<()> = CaptureSession::default();
    session.replace(CapturedScreen {
        desktop: desktop(0, 0, 4, 3),
        image: None,
        selection: Some(image),
        annotations: Vec::new(),
        rotation_quarters: 0,
    });

    session.rotate_selection(1).unwrap();
    let payload = session
        .crop_selection(SelectionCropRect { x: 1, y: 1, width: 2, height: 1 })
        .unwrap();

    assert_eq!(payload, (2, 1));
    let cropped = decode(&session.selected_png().unwrap());
    assert_eq!(cropped.dimensions(), (2, 1));
    assert_eq!(cropped.get_pixel(0, 0).0, [1, 1, 0, 255]);
    assert_eq!(cropped.get_pixel(1, 0).0, [2, 1, 0, 255]);
    let (selection, quarters, frame) = session.output_source().unwrap();
    let rendered = rotate_output(&selection, quarters);
    assert_eq!((rendered.width(), rendered.height()), (2, 1));
    assert_eq!(frame, FrameStyle::Plain);
}

#[test]
fn rotates_rendered_selection_before_output() {
    let mut session: CaptureSession<()> = CaptureSession::default();
    session.replace(CapturedScreen {
        desktop: desktop(0, 0, 2, 1),
        image: None,
        selection: Some(Raster::from_rgba_bytes(2, 1, &[255, 0, 0, 255, 0, 0, 255, 255]).unwrap()),
        annotations: Vec::new(),
        rotation_quarters: 0,
    });

    session.rotate_selection(1).unwrap();
    let (selection, quarters, _) = session.output_source().unwrap();
    let rendered = rotate_output(&selection, quarters);
    assert_eq!((rendered.width(), rendered.height()), (1, 2));
    assert_eq!(rendered.pixel(0, 0), Rgba { r: 255, g: 0, b: 0, a: 255 });
    assert_eq!(rendered.pixel(0, 1), Rgba { r: 0, g: 0, b: 255, a: 255 });
}

#[test]
fn four_quarter_turns_give_the_selection_back() {
    let image = image_from_fn(3, 2, |x, y| [x as u8, y as u8, 7, 255]);
    let mut turned = image.copy();
    for _ in 0..4 {
        turned = rotate_output(&turned, 1);
    }
    assert_eq!(turned.to_rgba_bytes(), image.to_rgba_bytes());
}

#[test]
fn refuses_output_without_a_selection() {
    let session: CaptureSession<()> = CaptureSession::new();
    assert_eq!(session.output_source().unwrap_err(), "there is no active screen capture");
    assert!(session.raw_selection().is_err());
}

#[test]
fn turns_the_selection_left_and_right_by_quarters() {
    let mut session: CaptureSession<()> = CaptureSession::new();
    assert_eq!(session.rotate_selection(1).unwrap_err(), "there is no active screen capture");
    session.replace(CapturedScreen {
        desktop: desktop(0, 0, 3, 2),
        image: Some(Raster::filled(3, 2, Rgba { r: 1, g: 2, b: 3, a: 255 })),
        selection: None,
        annotations: Vec::new(),
        rotation_quarters: 0,
    });
    assert_eq!(session.rotation_quarters(), None);
    assert_eq!(session.rotate_selection(1).unwrap_err(), "select an area before rotating");

    session.replace(CapturedScreen {
        desktop: desktop(0, 0, 3, 2),
        image: None,
        selection: Some(Raster::filled(3, 2, Rgba { r: 1, g: 2, b: 3, a: 255 })),
        annotations: Vec::new(),
        rotation_quarters: 0,
    });
    let turned = session.rotate_selection(-1).unwrap();
    assert_eq!((turned.quarters, turned.width, turned.height), (3, 2, 3));
    assert_eq!(session.rotation_quarters(), Some(3));
    let turned = session.rotate_selection(6).unwrap();
    assert_eq!((turned.quarters, turned.width, turned.height), (1, 2, 3));
    let turned = session.rotate_selection(i32::MAX - 1).unwrap();
    assert_eq!(turned.quarters, 3);
}
