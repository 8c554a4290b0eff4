use snaprust::pin::clamp_native_axis;
use snaprust::pin::hud_position;
use snaprust::pin::target_outer_extent;
use snaprust::pin::PinStore;
use snaprust::pin::ScreenRect;
use snaprust::pin::HUD_GAP;
use snaprust::pin::HUD_HEIGHT;
use snaprust::pin::HUD_TEXT_COLOR;
use snaprust::pin::HUD_TRANSPARENT_COLOR;
use snaprust::pin::HUD_WIDTH;
use snaprust::raster::Raster;
use snaprust::raster::Rgba;

#[test]
fn converts_target_inner_extent_to_the_native_outer_extent() {
    assert_eq!(target_outer_extent(376, 376, 378).unwrap(), 378);
    assert_eq!(target_outer_extent(250, 250, 252).unwrap(), 252);
    assert_eq!(target_outer_extent(100, 101, 100).unwrap(), 100);
    assert!(target_outer_extent(u32::MAX, 1, 2).is_err());
}

#[test]
fn keeps_native_zoomed_windows_reachable_inside_the_work_area() {
    assert_eq!(clamp_native_axis(-50, 500, 0, 1920, 64), 0);
    assert_eq!(clamp_native_axis(1600, 500, 0, 1920, 64), 1420);
    assert_eq!(clamp_native_axis(-3000, 2400, 0, 1920, 64), -2336);
    assert_eq!(clamp_native_axis(3000, 2400, 0, 1920, 64), 1856);
}

#[test]
fn keeps_black_hud_text_distinct_from_the_transparent_color_key() {
    assert_eq!(HUD_TEXT_COLOR, 0);
    assert_ne!(HUD_TEXT_COLOR, HUD_TRANSPARENT_COLOR);
}

#[test]
fn keeps_the_hud_outside_the_image_and_inside_the_work_area() {
    let work = ScreenRect { left: 0, top: 0, right: 1920, bottom: 1040 };
    let image = ScreenRect { left: 400, top: 300, right: 900, bottom: 650 };
    let (x, y) = hud_position(image, work);
    assert_eq!(x + HUD_WIDTH, image.right);
    assert_eq!(y + HUD_HEIGHT + HUD_GAP, image.top);

    let top_edge_image = ScreenRect { left: 400, top: 2, right: 900, bottom: 352 };
    let (_, fallback_y) = hud_position(top_edge_image, work);
    assert_eq!(fallback_y, top_edge_image.bottom + HUD_GAP);
}

#[test]
fn stores_and_removes_pinned_images() {
    let mut store = PinStore::default();
    let image = Raster::filled(320, 180, Rgba { r: 0, g: 0, b: 0, a: 0 });
    let label = store.insert(&image).unwrap();

    let stored = store.metadata(&label).unwrap();
    assert_eq!((stored.width, stored.height), (320, 180));
    let png = store.png(&label).unwrap();
    assert!(png.starts_with(&[137, 80, 78, 71]));
    let decoded = image::load_from_memory(&png).unwrap();
    assert_eq!((decoded.width(), decoded.height()), (320, 180));

    store.remove(&label);
    assert!(store.metadata(&label).is_err());
}

#[test]
fn labels_pins_in_order_and_keeps_them_apart() {
    let mut store = PinStore::new();
    let first = store.insert_native(10, 20);
    let second = store.insert_native(30, 40);
    assert_eq!(first, "pin-1");
    assert_eq!(second, "pin-2");
    assert!(store.contains("pin-1"));
    assert!(!store.contains("pin-01"));
    assert!(store.png("pin-2").unwrap().is_empty());
    store.remove("pin-1");
    assert!(!store.contains("pin-1"));
    assert_eq!(store.metadata("pin-2").unwrap().width, 30);
    assert_eq!(store.metadata("pin-9").unwrap_err(), "pinned capture does not exist: pin-9");
}

#[test]
fn keeps_a_window_narrower_than_the_work_area_inside_it() {
    assert_eq!(clamp_native_axis(100, 500, -1920, 1920, 64), -500);
    assert_eq!(clamp_native_axis(-1000, 500, -1920, 1920, 64), -1000);
}
