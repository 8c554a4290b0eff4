use snaprust::history::csv_field;
use snaprust::history::decode_tags;
use snaprust::history::encode_tags;
use snaprust::history::export_directory_name;
use snaprust::history::export_filename;
use snaprust::history::export_layout;
use snaprust::history::history_filename;
use snaprust::history::history_usage;
use snaprust::history::is_removable_history_file;
use snaprust::history::is_safe_image_filename;
use snaprust::history::normalize_batch_ids;
use snaprust::history::normalize_ocr_text;
use snaprust::history::normalize_tags;
use snaprust::history::normalized_query;
use snaprust::history::reconcile_entries;
use snaprust::history::retention_plan;
use snaprust::history::search_pattern;
use snaprust::history::HistoryEntry;
use snaprust::history::RetentionEntry;
use snaprust::history::MAX_HISTORY_IMAGE_BYTES;
use snaprust::history::MAX_HISTORY_ITEMS;

fn strings(values: &[&str]) -> Vec<String> {
    values.iter().map(|value| value.to_string()).collect()
}

#[test]
fn trims_and_deduplicates_tags_ignoring_ascii_case() {
    let tags = normalize_tags(&strings(&["代码", " OCR ", "代码", "ocr", "", "  "])).unwrap();
    assert_eq!(tags, ["代码", "OCR"]);
}

#[test]
fn refuses_tags_with_commas_control_characters_or_too_many_characters() {
    let message = "each history tag must be at most 48 characters and cannot contain commas or control characters";
    assert_eq!(normalize_tags(&strings(&["a,b"])).unwrap_err(), message);
    assert_eq!(normalize_tags(&strings(&["全角，逗号"])).unwrap_err(), message);
    assert_eq!(normalize_tags(&strings(&["tab\tinside"])).unwrap_err(), message);
    assert_eq!(normalize_tags(&strings(&[&"x".repeat(49)])).unwrap_err(), message);
    assert!(normalize_tags(&strings(&[&"x".repeat(48)])).is_ok());
    let cjk = "标签".repeat(10);
    assert_eq!(normalize_tags(&strings(&[&cjk])).unwrap(), [cjk.clone()]);
    assert!(normalize_tags(&strings(&[&"字".repeat(48)])).is_ok());
    assert_eq!(normalize_tags(&strings(&[&"字".repeat(49)])).unwrap_err(), message);
}

#[test]
fn refuses_more_than_twelve_tags() {
    let many: Vec<String> = (0..13).map(|index| format!("tag{index}")).collect();
    assert_eq!(normalize_tags(&many).unwrap_err(), "a screenshot can have at most 12 tags");
    assert_eq!(normalize_tags(&many[..12]).unwrap().len(), 12);
}

#[test]
fn stored_tags_are_read_back_unchanged() {
    let tags = normalize_tags(&strings(&["代码", "分享", "OCR"])).unwrap();
    let stored = encode_tags(&tags);
    assert_eq!(stored, "代码,分享,OCR");
    assert_eq!(decode_tags(&stored), tags);
    assert!(decode_tags("").is_empty());
    assert_eq!(decode_tags(",a,,b,"), ["a", "b"]);
}

#[test]
fn batch_ids_keep_their_first_order_once_each() {
    assert_eq!(normalize_batch_ids(vec![3, 1, 3, 2, 1]).unwrap(), [3, 1, 2]);
    assert_eq!(normalize_batch_ids(vec![1, 0]).unwrap_err(), "history entry id must be positive");
    assert_eq!(normalize_batch_ids(vec![]).unwrap_err(), "select at least one history entry");
    let too_many: Vec<i64> = (1..=201).collect();
    assert_eq!(
        normalize_batch_ids(too_many).unwrap_err(),
        "batch history actions are limited to 200 entries"
    );
    let repeated: Vec<i64> = (1..=200).chain(1..=200).collect();
    assert_eq!(normalize_batch_ids(repeated).unwrap().len(), 200);
}

#[test]
fn ocr_text_and_queries_are_trimmed_and_bounded() {
    assert_eq!(normalize_ocr_text(Some("  Rust OCR history \n")).unwrap(), Some("Rust OCR history".to_owned()));
    assert_eq!(normalize_ocr_text(Some("   ")).unwrap(), None);
    assert_eq!(normalize_ocr_text(None).unwrap(), None);
    let oversized = "x".repeat(1_000_001);
    assert_eq!(
        normalize_ocr_text(Some(&oversized)).unwrap_err(),
        "OCR text is too large to save in screenshot history"
    );
    assert!(normalize_ocr_text(Some(&"x".repeat(1_000_000))).is_ok());
    assert_eq!(normalized_query(Some(" OCR ")).unwrap(), Some("OCR".to_owned()));
    assert_eq!(normalized_query(Some(&"q".repeat(257))).unwrap_err(), "history search query is too long");
    assert_eq!(search_pattern("OCR"), "%OCR%");
}

#[test]
fn accepts_only_history_image_names() {
    assert!(is_safe_image_filename("1700000000000-0.png"));
    assert!(is_safe_image_filename("-.png"));
    assert!(!is_safe_image_filename(".png"));
    assert!(!is_safe_image_filename("../1-0.png"));
    assert!(!is_safe_image_filename("1-0.PNG"));
    assert!(!is_safe_image_filename("1-0.png.tmp"));
    let name = history_filename(1_700_000_000_000, 7);
    assert_eq!(name, "1700000000000-7.png");
    assert!(is_safe_image_filename(&name));
    assert!(is_safe_image_filename(&history_filename(-5, 0)));
}

#[test]
fn quotes_csv_fields() {
    assert_eq!(csv_field("OCR, export"), "\"OCR, export\"");
    assert_eq!(csv_field("say \"hi\""), "\"say \"\"hi\"\"\"");
    assert_eq!(csv_field(""), "\"\"");
    assert_eq!(csv_field("a\"b"), "\"a\"\"b\"");
}

fn read_csv_field(field: &str) -> Option<String> {
    let inner = field.strip_prefix('"')?.strip_suffix('"')?;
    let mut value = String::new();
    let mut chars = inner.chars();
    while let Some(c) = chars.next() {
        if c == '"' {
            if chars.next() != Some('"') {
                return None;
            }
        }
        value.push(c);
    }
    Some(value)
}

#[test]
fn csv_fields_read_back_as_their_values() {
    for value in ["", "plain", "a,b", "say \"hi\"", "\"\"", "line\nbreak", "代码,分享"] {
        assert_eq!(read_csv_field(&csv_field(value)).as_deref(), Some(value));
    }
}

#[test]
fn lays_out_an_export_with_numbered_files_and_csv_metadata() {
    let first = HistoryEntry {
        id: 5,
        filename: "1-0.png".to_owned(),
        width: 5,
        height: 3,
        created_at_ms: 1_000,
        favorite: true,
        ocr_text: None,
        tags: Vec::new(),
    };
    let second = HistoryEntry {
        id: 4,
        filename: "1-1.png".to_owned(),
        width: 9,
        height: 7,
        created_at_ms: 900,
        favorite: false,
        ocr_text: Some("OCR, export".to_owned()),
        tags: strings(&["代码", "分享"]),
    };
    let (names, metadata) = export_layout(&[first, second]);
    assert_eq!(names, ["001-5.png", "002-4.png"]);
    assert!(metadata.starts_with('\u{feff}'));
    assert_eq!(
        metadata,
        "\u{feff}id,filename,width,height,created_at_ms,favorite,tags,ocr_text\r\n\
         5,\"001-5.png\",5,3,1000,1,\"\",\"\"\r\n\
         4,\"002-4.png\",9,7,900,0,\"代码,分享\",\"OCR, export\"\r\n"
    );
    assert_eq!(export_filename(1234, -2), "1234--2.png");
    assert_eq!(export_directory_name(42, 0), "SnapRust-42");
    assert_eq!(export_directory_name(42, 3), "SnapRust-42-3");
}

#[test]
fn cleans_the_oldest_unfavorited_entries_first() {
    let first = RetentionEntry { id: 1, favorite: false, image_bytes: 100 };
    let favorite = RetentionEntry { id: 2, favorite: true, image_bytes: 100 };
    let newest = RetentionEntry { id: 3, favorite: false, image_bytes: 100 };
    assert_eq!(retention_plan(&[first, favorite, newest], 2, u64::MAX), [1]);
    assert_eq!(retention_plan(&[favorite, newest], 10, 100), [3]);
    assert!(retention_plan(&[first, favorite, newest], 3, 300).is_empty());
    assert!(retention_plan(&[favorite, favorite], 0, 0).is_empty());
    assert_eq!(retention_plan(&[first, newest], 0, 0), [1, 3]);
}

#[test]
fn reports_usage_without_overflowing() {
    let usage = history_usage(&[
        RetentionEntry { id: 1, favorite: false, image_bytes: u64::MAX - 1 },
        RetentionEntry { id: 2, favorite: false, image_bytes: 5 },
    ]);
    assert_eq!(usage.item_count, 2);
    assert_eq!(usage.image_bytes, u64::MAX);
    assert_eq!(usage.max_items, MAX_HISTORY_ITEMS);
    assert_eq!(usage.max_image_bytes, MAX_HISTORY_IMAGE_BYTES);
}

#[test]
fn removes_temporary_and_orphaned_history_files() {
    let referenced = strings(&["1-0.png"]);
    assert!(is_removable_history_file("999999999999-0.png", &referenced));
    assert!(!is_removable_history_file("1-0.png", &referenced));
    assert!(is_removable_history_file("999999999999-1.png.tmp", &referenced));
    assert!(is_removable_history_file("1-0.deleting", &referenced));
    assert!(!is_removable_history_file("notes.txt", &referenced));
    assert!(!is_removable_history_file("photo.png", &referenced));
    assert!(!is_removable_history_file(".tmp", &referenced));
}

#[test]
fn reconciles_missing_images_and_refuses_unsafe_names() {
    let plan = reconcile_entries(&[1, 2], &strings(&["1-0.png", "1-1.png"]), &[false, true]).unwrap();
    assert_eq!(plan.missing_ids, [1]);
    assert_eq!(plan.image_names, ["1-0.png", "1-1.png"]);
    assert_eq!(plan.thumbnail_names, ["1-1.png"]);
    assert!(reconcile_entries(&[1], &strings(&["../x.png"]), &[true]).is_err());
}

#[test]
fn normalizing_tags_twice_changes_nothing() {
    let once = normalize_tags(&strings(&["  Rust ", "", "rust", "代码", " OCR", "ocr"])).unwrap();
    assert_eq!(once, strings(&["Rust", "代码", "OCR"]));
    assert_eq!(normalize_tags(&once).unwrap(), once);
}
