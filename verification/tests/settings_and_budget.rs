use oxideterm::image_budget::{ImageCacheBudget, GLOBAL_IMAGE_CACHE_BYTES};
use oxideterm::settings_input::{settings_multiline_line_ranges, settings_multiline_line_selection, SettingsInputDraftApply};

#[test]
fn multiline_textarea_selection_maps_global_caret_to_line_offset() {
    let caret = 5..5;
    let (_selection, caret_offset) = settings_multiline_line_selection(Some(&caret), &(4..8));

    assert_eq!(caret_offset, Some(1));
}

#[test]
fn selections_are_clipped_to_the_line() {
    let selection = 2..6;
    let (range, caret) = settings_multiline_line_selection(Some(&selection), &(4..8));
    assert_eq!(range, Some(0..2));
    assert_eq!(caret, None);
    let (range, caret) = settings_multiline_line_selection(Some(&(9..12)), &(4..8));
    assert_eq!((range, caret), (None, None));
    let (range, caret) = settings_multiline_line_selection(Some(&(9..9)), &(4..8));
    assert_eq!((range, caret), (None, None));
    let (range, caret) = settings_multiline_line_selection(None, &(4..8));
    assert_eq!((range, caret), (None, None));
}

#[test]
fn draft_outcome_from_an_optional_update() {
    assert_eq!(SettingsInputDraftApply::from(Some(())), SettingsInputDraftApply::Applied);
    assert_eq!(SettingsInputDraftApply::from(None), SettingsInputDraftApply::Invalid);
}

#[test]
fn image_budget_admits_up_to_the_global_limit() {
    let mut budget = ImageCacheBudget::new();
    assert!(budget.try_reserve(0));
    assert_eq!(budget.reserved(), 0);
    assert!(!budget.try_reserve(GLOBAL_IMAGE_CACHE_BYTES + 1));
    assert!(budget.try_reserve(GLOBAL_IMAGE_CACHE_BYTES - 10));
    assert!(!budget.try_reserve(11));
    assert!(budget.try_reserve(10));
    assert_eq!(budget.reserved(), GLOBAL_IMAGE_CACHE_BYTES);
    budget.release(GLOBAL_IMAGE_CACHE_BYTES);
    assert_eq!(budget.reserved(), 0);
}

#[test]
fn multiline_textarea_ranges_keep_trailing_empty_line() {
    let ranges = settings_multiline_line_ranges("vim\n");
    let _: &String = &ranges[0].1;

    assert_eq!(ranges.len(), 2);
    assert_eq!(ranges[0].0, 0..3);
    assert_eq!(ranges[0].1.as_str(), "vim");
    assert_eq!(ranges[1].0, 4..4);
    assert!(ranges[1].1.is_empty());
}

#[test]
fn multiline_ranges_count_utf16_units() {
    let ranges = settings_multiline_line_ranges("a\u{1F600}\nb\n\nc");
    assert_eq!(ranges.len(), 4);
    assert_eq!(ranges[0].0, 0..3);
    assert_eq!(ranges[0].1.as_str(), "a\u{1F600}");
    assert_eq!(ranges[1].0, 4..5);
    assert_eq!(ranges[1].1.as_str(), "b");
    assert_eq!(ranges[2].0, 6..6);
    assert_eq!(ranges[3].0, 7..8);
    assert_eq!(ranges[3].1.as_str(), "c");
    let single = settings_multiline_line_ranges("");
    assert_eq!(single.len(), 1);
    assert_eq!(single[0].0, 0..0);
}
