use sd_immich_tagger::api::{MetadataSearchRequest, DEFAULT_CUTOFF_DATE, PAGE_SIZE};
use sd_immich_tagger::immich::{
    has_empty_description, is_before_cutoff, is_candidate, is_favorite_asset, is_png_asset,
    parse_cutoff, parse_datetime, timestamp_before, Asset, ExifInfo, Timestamp,
};

fn asset(
    name: &str,
    description: Option<&str>,
    is_favorite: bool,
    file_created_at: Option<&str>,
) -> Asset {
    Asset {
        id: "id".to_string(),
        original_file_name: Some(name.to_string()),
        description: description.map(str::to_string),
        exif_info: None,
        is_favorite,
        file_created_at: file_created_at.map(str::to_string),
    }
}

fn asset_with_exif_description(name: &str, exif_description: Option<&str>) -> Asset {
    Asset {
        id: "id".to_string(),
        original_file_name: Some(name.to_string()),
        description: None,
        exif_info: Some(ExifInfo {
            description: exif_description.map(str::to_string),
        }),
        is_favorite: true,
        file_created_at: Some("2026-06-19T12:00:00+09:00".to_string()),
    }
}

#[test]
fn detects_png_and_empty_description() {
    assert!(is_png_asset(&asset("foo.PNG", None, true, None)));
    assert!(!is_png_asset(&asset("foo.jpg", None, true, None)));
    assert!(has_empty_description(&asset("foo.png", None, true, None)));
    assert!(!has_empty_description(&asset(
        "foo.png",
        Some("exists"),
        true,
        None
    )));
}

#[test]
fn detects_favorite_assets() {
    assert!(is_favorite_asset(&asset("foo.png", None, true, None)));
    assert!(!is_favorite_asset(&asset("foo.png", None, false, None)));
}

#[test]
fn detects_assets_before_cutoff() {
    let cutoff = parse_datetime(DEFAULT_CUTOFF_DATE).unwrap();

    assert!(is_before_cutoff(
        &asset(
            "foo.png",
            None,
            true,
            Some("2026-06-19T23:59:59+09:00")
        ),
        &cutoff
    ));
    assert!(!is_before_cutoff(
        &asset(
            "foo.png",
            None,
            true,
            Some("2026-06-20T00:00:00+09:00")
        ),
        &cutoff
    ));
    assert!(!is_before_cutoff(&asset("foo.png", None, true, None), &cutoff));
    assert!(!is_before_cutoff(
        &asset("foo.png", None, true, Some("not-a-date")),
        &cutoff
    ));
}

#[test]
fn detects_empty_description_from_exif_info() {
    assert!(has_empty_description(&asset_with_exif_description(
        "foo.png", None
    )));
    assert!(has_empty_description(&asset_with_exif_description(
        "foo.png",
        Some("")
    )));
    assert!(has_empty_description(&asset_with_exif_description(
        "foo.png",
        Some("   ")
    )));
    assert!(!has_empty_description(&asset_with_exif_description(
        "foo.png",
        Some("already set")
    )));
}

#[test]
fn treats_missing_exif_info_as_empty_description() {
    assert!(has_empty_description(&asset("foo.png", None, true, None)));
}

#[test]
fn search_request_includes_favorite_and_cutoff_filters() {
    let body = MetadataSearchRequest::new(1, DEFAULT_CUTOFF_DATE);
    assert_eq!(body.asset_type, "IMAGE");
    assert!(body.is_favorite);
    assert_eq!(body.taken_before, DEFAULT_CUTOFF_DATE);
    assert!(body.with_exif);
    assert_eq!(body.page, 1);
    assert_eq!(body.size, PAGE_SIZE);
}

#[test]
fn png_detection_needs_the_extension_at_the_end() {
    assert!(is_png_asset(&asset("a.pNg", None, true, None)));
    assert!(!is_png_asset(&asset("png", None, true, None)));
    assert!(!is_png_asset(&asset("a.png.jpg", None, true, None)));
    assert!(!is_png_asset(&asset("a_png", None, true, None)));
    let mut unnamed = asset("a.png", None, true, None);
    unnamed.original_file_name = None;
    assert!(!is_png_asset(&unnamed));
}

#[test]
fn exif_description_takes_precedence_over_the_asset_one() {
    let mut a = asset_with_exif_description("foo.png", Some("set"));
    a.description = Some(String::new());
    assert!(!has_empty_description(&a));
    // Without an EXIF description, the asset's own one counts.
    let mut b = asset_with_exif_description("foo.png", None);
    b.description = Some("own".to_string());
    assert!(!has_empty_description(&b));
    let mut c = asset_with_exif_description("foo.png", Some("\u{2003}\t"));
    c.description = Some("ignored".to_string());
    assert!(has_empty_description(&c));
}

#[test]
fn compares_instants_across_offsets() {
    let cutoff = parse_datetime("2026-06-20T00:00:00+09:00").unwrap();
    let utc_before = parse_datetime("2026-06-19T14:59:59.999Z").unwrap();
    let utc_same = parse_datetime("2026-06-19T15:00:00Z").unwrap();
    assert_eq!(utc_same.secs, cutoff.secs);
    assert!(timestamp_before(&utc_before, &cutoff));
    assert!(!timestamp_before(&utc_same, &cutoff));
    assert!(!timestamp_before(&cutoff, &utc_before));
    let a = Timestamp { secs: 5, nanos: 1 };
    let b = Timestamp { secs: 5, nanos: 2 };
    assert!(timestamp_before(&a, &b));
    assert!(!timestamp_before(&b, &a));
}

#[test]
fn parses_the_cutoff_after_trimming() {
    let cutoff = parse_cutoff("  2026-01-01T00:00:00+09:00\n").unwrap();
    assert_eq!(cutoff.secs, 1767193200);
    assert_eq!(cutoff.nanos, 0);
    assert!(parse_cutoff("2026-01-01").is_none());
}

#[test]
fn candidates_need_every_condition() {
    let cutoff = parse_datetime(DEFAULT_CUTOFF_DATE).unwrap();
    let good = asset("x.png", None, true, Some("2026-01-01T00:00:00Z"));
    assert!(is_candidate(&good, &cutoff));
    assert!(!is_candidate(&asset("x.jpg", None, true, Some("2026-01-01T00:00:00Z")), &cutoff));
    assert!(!is_candidate(&asset("x.png", Some("d"), true, Some("2026-01-01T00:00:00Z")), &cutoff));
    assert!(!is_candidate(&asset("x.png", None, false, Some("2026-01-01T00:00:00Z")), &cutoff));
    assert!(!is_candidate(&asset("x.png", None, true, Some("2027-01-01T00:00:00Z")), &cutoff));
}
