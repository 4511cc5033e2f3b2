use png::{BitDepth, ColorType};
use sd_immich_tagger::immich::{parse_datetime, Asset, SearchAssets};
use sd_immich_tagger::session::{
    is_last_page, plan_asset_update, required_setting, Admission, AssetPlan, ProcessOutcome, Scan,
    Summary,
};

fn png_with_parameters(text: &str) -> Vec<u8> {
    let mut output = Vec::new();
    {
        let mut encoder = png::Encoder::new(&mut output, 1, 1);
        encoder.set_color(ColorType::Rgba);
        encoder.set_depth(BitDepth::Eight);
        encoder
            .add_text_chunk("parameters".to_string(), text.to_string())
            .unwrap();
        let mut writer = encoder.write_header().unwrap();
        writer.write_image_data(&[0, 0, 0, 0]).unwrap();
    }
    output
}

fn asset(name: &str, favorite: bool) -> Asset {
    Asset {
        id: name.to_string(),
        original_file_name: Some(name.to_string()),
        description: None,
        exif_info: None,
        is_favorite: favorite,
        file_created_at: Some("2026-01-01T00:00:00Z".to_string()),
    }
}

fn page(items: Vec<Asset>, count: u32, next_page: Option<&str>) -> SearchAssets {
    SearchAssets { total: count, count, items, next_page: next_page.map(str::to_string) }
}

#[test]
fn summary_starts_at_zero() {
    let s = Summary::default();
    assert_eq!(
        (s.scanned, s.candidates, s.updated, s.skipped_no_metadata, s.failed),
        (0, 0, 0, 0, 0)
    );
}

#[test]
fn scan_counts_and_respects_the_limit() {
    let cutoff = parse_datetime("2026-06-20T00:00:00+09:00").unwrap();
    let mut scan = Scan::new(Some(2));
    assert_eq!(scan.page(), 1);
    let results = page(
        vec![asset("a.png", true), asset("b.jpg", true), asset("c.png", true), asset("d.png", true)],
        4,
        None,
    );
    assert!(scan.begin_page(&results));
    assert!(matches!(scan.consider(&results.items[0], &cutoff), Admission::Process));
    scan.record(&ProcessOutcome::Updated { tag_count: 3 });
    assert!(matches!(scan.consider(&results.items[1], &cutoff), Admission::Skip));
    assert!(matches!(scan.consider(&results.items[2], &cutoff), Admission::Process));
    scan.record(&ProcessOutcome::SkippedNoMetadata);
    assert!(matches!(scan.consider(&results.items[3], &cutoff), Admission::Stop));
    let s = scan.summary();
    assert_eq!(
        (s.scanned, s.candidates, s.updated, s.skipped_no_metadata, s.failed),
        (4, 3, 1, 1, 0)
    );
    assert!(!scan.finish_page(&results));
}

#[test]
fn scan_records_only_admitted_assets() {
    let mut scan = Scan::new(None);
    scan.record(&ProcessOutcome::Failed);
    assert_eq!(scan.summary().failed, 0);
    let cutoff = parse_datetime("2026-06-20T00:00:00+09:00").unwrap();
    assert!(matches!(scan.consider(&asset("x.png", true), &cutoff), Admission::Process));
    scan.record(&ProcessOutcome::Failed);
    scan.record(&ProcessOutcome::Failed);
    assert_eq!(scan.summary().failed, 1);
}

#[test]
fn scan_pages_until_the_last_one() {
    let mut scan = Scan::new(None);
    assert!(!scan.begin_page(&page(Vec::new(), 0, None)));
    let full = page(vec![asset("a.png", false)], 1000, None);
    assert!(scan.begin_page(&full));
    assert!(scan.finish_page(&full));
    assert_eq!(scan.page(), 2);
    let with_next = page(vec![asset("a.png", false)], 1, Some("3"));
    assert!(scan.finish_page(&with_next));
    assert_eq!(scan.page(), 3);
    let last = page(vec![asset("a.png", false)], 999, None);
    assert!(!scan.finish_page(&last));
    assert_eq!(scan.page(), 3);
    assert_eq!(scan.summary().scanned, 1000);
}

#[test]
fn plans_updates_from_png_parameters() {
    match plan_asset_update(&png_with_parameters("cat, (dog:1.1), <lora:x:1>"), false) {
        Some(AssetPlan::Write { description, tags, link_tags }) => {
            assert_eq!(description, "cat, (dog:1.1), <lora:x:1>");
            assert_eq!(tags, vec!["<lora:x>".to_string(), "dog".to_string(), "cat".to_string()]);
            assert!(link_tags);
        }
        _ => panic!("expected a write"),
    }
    match plan_asset_update(&png_with_parameters("cat"), true) {
        Some(AssetPlan::Preview { description, tags }) => {
            assert_eq!(description, "cat");
            assert_eq!(tags, vec!["cat".to_string()]);
        }
        _ => panic!("expected a preview"),
    }
    match plan_asset_update(&png_with_parameters("Negative prompt: cat"), false) {
        Some(AssetPlan::Write { tags, link_tags, .. }) => {
            assert!(tags.is_empty());
            assert!(!link_tags);
        }
        _ => panic!("expected a write without tags"),
    }
    assert!(matches!(
        plan_asset_update(&png_with_parameters(" \n\t "), false),
        Some(AssetPlan::SkipNoMetadata)
    ));
    assert!(matches!(plan_asset_update(b"not a png", true), Some(AssetPlan::SkipNoMetadata)));
}

#[test]
fn detects_the_last_page() {
    assert!(is_last_page(&page(Vec::new(), 0, None)));
    assert!(!is_last_page(&page(Vec::new(), 1000, None)));
    assert!(!is_last_page(&page(Vec::new(), 3, Some("2"))));
}

#[test]
fn requires_non_blank_settings() {
    assert_eq!(required_setting(Some("http://h".to_string())), Some("http://h".to_string()));
    assert_eq!(required_setting(Some(" \t".to_string())), None);
    assert_eq!(required_setting(None), None);
}
