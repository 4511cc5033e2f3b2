use sd_immich_tagger::api::{
    endpoint_url, is_create_accepted, link_tags_request, is_success_status, is_write_accepted, normalize_base_url,
    CreateTagRequest, Endpoint, KnownTag, LinkTagsRequest, TagResolver, TagStep,
    UpdateAssetsRequest,
};

fn strings(items: &[&str]) -> Vec<String> {
    items.iter().map(|s| s.to_string()).collect()
}

fn known(name: &str, id: &str) -> KnownTag {
    KnownTag { name: name.to_string(), id: id.to_string() }
}

#[test]
fn normalizes_the_base_url() {
    assert_eq!(normalize_base_url("http://host:2283///"), "http://host:2283");
    assert_eq!(normalize_base_url("http://host"), "http://host");
    assert_eq!(normalize_base_url("///"), "");
    let once = normalize_base_url("http://h/x/");
    assert_eq!(normalize_base_url(&once), once);
}

#[test]
fn builds_endpoint_urls() {
    let base = "http://h";
    assert_eq!(endpoint_url(base, &Endpoint::SearchMetadata), "http://h/api/search/metadata");
    assert_eq!(
        endpoint_url(base, &Endpoint::AssetOriginal("abc".to_string())),
        "http://h/api/assets/abc/original"
    );
    assert_eq!(endpoint_url(base, &Endpoint::Assets), "http://h/api/assets");
    assert_eq!(endpoint_url(base, &Endpoint::Tags), "http://h/api/tags");
    assert_eq!(endpoint_url(base, &Endpoint::TagAssets), "http://h/api/tags/assets");
}

#[test]
fn classifies_statuses() {
    assert!(is_success_status(200));
    assert!(is_success_status(299));
    assert!(!is_success_status(199));
    assert!(!is_success_status(300));
    assert!(!is_success_status(404));
    for ok in [200, 201, 204] {
        assert!(is_write_accepted(ok));
    }
    assert!(!is_write_accepted(202));
    assert!(is_create_accepted(200));
    assert!(is_create_accepted(201));
    assert!(!is_create_accepted(204));
}

#[test]
fn builds_request_bodies() {
    let update = UpdateAssetsRequest::new("a1", "desc");
    assert_eq!(update.ids, strings(&["a1"]));
    assert_eq!(update.description, "desc");
    let create = CreateTagRequest::new("cat");
    assert_eq!(create.name, "cat");
    assert_eq!(create.tag_type, "CUSTOM");
    let link = LinkTagsRequest::new("a1", &strings(&["t1", "t2"]));
    assert_eq!(link.tag_ids, strings(&["t1", "t2"]));
    assert_eq!(link.asset_ids, strings(&["a1"]));
}

#[test]
fn resolver_reuses_known_tags_and_creates_the_rest() {
    let names = strings(&["cat", "dog", "cat", "bird"]);
    let mut resolver = TagResolver::new(&names);
    assert!(resolver.needs_tag_list());
    resolver.add_known(known("dog", "id-old-dog"));
    resolver.add_known(known("dog", "id-dog"));

    match resolver.next_step() {
        TagStep::Create(name) => assert_eq!(name, "cat"),
        TagStep::Done => panic!("cat is unknown"),
    }
    resolver.record_created(Some(known("cat", "id-cat")));
    // "dog" and the second "cat" are known now; "bird" is not.
    match resolver.next_step() {
        TagStep::Create(name) => assert_eq!(name, "bird"),
        TagStep::Done => panic!("bird is unknown"),
    }
    // A failed creation is passed over.
    resolver.record_created(None);
    assert!(matches!(resolver.next_step(), TagStep::Done));
    assert!(resolver.is_done());
    assert_eq!(resolver.into_ids(), strings(&["id-cat", "id-dog", "id-cat"]));
}

#[test]
fn resolver_with_no_names_needs_nothing() {
    let mut resolver = TagResolver::new(&[]);
    assert!(!resolver.needs_tag_list());
    assert!(matches!(resolver.next_step(), TagStep::Done));
    assert!(resolver.into_ids().is_empty());
}

#[test]
fn resolver_truncates_long_names_before_lookup() {
    let long = "t".repeat(130);
    let cut = format!("{}...", "t".repeat(97));
    let mut resolver = TagResolver::new(&[long]);
    resolver.add_known(known(&cut, "id-long"));
    assert!(matches!(resolver.next_step(), TagStep::Done));
    assert_eq!(resolver.into_ids(), strings(&["id-long"]));
}

#[test]
fn no_link_request_without_tag_ids() {
    assert!(link_tags_request("a1", &[]).is_none());
    let req = link_tags_request("a1", &strings(&["t"])).unwrap();
    assert_eq!(req.tag_ids, strings(&["t"]));
    assert_eq!(req.asset_ids, strings(&["a1"]));
}

#[test]
fn resolver_cuts_names_at_a_character_boundary() {
    // Byte 97 falls inside the second three-byte character: the cut moves back to byte 95.
    let name = format!("{}{}", "x".repeat(92), "\u{3042}".repeat(5));
    let cut = format!("{}\u{3042}...", "x".repeat(92));
    let mut resolver = TagResolver::new(&[name]);
    resolver.add_known(known(&cut, "id-cut"));
    assert!(matches!(resolver.next_step(), TagStep::Done));
    assert_eq!(resolver.into_ids(), strings(&["id-cut"]));
}
