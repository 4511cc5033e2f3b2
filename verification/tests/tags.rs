use sd_immich_tagger::tags::{assemble_tags, extract_tags_from_info, truncate_tag_name};

fn strings(items: &[&str]) -> Vec<String> {
    items.iter().map(|s| s.to_string()).collect()
}

#[test]
fn extracts_lora_weight_and_comma_tags() {
    let info = "masterpiece, <lora:style:0.8>, (detailed eyes:1.2), Negative prompt: bad";
    let tags = extract_tags_from_info(info).unwrap();
    assert_eq!(
        tags,
        vec![
            "<lora:style>".to_string(),
            "detailed eyes".to_string(),
            "masterpiece".to_string(),
        ]
    );
}

#[test]
fn ignores_escaped_parentheses() {
    let info = r"\(escaped:1.2), real, (weighted:1.0)";
    let tags = extract_tags_from_info(info).unwrap();
    assert_eq!(
        tags,
        vec![
            "weighted".to_string(),
            r"\(escaped:1.2)".to_string(),
            "real".to_string(),
        ]
    );
}

#[test]
fn returns_empty_for_blank_input() {
    assert!(extract_tags_from_info("").unwrap().is_empty());
}

#[test]
fn truncates_long_tag_names() {
    let long = "a".repeat(120);
    let truncated = truncate_tag_name(&long);
    assert_eq!(truncated.len(), 100);
    assert!(truncated.ends_with("..."));
}

#[test]
fn keeps_names_within_the_limit() {
    let exact = "b".repeat(100);
    assert_eq!(truncate_tag_name(&exact), exact);
    assert_eq!(truncate_tag_name("short"), "short");
}

#[test]
fn truncation_counts_bytes_and_is_idempotent() {
    // 94 ASCII bytes, then three-byte characters: byte 97 starts the second one.
    let name = format!("{}{}", "x".repeat(94), "\u{3042}".repeat(5));
    assert_eq!(name.len(), 109);
    let once = truncate_tag_name(&name);
    assert_eq!(once, format!("{}\u{3042}...", "x".repeat(94)));
    assert_eq!(once.len(), 100);
    assert_eq!(truncate_tag_name(&once), once);
}

#[test]
fn drops_repeated_tags_keeping_the_first() {
    let info = "a, b, a, (b:1.0), <lora:b:1>, <lora:b:0.5>";
    let tags = extract_tags_from_info(info).unwrap();
    assert_eq!(tags, strings(&["<lora:b>", "b", "a"]));
}

#[test]
fn collapses_white_space_inside_parts() {
    let info = "  long \t\n  tag ,\u{3000}other\u{3000}\u{3000}word ,  ,";
    let tags = extract_tags_from_info(info).unwrap();
    assert_eq!(tags, strings(&["long tag", "other word"]));
}

#[test]
fn only_the_prompt_before_the_first_negative_marker_counts() {
    let info = "cat, Negative prompt: dog, Negative prompt: bird";
    assert_eq!(extract_tags_from_info(info).unwrap(), strings(&["cat"]));
    let info = "Negative prompt: dog";
    assert!(extract_tags_from_info(info).unwrap().is_empty());
}

#[test]
fn weighted_group_edge_cases() {
    // No weight after the colon still counts as a weighted group.
    assert_eq!(extract_tags_from_info("(tag:)").unwrap(), strings(&["tag"]));
    // The last colon splits tag from weight.
    assert_eq!(extract_tags_from_info("(a:b:2)").unwrap(), strings(&["a:b"]));
    // A weight with other characters is no weighted group: the text stays.
    assert_eq!(extract_tags_from_info("(a:x1)").unwrap(), strings(&["(a:x1)"]));
    // An empty tag is no weighted group either.
    assert_eq!(extract_tags_from_info("(:1.0)").unwrap(), strings(&["(:1.0)"]));
    // A tag that trims to nothing is taken out but not kept.
    assert_eq!(extract_tags_from_info("( :1.0), z").unwrap(), strings(&["z"]));
    // An escaped closing parenthesis does not close the group.
    assert_eq!(
        extract_tags_from_info(r"(a\):1), b").unwrap(),
        strings(&[r"a\)", "b"])
    );
    // A doubly escaped parenthesis is not escaped.
    assert_eq!(
        extract_tags_from_info(r"\\(w:1), c").unwrap(),
        strings(&["w", r"\\", "c"])
    );
    // An unclosed group stays as text.
    assert_eq!(extract_tags_from_info("(open:1").unwrap(), strings(&["(open:1"]));
}

#[test]
fn lora_references_become_tags_and_leave_the_prompt() {
    let info = "<lora: spaced name :0.7>x, <lora:other:1>";
    let tags = extract_tags_from_info(info).unwrap();
    assert_eq!(tags, strings(&["<lora:spaced name>", "<lora:other>", "x"]));
    // A malformed reference is left as text.
    let info = "<lora:noweight>";
    assert_eq!(extract_tags_from_info(info).unwrap(), strings(&["<lora:noweight>"]));
}

#[test]
fn assembles_tags_from_regex_results() {
    let captures = vec![Some("  n1 ".to_string()), None, Some(" ".to_string()), Some("n1".to_string())];
    let tags = assemble_tags(&captures, "p, (w:1), q, p");
    assert_eq!(tags, strings(&["<lora:n1>", "w", "p", "q"]));
    assert!(assemble_tags(&Vec::new(), "").is_empty());
}

#[test]
fn truncation_cuts_back_to_a_character_boundary() {
    // 95 ASCII bytes, then three-byte characters: byte 97 lies inside the first one.
    let name = format!("{}{}", "x".repeat(95), "\u{3042}".repeat(5));
    let cut = truncate_tag_name(&name);
    assert_eq!(cut, format!("{}...", "x".repeat(95)));
    assert!(cut.len() <= 100);
    assert!(name.starts_with(&cut[..cut.len() - 3]));
    assert_eq!(truncate_tag_name(&cut), cut);
    // A name of multi-byte characters only.
    let wide = "\u{1f600}".repeat(30);
    let cut = truncate_tag_name(&wide);
    assert_eq!(cut, format!("{}...", "\u{1f600}".repeat(24)));
    assert!(cut.len() <= 100);
}

#[test]
fn text_after_the_negative_marker_never_adds_tags() {
    let p = "a, (b:1), <lora:c:1>";
    for n in ["", "d, (e:1)", "<lora:f:1>, Negative prompt: g"] {
        let info = format!("{p}Negative prompt:{n}");
        assert_eq!(extract_tags_from_info(&info), extract_tags_from_info(p));
    }
}
