use invokrum::strict::{
    bounded_message, classify_decode, is_document_marker, mapping_key_marker, trim_start_chars, validate_yaml_subset,
    yaml_control_surface, yaml_line_fault, PreflightError, DUPLICATE_MAPPING_KEY_MARKER, MERGE_MAPPING_KEY_MARKER,
};
use invokrum::YamlFeature;

fn chars(text: &str) -> Vec<char> {
    text.chars().collect()
}

fn surface(line: &str) -> String {
    yaml_control_surface(&chars(line)).into_iter().collect()
}

fn rejected(input: &str) -> Option<YamlFeature> {
    match validate_yaml_subset(input) {
        Ok(()) => None,
        Err(PreflightError::UnsupportedYamlFeature(feature)) => Some(feature),
        Err(other) => panic!("unexpected error {:?}", other),
    }
}

#[test]
fn control_surface_blanks_quotes_and_drops_comments() {
    assert_eq!(surface("key: 'a&b' # note"), format!("key:{}", " ".repeat(7)));
    assert_eq!(surface("key: \"x\\\"*\" rest"), format!("key:{}rest", " ".repeat(8)));
    assert_eq!(surface("key: 'it''s' !"), format!("key:{}!", " ".repeat(9)));
    assert_eq!(surface("a#b"), "a#b");
    assert_eq!(surface("# only a comment"), "");
}

#[test]
fn excluded_yaml_features_are_named() {
    assert_eq!(rejected("%YAML 1.2\n"), Some(YamlFeature::Directive));
    assert_eq!(rejected("a: 1\n...\n"), Some(YamlFeature::DocumentEndMarker));
    assert_eq!(rejected("<<: *base\n"), Some(YamlFeature::MergeKey));
    assert_eq!(rejected("x: &anchor 1\n"), Some(YamlFeature::Anchor));
    assert_eq!(rejected("x: *alias\n"), Some(YamlFeature::Alias));
    assert_eq!(rejected("x: !tag 1\n"), Some(YamlFeature::Tag));
    assert_eq!(rejected("x: |\n  text\n"), Some(YamlFeature::BlockScalar));
    assert_eq!(rejected("x: >\n"), Some(YamlFeature::BlockScalar));
    assert_eq!(rejected("? key\n"), Some(YamlFeature::ExplicitMappingKey));
}

#[test]
fn quoted_and_commented_features_are_allowed() {
    assert_eq!(rejected("x: 'a & b * c ! d | e > f ? g'\n"), None);
    assert_eq!(rejected("x: 1 # & * ! | > ?\n"), None);
    assert_eq!(rejected("schema: invokrum.dev/v1\nid: example\r\nclasses: []"), None);
    assert_eq!(rejected(""), None);
    assert_eq!(rejected("...more: 1\n"), None);
}

#[test]
fn the_first_offending_line_decides() {
    assert_eq!(rejected("a: 1\nb: &x 2\nc: *x\n"), Some(YamlFeature::Anchor));
    assert_eq!(rejected("a: *x &y\n"), Some(YamlFeature::Anchor));
    assert_eq!(rejected("ok: 1\n... \n%TAG\n"), Some(YamlFeature::DocumentEndMarker));
}

#[test]
fn document_markers_need_whitespace_or_the_end() {
    let marker = chars("...");
    assert!(is_document_marker(&chars("..."), &marker));
    assert!(is_document_marker(&chars("...\tend"), &marker));
    assert!(!is_document_marker(&chars("....."), &marker));
    assert!(!is_document_marker(&chars(".."), &marker));
    assert_eq!(trim_start_chars(&chars(" \u{3000}\tx y")), chars("x y"));
    assert_eq!(yaml_line_fault(&chars("   %x")), Some(YamlFeature::Directive));
    assert_eq!(yaml_line_fault(&chars("a: b")), None);
}

#[test]
fn decoder_diagnostics_are_classified() {
    let duplicate = format!("line 3: {}", DUPLICATE_MAPPING_KEY_MARKER);
    assert!(matches!(
        classify_decode("yaml", &duplicate),
        PreflightError::DuplicateMappingKey { format: "yaml" }
    ));
    let merge = format!("{} at line 1", MERGE_MAPPING_KEY_MARKER);
    assert!(matches!(
        classify_decode("yaml", &merge),
        PreflightError::UnsupportedYamlFeature(YamlFeature::MergeKey)
    ));
    match classify_decode("json", "expected value") {
        PreflightError::Decode { format, message } => {
            assert_eq!(format, "json");
            assert_eq!(message, "expected value");
        }
        other => panic!("unexpected result {:?}", other),
    }
}

#[test]
fn long_diagnostics_are_cut_with_an_ellipsis() {
    let exact = "x".repeat(512);
    assert_eq!(bounded_message(&exact), exact);
    let long = "\u{e9}".repeat(600);
    let bounded = bounded_message(&long);
    assert_eq!(bounded.chars().count(), 513);
    assert!(bounded.ends_with('\u{2026}'));
    assert!(bounded.starts_with(&"\u{e9}".repeat(512)));
}

#[test]
fn yaml_feature_names_are_stable() {
    assert_eq!(YamlFeature::Directive.name(), "directive");
    assert_eq!(YamlFeature::DocumentEndMarker.name(), "document end marker");
    assert_eq!(YamlFeature::Tag.name(), "explicit tag");
    assert_eq!(YamlFeature::ExplicitMappingKey.name(), "explicit mapping key");
}

#[test]
fn mapping_keys_are_marked_for_merges_and_repeats() {
    let earlier = vec!["schema".to_owned(), "id".to_owned()];
    assert_eq!(mapping_key_marker("<<", &earlier), Some(MERGE_MAPPING_KEY_MARKER));
    assert_eq!(mapping_key_marker("id", &earlier), Some(DUPLICATE_MAPPING_KEY_MARKER));
    assert_eq!(mapping_key_marker("classes", &earlier), None);
    assert_eq!(mapping_key_marker("<<", &Vec::new()), Some(MERGE_MAPPING_KEY_MARKER));
}
