use invokrum::{Cardinality, DomainError, Identifier, IdentifierSet, PackRelativePath, SelectionMap, SCHEMA_FAMILY};

fn id(value: &str) -> Identifier {
    Identifier::parse(value).expect("test identifier should be valid")
}

#[test]
fn schema_family_is_stable_and_versioned() {
    assert_eq!(SCHEMA_FAMILY, "invokrum.dev/v1");
    assert!(SCHEMA_FAMILY.ends_with("/v1"));
}

#[test]
fn identifiers_reject_empty_and_structural_characters() {
    assert!(matches!(Identifier::parse(""), Err(DomainError::InvalidIdentifier(_))));
    assert!(matches!(Identifier::parse("mode/read-only"), Err(DomainError::InvalidIdentifier(_))));
    assert_eq!(Identifier::parse("read-only").expect("identifier should be valid").as_str(), "read-only");
}

#[test]
fn pack_paths_reject_absolute_and_parent_segments() {
    assert!(PackRelativePath::parse("/etc/passwd").is_err());
    assert!(PackRelativePath::parse("overlays/../secret.md").is_err());
    assert_eq!(PackRelativePath::parse("overlays/core.md").expect("path should be valid").as_str(), "overlays/core.md");
}

#[test]
fn cardinality_rejects_inverted_bounds() {
    assert!(matches!(Cardinality::new(2, Some(1)), Err(DomainError::InvalidCardinality { .. })));
    let exactly_one = Cardinality::new(1, Some(1)).expect("cardinality should be valid");
    assert!(exactly_one.accepts(1));
    assert!(!exactly_one.accepts(0));
    assert!(!exactly_one.accepts(2));
}

#[test]
fn identifier_length_is_bounded_at_128_bytes() {
    let longest = "a".repeat(128);
    assert_eq!(Identifier::parse(&longest).expect("128 bytes are allowed").as_str(), longest);
    let too_long = "a".repeat(129);
    match Identifier::parse(&too_long) {
        Err(DomainError::InvalidIdentifier(text)) => assert_eq!(text, too_long),
        other => panic!("unexpected result {:?}", other),
    }
}

#[test]
fn identifier_accepts_ascii_letters_digits_and_marks_only() {
    assert_eq!(id("Core_2.v1-x").as_str(), "Core_2.v1-x");
    assert!(Identifier::parse("caf\u{e9}").is_err());
    assert!(Identifier::parse("two words").is_err());
    assert!(Identifier::parse("colon:").is_err());
}

#[test]
fn pack_paths_accept_nested_and_dotted_names() {
    assert!(PackRelativePath::parse("").is_err());
    assert!(PackRelativePath::parse("..").is_err());
    assert!(PackRelativePath::parse("a/..").is_err());
    assert!(PackRelativePath::parse("../a").is_err());
    assert_eq!(PackRelativePath::parse("a/..b/c").expect("dotted name is valid").as_str(), "a/..b/c");
    assert_eq!(PackRelativePath::parse("a/.hidden/b.md").expect("dot file is valid").as_str(), "a/.hidden/b.md");
}

#[test]
fn pack_paths_follow_the_portable_grammar() {
    for invalid in [
        "overlays\\core.md",
        "c:core.md",
        "./core.md",
        "overlays/./core.md",
        "overlays//core.md",
        "overlays/",
        "overlays/.",
        "/",
    ] {
        match PackRelativePath::parse(invalid) {
            Err(DomainError::InvalidPackRelativePath(text)) => assert_eq!(text, invalid),
            other => panic!("unexpected result {:?} for {}", other, invalid),
        }
    }
}

#[test]
fn cardinality_bounds_are_inclusive_and_optional() {
    let open = Cardinality::new(2, None).expect("open upper bound");
    assert_eq!(open.minimum(), 2);
    assert_eq!(open.maximum(), None);
    assert!(!open.accepts(1));
    assert!(open.accepts(2));
    assert!(open.accepts(1000));
    match Cardinality::new(3, Some(2)) {
        Err(DomainError::InvalidCardinality { minimum, maximum }) => {
            assert_eq!(minimum, 3);
            assert_eq!(maximum, Some(2));
        }
        other => panic!("unexpected result {:?}", other),
    }
}

#[test]
fn identifier_set_keeps_sorted_unique_members() {
    let mut set = IdentifierSet::new();
    assert!(set.insert(id("mode")));
    assert!(set.insert(id("core")));
    assert!(!set.insert(id("mode")));
    assert!(set.insert(id("Zeta")));
    assert_eq!(set.len(), 3);
    assert_eq!(set.get(0).as_str(), "Zeta");
    assert_eq!(set.get(1).as_str(), "core");
    assert_eq!(set.get(2).as_str(), "mode");
    assert!(set.contains(&id("core")));
    assert!(!set.contains(&id("quality")));
}

#[test]
fn selection_map_replaces_and_orders_by_class() {
    let mut map = SelectionMap::new();
    assert!(map.insert(id("mode"), vec![id("review")]).is_none());
    assert!(map.insert(id("core"), vec![id("core-default")]).is_none());
    let previous = map.insert(id("mode"), vec![id("security")]).expect("mode was present");
    assert_eq!(previous.len(), 1);
    assert_eq!(previous[0].as_str(), "review");
    assert_eq!(map.len(), 2);
    assert_eq!(map.class_at(0).as_str(), "core");
    assert_eq!(map.class_at(1).as_str(), "mode");
    assert_eq!(map.selection_at(1)[0].as_str(), "security");
    assert_eq!(map.get(&id("mode")).expect("mode is present")[0].as_str(), "security");
    assert!(map.get(&id("quality")).is_none());
}

#[test]
fn domain_error_messages_follow_the_debug_layout() {
    assert_eq!(DomainError::EmptySchemaFamily.message(), "EmptySchemaFamily");
    assert_eq!(DomainError::DuplicateClassOrder(10).message(), "DuplicateClassOrder(10)");
    assert_eq!(
        DomainError::InvalidIdentifier("bad \"id\"".to_owned()).message(),
        "InvalidIdentifier(\"bad \\\"id\\\"\")"
    );
    assert_eq!(
        DomainError::InvalidCardinality { minimum: 2, maximum: Some(1) }.message(),
        "InvalidCardinality { minimum: 2, maximum: Some(1) }"
    );
    assert_eq!(
        DomainError::DuplicateIdentifier { kind: "class", identifier: id("core") }.message(),
        format!("{:?}", DomainError::DuplicateIdentifier { kind: "class", identifier: id("core") })
    );
    let mismatch = DomainError::OverlayClassMismatch { overlay: id("read-only"), expected: id("core"), actual: id("mode") };
    assert_eq!(mismatch.message(), format!("{:?}", mismatch));
    let violation = DomainError::CardinalityViolation { profile: id("p"), class: id("c"), count: 12345 };
    assert_eq!(violation.message(), "CardinalityViolation { profile: Identifier(\"p\"), class: Identifier(\"c\"), count: 12345 }");
}

#[test]
fn collections_do_not_depend_on_insertion_order() {
    let mut forward = IdentifierSet::new();
    let mut backward = IdentifierSet::new();
    for name in ["b", "a", "c"] {
        forward.insert(id(name));
    }
    for name in ["c", "a", "b"] {
        backward.insert(id(name));
    }
    let list = |set: &IdentifierSet| (0..set.len()).map(|i| set.get(i).as_str().to_owned()).collect::<Vec<_>>();
    assert_eq!(list(&forward), list(&backward));

    let mut first = SelectionMap::new();
    first.insert(id("mode"), vec![id("review")]);
    first.insert(id("core"), vec![id("base")]);
    let mut second = SelectionMap::new();
    second.insert(id("core"), vec![id("base")]);
    second.insert(id("mode"), vec![id("review")]);
    for i in 0..2 {
        assert_eq!(first.class_at(i).as_str(), second.class_at(i).as_str());
        assert_eq!(first.selection_at(i)[0].as_str(), second.selection_at(i)[0].as_str());
    }
}

#[test]
fn cardinality_upper_bound_never_below_lower() {
    let bounds = Cardinality::new(3, Some(3)).expect("equal bounds are valid");
    assert_eq!(bounds.maximum(), Some(3));
    assert!(bounds.accepts(3));
    assert!(!bounds.accepts(4));
}
