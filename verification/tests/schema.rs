use invokrum::schema::{
    check_schema_bounds, ensure_supported_schema, parse_identifier_set, ClassDocument, OverlayDocument, PackDocument, ProfileDocument,
    SensitivityDocument, VariableDocument,
};
use invokrum::strict::PreflightError;
use invokrum::{DomainError, OverlayPack, SchemaError, Sensitivity, YamlFeature};

fn class(id: &str, order: u32, minimum: usize, maximum: Option<usize>) -> ClassDocument {
    ClassDocument { id: id.to_owned(), order, minimum, maximum }
}

fn overlay(id: &str, class: &str, source: &str, incompatible: Vec<&str>) -> OverlayDocument {
    OverlayDocument {
        id: id.to_owned(),
        class: class.to_owned(),
        source: source.to_owned(),
        incompatible_with: incompatible.into_iter().map(str::to_owned).collect(),
    }
}

fn document(schema: &str) -> PackDocument {
    PackDocument {
        schema: schema.to_owned(),
        id: "example".to_owned(),
        classes: vec![class("mode", 20, 0, Some(2)), class("core", 10, 1, Some(1))],
        overlays: vec![
            overlay("core-default", "core", "overlays/core.md", vec![]),
            overlay("review", "mode", "overlays/review.md", vec!["security"]),
            overlay("security", "mode", "overlays/security.md", vec![]),
        ],
        profiles: vec![ProfileDocument {
            id: "governed".to_owned(),
            selections: vec![
                ("mode".to_owned(), vec!["security".to_owned()]),
                ("core".to_owned(), vec!["core-default".to_owned()]),
            ],
        }],
        variables: vec![VariableDocument { name: "token".to_owned(), sensitivity: SensitivityDocument::Secret }],
    }
}

#[test]
fn unsupported_schema_is_reported_before_future_fields_are_decoded() {
    let mut doc = document("invokrum.dev/v2");
    doc.classes.push(class("not valid!", 1, 0, None));
    match OverlayPack::try_from(doc) {
        Err(SchemaError::UnsupportedSchema(schema)) => assert_eq!(schema, "invokrum.dev/v2"),
        other => panic!("unexpected result {:?}", other),
    }
    assert!(ensure_supported_schema("invokrum.dev/v1").is_ok());
    assert!(matches!(ensure_supported_schema(""), Err(SchemaError::UnsupportedSchema(_))));
}

#[test]
fn duplicate_incompatibility_entries_are_rejected_instead_of_deduplicated() {
    let duplicate = PackDocument {
        schema: "invokrum.dev/v1".to_owned(),
        id: "example".to_owned(),
        classes: vec![class("mode", 10, 0, None)],
        overlays: vec![overlay("read-only", "mode", "overlays/read-only.md", vec!["read-only", "read-only"])],
        profiles: Vec::new(),
        variables: Vec::new(),
    };
    match OverlayPack::try_from(duplicate) {
        Err(SchemaError::DuplicateListValue { field, value }) => {
            assert_eq!(field, "overlays[].incompatible_with");
            assert_eq!(value.as_str(), "read-only");
        }
        other => panic!("unexpected result {:?}", other),
    }
}

#[test]
fn identifier_sets_parse_sorted_and_refuse_repeats() {
    let values = vec!["mode".to_owned(), "core".to_owned()];
    let set = parse_identifier_set(&values, "field").expect("distinct values");
    assert_eq!(set.len(), 2);
    assert_eq!(set.get(0).as_str(), "core");
    assert_eq!(set.get(1).as_str(), "mode");
    let repeated = vec!["a".to_owned(), "b".to_owned(), "a".to_owned()];
    assert!(matches!(
        parse_identifier_set(&repeated, "field"),
        Err(SchemaError::DuplicateListValue { field: "field", .. })
    ));
    let invalid = vec!["a".to_owned(), "no/slash".to_owned()];
    assert!(matches!(
        parse_identifier_set(&invalid, "field"),
        Err(SchemaError::Domain(DomainError::InvalidIdentifier(_)))
    ));
}

#[test]
fn optional_maximum_defaults_to_unbounded() {
    let doc = PackDocument {
        schema: "invokrum.dev/v1".to_owned(),
        id: "example".to_owned(),
        classes: vec![class("quality", 10, 0, None)],
        overlays: Vec::new(),
        profiles: Vec::new(),
        variables: Vec::new(),
    };
    let pack = OverlayPack::try_from(doc).expect("maximum should be optional");
    assert_eq!(pack.classes()[0].cardinality.maximum(), None);
}

#[test]
fn documents_translate_into_a_validated_pack_and_back() {
    let pack = OverlayPack::try_from(document("invokrum.dev/v1")).expect("document should be valid");
    let classes: Vec<_> = pack.classes().iter().map(|c| c.id.as_str().to_owned()).collect();
    assert_eq!(classes, vec!["core".to_owned(), "mode".to_owned()]);
    assert_eq!(pack.variables()[0].sensitivity, Sensitivity::Secret);

    let back = PackDocument::from(&pack);
    assert_eq!(back.schema, "invokrum.dev/v1");
    assert_eq!(back.id, "example");
    assert_eq!(back.classes[0].id, "core");
    assert_eq!(back.classes[0].order, 10);
    assert_eq!(back.classes[1].maximum, Some(2));
    assert_eq!(back.overlays[1].incompatible_with, vec!["security".to_owned()]);
    assert_eq!(back.profiles[0].selections[0].0, "core");
    assert_eq!(back.profiles[0].selections[1].1, vec!["security".to_owned()]);
    assert_eq!(back.variables[0].sensitivity, SensitivityDocument::Secret);

    let again = OverlayPack::try_from(back).expect("normalized document should be valid");
    let again_doc = PackDocument::from(&again);
    assert_eq!(format!("{:?}", again_doc), format!("{:?}", PackDocument::from(&pack)));
}

#[test]
fn domain_failures_surface_as_schema_errors() {
    let mut doc = document("invokrum.dev/v1");
    doc.classes[0].maximum = Some(0);
    doc.classes[0].minimum = 1;
    assert!(matches!(
        OverlayPack::try_from(doc),
        Err(SchemaError::Domain(DomainError::InvalidCardinality { minimum: 1, maximum: Some(0) }))
    ));
    let mut doc = document("invokrum.dev/v1");
    doc.overlays[0].source = "../escape.md".to_owned();
    assert!(matches!(
        OverlayPack::try_from(doc),
        Err(SchemaError::Domain(DomainError::InvalidPackRelativePath(_)))
    ));
}

#[test]
fn schema_error_messages_name_the_failure() {
    assert_eq!(SchemaError::UnsupportedSchema("x/v9".to_owned()).message(), "unsupported schema family: x/v9");
    assert_eq!(SchemaError::decode("json", "bad".to_owned()).message(), "invalid json: bad");
    assert_eq!(SchemaError::Encode("oops".to_owned()).message(), "failed to encode normalized JSON: oops");
    assert_eq!(
        SchemaError::Domain(DomainError::EmptySchemaFamily).message(),
        "invalid pack: EmptySchemaFamily"
    );
    let mut doc = document("invokrum.dev/v1");
    doc.overlays[1].incompatible_with = vec!["security".to_owned(), "security".to_owned()];
    let error = OverlayPack::try_from(doc).expect_err("duplicate should fail");
    assert_eq!(error.message(), "duplicate value `security` in overlays[].incompatible_with");
}

#[test]
fn only_domain_failures_have_a_source() {
    let domain = SchemaError::Domain(DomainError::EmptySchemaFamily);
    assert!(matches!(domain.source(), Some(DomainError::EmptySchemaFamily)));
    assert!(SchemaError::Encode("x".to_owned()).source().is_none());
}

#[test]
fn preflight_rejections_become_decode_failures() {
    assert_eq!(
        SchemaError::from_preflight(PreflightError::DuplicateMappingKey { format: "json" }).message(),
        "invalid json: duplicate mapping key"
    );
    assert_eq!(
        SchemaError::from_preflight(PreflightError::UnsupportedYamlFeature(YamlFeature::Anchor)).message(),
        "invalid yaml: unsupported YAML feature: anchor"
    );
    assert_eq!(
        SchemaError::from_preflight(PreflightError::MultipleYamlDocuments).message(),
        "invalid yaml: multiple YAML documents"
    );
    let decode = PreflightError::Decode { format: "yaml", message: "bad".to_owned() };
    assert!(matches!(SchemaError::from_preflight(decode), SchemaError::Decode { format: "yaml", .. }));
}

#[test]
fn documents_list_declarations_in_identifier_order() {
    let mut doc = document("invokrum.dev/v1");
    doc.overlays.reverse();
    doc.variables.push(VariableDocument { name: "author".to_owned(), sensitivity: SensitivityDocument::Public });
    let pack = OverlayPack::try_from(doc).expect("document should be valid");
    let back = PackDocument::from(&pack);
    let overlays: Vec<_> = back.overlays.iter().map(|o| o.id.as_str()).collect();
    assert_eq!(overlays, vec!["core-default", "review", "security"]);
    let variables: Vec<_> = back.variables.iter().map(|v| v.name.as_str()).collect();
    assert_eq!(variables, vec!["author", "token"]);
}

#[test]
fn cardinality_bounds_must_fit_the_schema_range() {
    assert!(check_schema_bounds(&document("invokrum.dev/v1")).is_ok());
    let mut doc = document("invokrum.dev/v1");
    doc.classes[0].maximum = Some(u32::MAX as usize);
    assert!(check_schema_bounds(&doc).is_ok());
    if usize::BITS > 32 {
        doc.classes[0].maximum = Some(u32::MAX as usize + 1);
        let error = check_schema_bounds(&doc).expect_err("bound out of range");
        assert_eq!(error.message(), "failed to encode normalized JSON: cardinality bound exceeds the 32-bit schema range");
    }
}
