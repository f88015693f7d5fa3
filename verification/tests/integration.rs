use std::cell::Cell;
use std::collections::BTreeMap;

use invokrum::{
    compose, Cardinality, CompositionError, CompositionLimits, DomainError, Identifier, IdentifierSet, Overlay,
    OverlayClass, OverlayPack, OverlaySource, PackRelativePath, Profile, SelectionMap, SourceFailure,
    SourceFailureKind, SCHEMA_FAMILY,
};

fn id(value: &str) -> Identifier {
    Identifier::parse(value).expect("test identifier should be valid")
}

fn path(value: &str) -> PackRelativePath {
    PackRelativePath::parse(value).expect("test path should be valid")
}

fn selections(entries: Vec<(&str, Vec<&str>)>) -> SelectionMap {
    let mut map = SelectionMap::new();
    for (class, overlays) in entries {
        map.insert(id(class), overlays.into_iter().map(id).collect());
    }
    map
}

fn overlay(name: &str, class: &str, source: &str, incompatible: Vec<&str>) -> Overlay {
    let mut set = IdentifierSet::new();
    for other in incompatible {
        set.insert(id(other));
    }
    Overlay { id: id(name), class: id(class), source: path(source), incompatible_with: set }
}

#[test]
fn public_schema_contract_is_available_to_consumers() {
    assert_eq!(SCHEMA_FAMILY, "invokrum.dev/v1");
}

#[test]
fn pack_construction_normalizes_declared_class_order() {
    let classes = vec![
        OverlayClass { id: id("quality"), order: 30, cardinality: Cardinality::new(0, None).expect("valid cardinality") },
        OverlayClass { id: id("core"), order: 10, cardinality: Cardinality::new(1, Some(1)).expect("valid cardinality") },
        OverlayClass { id: id("mode"), order: 20, cardinality: Cardinality::new(1, Some(1)).expect("valid cardinality") },
    ];
    let overlays = vec![
        overlay("core-default", "core", "overlays/core.md", vec![]),
        overlay("read-only", "mode", "overlays/read-only.md", vec![]),
    ];
    let profile = Profile {
        id: id("review"),
        selections: selections(vec![("core", vec!["core-default"]), ("mode", vec!["read-only"])]),
    };

    let pack = OverlayPack::new(id("example"), SCHEMA_FAMILY, classes, overlays, vec![profile], Vec::new())
        .expect("pack should be valid");

    let ordered: Vec<_> = pack.classes().iter().map(|class| class.id.as_str()).collect();
    assert_eq!(ordered, vec!["core", "mode", "quality"]);
}

#[test]
fn pack_rejects_profile_selection_from_the_wrong_class() {
    let classes = vec![
        OverlayClass { id: id("core"), order: 10, cardinality: Cardinality::new(0, None).expect("valid cardinality") },
        OverlayClass { id: id("mode"), order: 20, cardinality: Cardinality::new(0, None).expect("valid cardinality") },
    ];
    let overlays = vec![overlay("read-only", "mode", "overlays/read-only.md", vec![])];
    let profile = Profile { id: id("invalid"), selections: selections(vec![("core", vec!["read-only"])]) };

    let result = OverlayPack::new(id("example"), SCHEMA_FAMILY, classes, overlays, vec![profile], Vec::new());

    assert!(matches!(result, Err(DomainError::OverlayClassMismatch { .. })));
}

fn classes_for(order_core: u32, order_mode: u32) -> Vec<OverlayClass> {
    vec![
        OverlayClass { id: id("core"), order: order_core, cardinality: Cardinality::new(1, Some(1)).expect("valid cardinality") },
        OverlayClass { id: id("mode"), order: order_mode, cardinality: Cardinality::new(1, Some(2)).expect("valid cardinality") },
    ]
}

fn governed_pack(incompatible: Vec<&str>) -> OverlayPack {
    OverlayPack::new(
        id("example"),
        "invokrum.dev/v1",
        classes_for(10, 20),
        vec![
            overlay("core-default", "core", "overlays/core.md", vec![]),
            overlay("review", "mode", "overlays/review.md", incompatible),
            overlay("security", "mode", "overlays/security.md", vec![]),
        ],
        vec![Profile {
            id: id("governed-review"),
            selections: selections(vec![("core", vec!["core-default"]), ("mode", vec!["review", "security"])]),
        }],
        Vec::new(),
    )
    .expect("pack should be valid")
}

struct CountingSource {
    files: BTreeMap<String, Vec<u8>>,
    reads: Cell<usize>,
}

impl CountingSource {
    fn standard() -> Self {
        Self {
            files: BTreeMap::from([
                ("overlays/core.md".to_owned(), b"core".to_vec()),
                ("overlays/review.md".to_owned(), b"review".to_vec()),
                ("overlays/security.md".to_owned(), b"security".to_vec()),
            ]),
            reads: Cell::new(0),
        }
    }

    fn changed() -> Self {
        let mut source = Self::standard();
        source.files.insert("overlays/security.md".to_owned(), b"changed".to_vec());
        source
    }
}

impl OverlaySource for CountingSource {
    fn load(&self, source: &PackRelativePath, maximum_bytes: usize) -> Result<Vec<u8>, SourceFailure> {
        self.reads.set(self.reads.get() + 1);
        let bytes = match self.files.get(source.as_str()) {
            Some(bytes) => bytes,
            None => return Err(SourceFailure::new(source.clone(), SourceFailureKind::NotFound)),
        };
        if bytes.len() > maximum_bytes {
            return Err(SourceFailure::new(source.clone(), SourceFailureKind::TooLarge));
        }
        Ok(bytes.clone())
    }
}

#[test]
fn composition_orders_classes_then_profile_selection() {
    let pack = governed_pack(vec![]);
    let source = CountingSource::standard();
    let composition = compose(&pack, &id("governed-review"), &source, CompositionLimits::default())
        .expect("composition should succeed");
    assert_eq!(source.reads.get(), 3);
    assert_eq!(composition.normalized_context(), b"core\n\nreview\n\nsecurity");
    let manifest = composition.manifest();
    assert_eq!(manifest.entries.len(), 3);
    assert_eq!(manifest.entries[0].overlay.as_str(), "core-default");
    assert_eq!(manifest.entries[1].overlay.as_str(), "review");
    assert_eq!(manifest.entries[2].overlay.as_str(), "security");
    assert_eq!(manifest.entries[2].class.as_str(), "mode");
    assert_eq!(manifest.entries[2].source.as_str(), "overlays/security.md");
    assert_eq!(manifest.entries[2].byte_length, 8);
    assert_eq!(manifest.source_bytes, 18);
    assert_eq!(manifest.output_bytes, 22);
    assert_eq!(manifest.pack.as_str(), "example");
    assert_eq!(manifest.profile.as_str(), "governed-review");
    assert_eq!(manifest.schema_family, "invokrum.dev/v1");
    assert_eq!(composition.segments().len(), 3);
    assert_eq!(composition.segments()[1].bytes, b"review".to_vec());
}

#[test]
fn composition_uses_the_bytes_the_source_returns() {
    let pack = governed_pack(vec![]);
    let source = CountingSource::changed();
    let composition = compose(&pack, &id("governed-review"), &source, CompositionLimits::default())
        .expect("composition should succeed");
    assert_eq!(source.reads.get(), 3);
    assert_eq!(composition.normalized_context(), b"core\n\nreview\n\nchanged");
}

#[test]
fn composition_is_deterministic_for_the_same_inputs() {
    let pack = governed_pack(vec![]);
    let first = compose(&pack, &id("governed-review"), &CountingSource::standard(), CompositionLimits::default())
        .expect("first composition");
    let second = compose(&pack, &id("governed-review"), &CountingSource::standard(), CompositionLimits::default())
        .expect("second composition");
    assert_eq!(first.normalized_context(), second.normalized_context());
    assert_eq!(first.manifest().output_bytes, second.manifest().output_bytes);
}

#[test]
fn composition_rejects_an_unknown_profile_without_reading() {
    let pack = governed_pack(vec![]);
    let source = CountingSource::standard();
    match compose(&pack, &id("missing"), &source, CompositionLimits::default()) {
        Err(CompositionError::UnknownProfile(profile)) => assert_eq!(profile.as_str(), "missing"),
        other => panic!("unexpected result {:?}", other),
    }
    assert_eq!(source.reads.get(), 0);
}

#[test]
fn composition_rejects_incompatible_selection_before_reading() {
    let pack = governed_pack(vec!["security"]);
    let source = CountingSource::standard();
    match compose(&pack, &id("governed-review"), &source, CompositionLimits::default()) {
        Err(error @ CompositionError::IncompatibleOverlays { .. }) => {
            assert_eq!(error.message(), "overlay `review` is incompatible with `security`");
        }
        other => panic!("unexpected result {:?}", other),
    }
    assert_eq!(source.reads.get(), 0);
}

#[test]
fn composition_rejects_self_incompatibility() {
    let pack = governed_pack(vec!["review"]);
    let source = CountingSource::standard();
    assert!(matches!(
        compose(&pack, &id("governed-review"), &source, CompositionLimits::default()),
        Err(CompositionError::IncompatibleOverlays { .. })
    ));
}

#[test]
fn composition_enforces_overlay_count_limit() {
    let pack = governed_pack(vec![]);
    let source = CountingSource::standard();
    let limits = CompositionLimits::new(2, 1024, 1024);
    match compose(&pack, &id("governed-review"), &source, limits) {
        Err(error @ CompositionError::TooManyOverlays { .. }) => {
            assert_eq!(error.message(), "selected 3 overlays; maximum is 2");
        }
        other => panic!("unexpected result {:?}", other),
    }
    assert_eq!(source.reads.get(), 0);
}

#[test]
fn composition_enforces_overlay_and_output_byte_limits() {
    let pack = governed_pack(vec![]);
    let source = CountingSource::standard();
    match compose(&pack, &id("governed-review"), &source, CompositionLimits::new(8, 5, 1024)) {
        Err(CompositionError::Source(failure)) => {
            assert_eq!(failure.kind, SourceFailureKind::TooLarge);
            assert_eq!(failure.path.as_str(), "overlays/review.md");
        }
        other => panic!("unexpected result {:?}", other),
    }
    let source = CountingSource::standard();
    match compose(&pack, &id("governed-review"), &source, CompositionLimits::new(8, 1024, 21)) {
        Err(error @ CompositionError::OutputTooLarge { .. }) => {
            assert_eq!(error.message(), "normalized output requires 22 bytes; maximum is 21");
        }
        other => panic!("unexpected result {:?}", other),
    }
    assert_eq!(source.reads.get(), 3);
    let source = CountingSource::standard();
    assert!(compose(&pack, &id("governed-review"), &source, CompositionLimits::new(3, 8, 22)).is_ok());
}

#[test]
fn composition_reports_source_failures() {
    let pack = governed_pack(vec![]);
    let mut source = CountingSource::standard();
    source.files.remove("overlays/review.md");
    match compose(&pack, &id("governed-review"), &source, CompositionLimits::default()) {
        Err(error @ CompositionError::Source(_)) => {
            assert_eq!(error.message(), "overlay source was rejected: not found");
        }
        other => panic!("unexpected result {:?}", other),
    }
    assert_eq!(source.reads.get(), 2);
}

#[test]
fn empty_segments_keep_their_separators() {
    let pack = governed_pack(vec![]);
    let mut source = CountingSource::standard();
    source.files.insert("overlays/review.md".to_owned(), Vec::new());
    let composition = compose(&pack, &id("governed-review"), &source, CompositionLimits::default())
        .expect("composition should succeed");
    assert_eq!(composition.normalized_context(), b"core\n\n\n\nsecurity");
    assert_eq!(composition.manifest().output_bytes, 16);
}

#[test]
fn class_order_does_not_depend_on_declaration_order() {
    let forward = OverlayPack::new(id("example"), SCHEMA_FAMILY, classes_for(10, 20), Vec::new(), Vec::new(), Vec::new())
        .expect("forward pack");
    let mut reversed_classes = classes_for(10, 20);
    reversed_classes.reverse();
    let reversed = OverlayPack::new(id("example"), SCHEMA_FAMILY, reversed_classes, Vec::new(), Vec::new(), Vec::new())
        .expect("reversed pack");
    let names = |pack: &OverlayPack| pack.classes().iter().map(|c| c.id.as_str().to_owned()).collect::<Vec<_>>();
    assert_eq!(names(&forward), names(&reversed));
    assert_eq!(names(&forward), vec!["core".to_owned(), "mode".to_owned()]);
}

#[test]
fn pack_rejects_duplicate_class_orders_and_identifiers() {
    assert!(matches!(
        OverlayPack::new(id("example"), SCHEMA_FAMILY, classes_for(10, 10), Vec::new(), Vec::new(), Vec::new()),
        Err(DomainError::DuplicateClassOrder(10))
    ));
    let mut duplicated = classes_for(10, 20);
    duplicated.push(OverlayClass { id: id("core"), order: 30, cardinality: Cardinality::new(0, None).expect("valid") });
    match OverlayPack::new(id("example"), SCHEMA_FAMILY, duplicated, Vec::new(), Vec::new(), Vec::new()) {
        Err(DomainError::DuplicateIdentifier { kind, identifier }) => {
            assert_eq!(kind, "class");
            assert_eq!(identifier.as_str(), "core");
        }
        other => panic!("unexpected result {:?}", other),
    }
    assert!(matches!(
        OverlayPack::new(id("example"), "", classes_for(10, 20), Vec::new(), Vec::new(), Vec::new()),
        Err(DomainError::EmptySchemaFamily)
    ));
}

#[test]
fn pack_rejects_unknown_references_and_cardinality_violations() {
    let unknown_class = OverlayPack::new(
        id("example"),
        SCHEMA_FAMILY,
        classes_for(10, 20),
        vec![overlay("x", "quality", "x.md", vec![])],
        Vec::new(),
        Vec::new(),
    );
    assert!(matches!(unknown_class, Err(DomainError::UnknownClass { .. })));
    let unknown_reference = OverlayPack::new(
        id("example"),
        SCHEMA_FAMILY,
        classes_for(10, 20),
        vec![overlay("x", "core", "x.md", vec!["ghost"])],
        Vec::new(),
        Vec::new(),
    );
    assert!(matches!(unknown_reference, Err(DomainError::UnknownOverlayReference(_))));
    let too_few = OverlayPack::new(
        id("example"),
        SCHEMA_FAMILY,
        classes_for(10, 20),
        vec![overlay("x", "core", "x.md", vec![])],
        vec![Profile { id: id("p"), selections: selections(vec![("mode", vec![]), ("core", vec!["x"])]) }],
        Vec::new(),
    );
    match too_few {
        Err(DomainError::CardinalityViolation { profile, class, count }) => {
            assert_eq!(profile.as_str(), "p");
            assert_eq!(class.as_str(), "mode");
            assert_eq!(count, 0);
        }
        other => panic!("unexpected result {:?}", other),
    }
}

#[test]
fn pack_normalizes_overlays_profiles_and_variables_by_identifier() {
    let classes = vec![OverlayClass { id: id("mode"), order: 10, cardinality: Cardinality::new(0, None).expect("valid") }];
    let overlays = vec![overlay("b", "mode", "b.md", vec![]), overlay("a", "mode", "a.md", vec![])];
    let profiles = vec![
        Profile { id: id("zeta"), selections: selections(vec![("mode", vec!["b"])]) },
        Profile { id: id("alpha"), selections: selections(vec![("mode", vec!["a"])]) },
    ];
    let variables = vec![
        invokrum::Variable { name: id("token"), sensitivity: invokrum::Sensitivity::Secret },
        invokrum::Variable { name: id("author"), sensitivity: invokrum::Sensitivity::Public },
    ];
    let pack = OverlayPack::new(id("example"), SCHEMA_FAMILY, classes, overlays, profiles, variables)
        .expect("pack should be valid");
    let overlay_names: Vec<_> = pack.overlays().iter().map(|o| o.id.as_str()).collect();
    assert_eq!(overlay_names, vec!["a", "b"]);
    let profile_names: Vec<_> = pack.profiles().iter().map(|p| p.id.as_str()).collect();
    assert_eq!(profile_names, vec!["alpha", "zeta"]);
    let variable_names: Vec<_> = pack.variables().iter().map(|v| v.name.as_str()).collect();
    assert_eq!(variable_names, vec!["author", "token"]);
}

#[test]
fn profiles_must_select_required_classes() {
    let classes = vec![
        OverlayClass { id: id("core"), order: 10, cardinality: Cardinality::new(1, Some(1)).expect("valid") },
        OverlayClass { id: id("mode"), order: 20, cardinality: Cardinality::new(0, None).expect("valid") },
    ];
    let overlays = vec![overlay("read-only", "mode", "overlays/read-only.md", vec![])];
    let profile = Profile { id: id("p"), selections: selections(vec![("mode", vec!["read-only"])]) };
    match OverlayPack::new(id("example"), SCHEMA_FAMILY, classes, overlays, vec![profile], Vec::new()) {
        Err(DomainError::CardinalityViolation { profile, class, count }) => {
            assert_eq!(profile.as_str(), "p");
            assert_eq!(class.as_str(), "core");
            assert_eq!(count, 0);
        }
        other => panic!("unexpected result {:?}", other),
    }
}

#[test]
fn the_first_failing_profile_in_declaration_order_is_reported() {
    let classes = vec![OverlayClass { id: id("core"), order: 10, cardinality: Cardinality::new(1, Some(1)).expect("valid") }];
    let profiles = vec![
        Profile { id: id("zz"), selections: selections(vec![("core", vec![])]) },
        Profile { id: id("aa"), selections: selections(vec![("unknown", vec![])]) },
    ];
    match OverlayPack::new(id("example"), SCHEMA_FAMILY, classes, Vec::new(), profiles, Vec::new()) {
        Err(DomainError::CardinalityViolation { profile, class, count }) => {
            assert_eq!(profile.as_str(), "zz");
            assert_eq!(class.as_str(), "core");
            assert_eq!(count, 0);
        }
        other => panic!("unexpected result {:?}", other),
    }
}

#[test]
fn the_first_failing_overlay_in_declaration_order_is_reported() {
    let classes = vec![OverlayClass { id: id("core"), order: 10, cardinality: Cardinality::new(0, None).expect("valid") }];
    let overlays = vec![overlay("zz", "missing", "zz.md", vec![]), overlay("aa", "core", "aa.md", vec!["ghost"])];
    match OverlayPack::new(id("example"), SCHEMA_FAMILY, classes, overlays, Vec::new(), Vec::new()) {
        Err(DomainError::UnknownClass { overlay, class }) => {
            assert_eq!(overlay.as_str(), "zz");
            assert_eq!(class.as_str(), "missing");
        }
        other => panic!("unexpected result {:?}", other),
    }
}
