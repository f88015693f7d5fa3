//! The schema boundary: the documents that the serialization adapters decode
//! and encode, their translation into the validated domain model, and back.

use crate::collections::{
    keys_of, lemma_lookup_absent, lemma_lookup_after_set, lemma_sorted_entries_are_canonical,
    lemma_sorted_texts_are_canonical, lookup, strictly_sorted, IdentifierSet, SelectionMap,
};
use crate::model::{
    domain_message, ids_view, is_pack_relative, is_valid_identifier, Cardinality, DomainError, DomainFault,
    Identifier, Overlay, OverlayClass, PackRelativePath, Profile, Sensitivity, Variable,
};
use crate::pack::{
    keys, lemma_class_order_ignores_declaration_order, lemma_identifier_order_ignores_declaration_order,
    lemma_parts_fault_by_views, overlay_ids, pack_fault, parts_fault, parts_normalized, profile_ids, same_class,
    same_parts, variable_names, OverlayPack,
};
use crate::text::{lemma_seq_lt_irreflexive, seq_lt, str_eq};
use crate::strict::{feature_name, PreflightError};
use crate::SCHEMA_FAMILY;
use vstd::prelude::*;

verus! {

/// One class declaration as written in a pack document.
#[derive(Clone, Debug)]
pub struct ClassDocument {
    pub id: String,
    pub order: u32,
    pub minimum: usize,
    pub maximum: Option<usize>,
}

/// One overlay declaration as written in a pack document.
#[derive(Clone, Debug)]
pub struct OverlayDocument {
    pub id: String,
    pub class: String,
    pub source: String,
    pub incompatible_with: Vec<String>,
}

/// One profile declaration: selections as (class, overlays) entries.
#[derive(Clone, Debug)]
pub struct ProfileDocument {
    pub id: String,
    pub selections: Vec<(String, Vec<String>)>,
}

/// A variable's sensitivity as written in a pack document.
#[derive(Clone, Copy, Debug, PartialEq, Eq, Structural)]
pub enum SensitivityDocument {
    Public,
    Secret,
}

/// One variable declaration as written in a pack document.
#[derive(Clone, Debug)]
pub struct VariableDocument {
    pub name: String,
    pub sensitivity: SensitivityDocument,
}

/// A pack document of schema family v1.
#[derive(Clone, Debug)]
pub struct PackDocument {
    pub schema: String,
    pub id: String,
    pub classes: Vec<ClassDocument>,
    pub overlays: Vec<OverlayDocument>,
    pub profiles: Vec<ProfileDocument>,
    pub variables: Vec<VariableDocument>,
}

/// A schema-boundary failure while decoding, validating, or encoding a pack.
#[derive(Clone, Debug)]
pub enum SchemaError {
    Decode { format: &'static str, message: String },
    Encode(String),
    UnsupportedSchema(String),
    DuplicateListValue { field: &'static str, value: Identifier },
    Domain(DomainError),
}

/// The content of a schema error.
pub enum SchemaFault {
    Decode { format: Seq<char>, message: Seq<char> },
    Encode(Seq<char>),
    UnsupportedSchema(Seq<char>),
    DuplicateListValue { field: Seq<char>, value: Seq<char> },
    Domain(DomainFault),
}

impl View for SchemaError {
    type V = SchemaFault;

    open spec fn view(&self) -> SchemaFault {
        match self {
            SchemaError::Decode { format, message } => SchemaFault::Decode { format: format@, message: message@ },
            SchemaError::Encode(m) => SchemaFault::Encode(m@),
            SchemaError::UnsupportedSchema(s) => SchemaFault::UnsupportedSchema(s@),
            SchemaError::DuplicateListValue { field, value } => SchemaFault::DuplicateListValue { field: field@, value: value@ },
            SchemaError::Domain(e) => SchemaFault::Domain(e@),
        }
    }
}

impl SchemaError {
    /// A decoding failure of the given format.
    pub fn decode(format: &'static str, message: String) -> (r: Self)
        ensures
            r@ == (SchemaFault::Decode { format: format@, message: message@ }),
    {
        SchemaError::Decode { format, message }
    }

    /// Wraps a domain error.
    pub fn from_domain(error: DomainError) -> (r: Self)
        ensures
            r@ == SchemaFault::Domain(error@),
    {
        SchemaError::Domain(error)
    }

    /// The domain error underneath a domain failure, if this is one.
    pub fn source(&self) -> (r: Option<&DomainError>)
        ensures
            match self {
                SchemaError::Domain(e) => r == Some(e),
                _ => r is None,
            },
    {
        match self {
            SchemaError::Domain(e) => Some(e),
            _ => None,
        }
    }
}

/// The human-readable message of a schema failure.
pub open spec fn schema_message(fault: SchemaFault) -> Seq<char> {
    match fault {
        SchemaFault::Decode { format, message } => "invalid "@ + format + ": "@ + message,
        SchemaFault::Encode(m) => "failed to encode normalized JSON: "@ + m,
        SchemaFault::UnsupportedSchema(schema) => "unsupported schema family: "@ + schema,
        SchemaFault::DuplicateListValue { field, value } => "duplicate value `"@ + value + "` in "@ + field,
        SchemaFault::Domain(e) => "invalid pack: "@ + domain_message(e),
    }
}

impl SchemaError {
    /// The failure's human-readable message.
    pub fn message(&self) -> (r: String)
        ensures
            r@ == schema_message(self@),
    {
        match self {
            SchemaError::Decode { format, message } => "invalid ".to_owned().concat(format).concat(": ").concat(
                message.as_str(),
            ),
            SchemaError::Encode(m) => "failed to encode normalized JSON: ".to_owned().concat(m.as_str()),
            SchemaError::UnsupportedSchema(schema) => "unsupported schema family: ".to_owned().concat(schema.as_str()),
            SchemaError::DuplicateListValue { field, value } => "duplicate value `".to_owned().concat(
                value.as_str(),
            ).concat("` in ").concat(field),
            SchemaError::Domain(e) => {
                let inner = e.message();
                "invalid pack: ".to_owned().concat(inner.as_str())
            },
        }
    }
}

/// The schema failure that a preflight rejection becomes: a decoding failure
/// of its format, with the rejection described.
pub open spec fn preflight_fault(e: PreflightError) -> SchemaFault {
    match e {
        PreflightError::Decode { format, message } => SchemaFault::Decode { format: format@, message: message@ },
        PreflightError::DuplicateMappingKey { format } => SchemaFault::Decode {
            format: format@,
            message: "duplicate mapping key"@,
        },
        PreflightError::UnsupportedYamlFeature(f) => SchemaFault::Decode {
            format: "yaml"@,
            message: "unsupported YAML feature: "@ + feature_name(f),
        },
        PreflightError::MultipleYamlDocuments => SchemaFault::Decode {
            format: "yaml"@,
            message: "multiple YAML documents"@,
        },
    }
}

impl SchemaError {
    /// The schema failure for a rejection by the strict decoder preflight.
    pub fn from_preflight(error: PreflightError) -> (r: Self)
        ensures
            r@ == preflight_fault(error),
    {
        match error {
            PreflightError::Decode { format, message } => SchemaError::Decode { format, message },
            PreflightError::DuplicateMappingKey { format } => SchemaError::Decode {
                format,
                message: "duplicate mapping key".to_owned(),
            },
            PreflightError::UnsupportedYamlFeature(f) => SchemaError::Decode {
                format: "yaml",
                message: "unsupported YAML feature: ".to_owned().concat(f.name()),
            },
            PreflightError::MultipleYamlDocuments => SchemaError::Decode {
                format: "yaml",
                message: "multiple YAML documents".to_owned(),
            },
        }
    }
}

/// Every cardinality bound of the class declarations fits the unsigned
/// 32-bit range in which the serialized schema writes bounds.
pub open spec fn bounds_fit_schema(ds: Seq<ClassDocument>) -> bool {
    forall|i: int|
        0 <= i < ds.len() ==> (#[trigger] ds[i]).minimum <= u32::MAX && (ds[i].maximum matches Some(m) ==> m
            <= u32::MAX)
}

/// Checks that a document's cardinality bounds can be written in the
/// serialized schema; one that cannot fails encoding.
pub fn check_schema_bounds(document: &PackDocument) -> (r: Result<(), SchemaError>)
    ensures
        bounds_fit_schema(document.classes@) ==> (r is Ok),
        !bounds_fit_schema(document.classes@) ==> (r matches Err(e) && e@ == SchemaFault::Encode(
            "cardinality bound exceeds the 32-bit schema range"@,
        )),
{
    let limit = u32::MAX as usize;
    let mut i: usize = 0;
    while i < document.classes.len()
        invariant
            0 <= i <= document.classes@.len(),
            limit == u32::MAX,
            forall|j: int|
                0 <= j < i ==> (#[trigger] document.classes@[j]).minimum <= u32::MAX && (document.classes@[j].maximum matches Some(
                    m,
                ) ==> m <= u32::MAX),
        decreases document.classes@.len() - i,
    {
        let c = &document.classes[i];
        let too_large = c.minimum > limit || match c.maximum {
            Some(m) => m > limit,
            None => false,
        };
        if too_large {
            return Err(SchemaError::Encode("cardinality bound exceeds the 32-bit schema range".to_owned()));
        }
        i = i + 1;
    }
    Ok(())
}

/// The texts of strings.
pub open spec fn strings_view(s: Seq<String>) -> Seq<Seq<char>> {
    s.map_values(|x: String| x@)
}

/// Accepts only the supported schema family.
pub fn ensure_supported_schema(schema: &str) -> (r: Result<(), SchemaError>)
    ensures
        schema@ == SCHEMA_FAMILY@ ==> r is Ok,
        schema@ != SCHEMA_FAMILY@ ==> (r matches Err(e) && e@ == SchemaFault::UnsupportedSchema(schema@)),
{
    if str_eq(schema, SCHEMA_FAMILY) {
        Ok(())
    } else {
        Err(SchemaError::UnsupportedSchema(schema.to_owned()))
    }
}

/// The first problem in a list of identifiers that must not repeat: an invalid
/// identifier, or one equal to an earlier entry.
pub open spec fn set_list_fault(vals: Seq<Seq<char>>, field: Seq<char>) -> Option<SchemaFault>
    decreases vals.len(),
{
    if vals.len() == 0 {
        None
    } else {
        match set_list_fault(vals.drop_last(), field) {
            Some(f) => Some(f),
            None => if !is_valid_identifier(vals.last()) {
                Some(SchemaFault::Domain(DomainFault::InvalidIdentifier(vals.last())))
            } else if vals.drop_last().contains(vals.last()) {
                Some(SchemaFault::DuplicateListValue { field, value: vals.last() })
            } else {
                None
            },
        }
    }
}

proof fn lemma_set_list_fault_prefix(vals: Seq<Seq<char>>, field: Seq<char>, k: int)
    requires
        0 <= k <= vals.len(),
        set_list_fault(vals.subrange(0, k), field) is Some,
    ensures
        set_list_fault(vals, field) == set_list_fault(vals.subrange(0, k), field),
    decreases vals.len() - k,
{
    if k < vals.len() {
        assert(vals.subrange(0, k + 1).drop_last() =~= vals.subrange(0, k));
        lemma_set_list_fault_prefix(vals, field, k + 1);
    } else {
        assert(vals.subrange(0, k) =~= vals);
    }
}

/// Parses a list of identifiers into a set, rejecting repeats rather than
/// dropping them.
pub fn parse_identifier_set(values: &Vec<String>, field: &'static str) -> (r: Result<IdentifierSet, SchemaError>)
    ensures
        match set_list_fault(strings_view(values@), field@) {
            Some(f) => r matches Err(e) && e@ == f,
            None => r matches Ok(set) && set@.to_set() == strings_view(values@).to_set()
                && strictly_sorted(set@) && set@.len() == values@.len(),
        },
{
    let ghost vals = strings_view(values@);
    let mut set = IdentifierSet::new();
    let n = values.len();
    let mut i: usize = 0;
    assert(vals.subrange(0, 0).to_set() =~= set@.to_set());
    while i < n
        invariant
            n == vals.len(),
            vals == strings_view(values@),
            0 <= i <= n,
            set_list_fault(vals.subrange(0, i as int), field@) is None,
            set@.to_set() == vals.subrange(0, i as int).to_set(),
            set@.len() == i,
            strictly_sorted(set@),
        decreases n - i,
    {
        let ghost prior = vals.subrange(0, i as int);
        assert(vals.subrange(0, i + 1).drop_last() =~= prior);
        assert(vals.subrange(0, i + 1).last() == values@[i as int]@);
        let identifier = match Identifier::parse(values[i].as_str()) {
            Ok(id) => id,
            Err(e) => {
                proof {
                    lemma_set_list_fault_prefix(vals, field@, i + 1);
                }
                return Err(SchemaError::Domain(e));
            },
        };
        let duplicate = identifier.clone();
        let ghost old_set = set@;
        if !set.insert(identifier) {
            proof {
                assert(old_set.to_set().contains(duplicate@));
                assert(prior.to_set().contains(duplicate@));
                assert(prior.contains(duplicate@));
                lemma_set_list_fault_prefix(vals, field@, i + 1);
            }
            return Err(SchemaError::DuplicateListValue { field, value: duplicate });
        }
        proof {
            if prior.contains(duplicate@) {
                assert(prior.to_set().contains(duplicate@));
                assert(old_set.to_set().contains(duplicate@));
                let j = choose|j: int| 0 <= j < old_set.len() && old_set[j] == duplicate@;
                assert(old_set.contains(duplicate@));
            }
            let k = choose|k: int| 0 <= k <= old_set.len() && set@ == old_set.insert(k, duplicate@);
            assert(set@.to_set() =~= old_set.to_set().insert(duplicate@)) by {
                assert forall|x: Seq<char>| set@.contains(x) <==> old_set.contains(x) || x == duplicate@ by {
                    if set@.contains(x) {
                        let m = choose|m: int| 0 <= m < set@.len() && set@[m] == x;
                        if m < k {
                            assert(old_set[m] == x);
                        } else if m > k {
                            assert(old_set[m - 1] == x);
                        }
                    }
                    if old_set.contains(x) {
                        let m = choose|m: int| 0 <= m < old_set.len() && old_set[m] == x;
                        if m < k {
                            assert(set@[m] == x);
                        } else {
                            assert(set@[m + 1] == x);
                        }
                    }
                    if x == duplicate@ {
                        assert(set@[k] == x);
                    }
                }
            }
            assert(vals.subrange(0, i + 1).to_set() =~= prior.to_set().insert(duplicate@)) by {
                assert(vals.subrange(0, i + 1) =~= prior.push(duplicate@));
                Seq::lemma_to_set_insert_commutes(prior, duplicate@);
            }
        }
        i = i + 1;
    }
    assert(vals.subrange(0, n as int) =~= vals);
    Ok(set)
}

/// The first problem with a class declaration.
pub open spec fn class_document_fault(d: ClassDocument) -> Option<DomainFault> {
    if !is_valid_identifier(d.id@) {
        Some(DomainFault::InvalidIdentifier(d.id@))
    } else if d.maximum matches Some(m) && m < d.minimum {
        Some(DomainFault::InvalidCardinality { minimum: d.minimum, maximum: d.maximum })
    } else {
        None
    }
}

/// A class holds what its declaration says.
pub open spec fn class_matches(c: OverlayClass, d: ClassDocument) -> bool {
    &&& c.id@ == d.id@
    &&& c.order == d.order
    &&& c.cardinality.spec_minimum() == d.minimum
    &&& c.cardinality.spec_maximum() == d.maximum
}

/// Translates a class declaration.
pub fn class_from_document(d: &ClassDocument) -> (r: Result<OverlayClass, DomainError>)
    ensures
        match class_document_fault(*d) {
            Some(f) => r matches Err(e) && e@ == f,
            None => r matches Ok(c) && class_matches(c, *d),
        },
{
    let id = Identifier::parse(d.id.as_str())?;
    let cardinality = Cardinality::new(d.minimum, d.maximum)?;
    Ok(OverlayClass { id, order: d.order, cardinality })
}

/// The first problem with an overlay declaration.
pub open spec fn overlay_document_fault(d: OverlayDocument) -> Option<SchemaFault> {
    if !is_valid_identifier(d.id@) {
        Some(SchemaFault::Domain(DomainFault::InvalidIdentifier(d.id@)))
    } else if !is_valid_identifier(d.class@) {
        Some(SchemaFault::Domain(DomainFault::InvalidIdentifier(d.class@)))
    } else if !is_pack_relative(d.source@) {
        Some(SchemaFault::Domain(DomainFault::InvalidPackRelativePath(d.source@)))
    } else {
        set_list_fault(strings_view(d.incompatible_with@), "overlays[].incompatible_with"@)
    }
}

/// An overlay holds what its declaration says; its incompatibilities are the
/// declared ones, in identifier order.
pub open spec fn overlay_matches(o: Overlay, d: OverlayDocument) -> bool {
    &&& o.id@ == d.id@
    &&& o.class@ == d.class@
    &&& o.source@ == d.source@
    &&& o.incompatible_with@.to_set() == strings_view(d.incompatible_with@).to_set()
    &&& o.incompatible_with@.len() == d.incompatible_with@.len()
    &&& strictly_sorted(o.incompatible_with@)
}

/// Translates an overlay declaration.
pub fn overlay_from_document(d: &OverlayDocument) -> (r: Result<Overlay, SchemaError>)
    ensures
        match overlay_document_fault(*d) {
            Some(f) => r matches Err(e) && e@ == f,
            None => r matches Ok(o) && overlay_matches(o, *d),
        },
{
    let id = match Identifier::parse(d.id.as_str()) {
        Ok(id) => id,
        Err(e) => return Err(SchemaError::Domain(e)),
    };
    let class = match Identifier::parse(d.class.as_str()) {
        Ok(id) => id,
        Err(e) => return Err(SchemaError::Domain(e)),
    };
    let source = match PackRelativePath::parse(d.source.as_str()) {
        Ok(p) => p,
        Err(e) => return Err(SchemaError::Domain(e)),
    };
    let incompatible_with = parse_identifier_set(&d.incompatible_with, "overlays[].incompatible_with")?;
    Ok(Overlay { id, class, source, incompatible_with })
}

/// The position of the first invalid identifier.
pub open spec fn first_invalid(vals: Seq<Seq<char>>) -> Option<int>
    decreases vals.len(),
{
    if vals.len() == 0 {
        None
    } else {
        match first_invalid(vals.drop_last()) {
            Some(k) => Some(k),
            None => if !is_valid_identifier(vals.last()) {
                Some(vals.len() - 1)
            } else {
                None
            },
        }
    }
}

proof fn lemma_first_invalid_prefix(vals: Seq<Seq<char>>, k: int)
    requires
        0 <= k <= vals.len(),
        first_invalid(vals.subrange(0, k)) is Some,
    ensures
        first_invalid(vals) == first_invalid(vals.subrange(0, k)),
    decreases vals.len() - k,
{
    if k < vals.len() {
        assert(vals.subrange(0, k + 1).drop_last() =~= vals.subrange(0, k));
        lemma_first_invalid_prefix(vals, k + 1);
    } else {
        assert(vals.subrange(0, k) =~= vals);
    }
}

proof fn lemma_first_invalid_range(vals: Seq<Seq<char>>)
    ensures
        first_invalid(vals) matches Some(k) ==> 0 <= k < vals.len(),
    decreases vals.len(),
{
    if vals.len() > 0 {
        lemma_first_invalid_range(vals.drop_last());
    }
}

/// Parses a list of identifiers, keeping order and repeats.
fn parse_identifier_list(values: &Vec<String>) -> (r: Result<Vec<Identifier>, DomainError>)
    ensures
        match first_invalid(strings_view(values@)) {
            Some(k) => r matches Err(e) && e@ == DomainFault::InvalidIdentifier(strings_view(values@)[k]),
            None => r matches Ok(ids) && ids_view(ids@) == strings_view(values@),
        },
{
    let ghost vals = strings_view(values@);
    let mut ids: Vec<Identifier> = Vec::new();
    let n = values.len();
    let mut i: usize = 0;
    while i < n
        invariant
            n == vals.len(),
            vals == strings_view(values@),
            0 <= i <= n,
            first_invalid(vals.subrange(0, i as int)) is None,
            ids_view(ids@) == vals.subrange(0, i as int),
        decreases n - i,
    {
        assert(vals.subrange(0, i + 1).drop_last() =~= vals.subrange(0, i as int));
        assert(vals.subrange(0, i + 1).last() == values@[i as int]@);
        match Identifier::parse(values[i].as_str()) {
            Ok(id) => {
                ids.push(id);
                assert(ids_view(ids@) =~= vals.subrange(0, i + 1));
            },
            Err(e) => {
                proof {
                    lemma_first_invalid_prefix(vals, i + 1);
                }
                return Err(e);
            },
        }
        i = i + 1;
    }
    assert(vals.subrange(0, n as int) =~= vals);
    Ok(ids)
}

/// The texts of document selection entries.
pub open spec fn document_entries(s: Seq<(String, Vec<String>)>) -> Seq<(Seq<char>, Seq<Seq<char>>)> {
    s.map_values(|e: (String, Vec<String>)| (e.0@, strings_view(e.1@)))
}

/// The first problem with one selection entry: its class, then its overlays.
pub open spec fn entry_document_fault(e: (Seq<char>, Seq<Seq<char>>)) -> Option<DomainFault> {
    if !is_valid_identifier(e.0) {
        Some(DomainFault::InvalidIdentifier(e.0))
    } else {
        match first_invalid(e.1) {
            Some(k) => Some(DomainFault::InvalidIdentifier(e.1[k])),
            None => None,
        }
    }
}

/// The first problem among selection entries, in order.
pub open spec fn entries_document_fault(es: Seq<(Seq<char>, Seq<Seq<char>>)>) -> Option<DomainFault>
    decreases es.len(),
{
    if es.len() == 0 {
        None
    } else {
        match entries_document_fault(es.drop_last()) {
            Some(f) => Some(f),
            None => entry_document_fault(es.last()),
        }
    }
}

proof fn lemma_entries_document_fault_prefix(es: Seq<(Seq<char>, Seq<Seq<char>>)>, k: int)
    requires
        0 <= k <= es.len(),
        entries_document_fault(es.subrange(0, k)) is Some,
    ensures
        entries_document_fault(es) == entries_document_fault(es.subrange(0, k)),
    decreases es.len() - k,
{
    if k < es.len() {
        assert(es.subrange(0, k + 1).drop_last() =~= es.subrange(0, k));
        lemma_entries_document_fault_prefix(es, k + 1);
    } else {
        assert(es.subrange(0, k) =~= es);
    }
}

/// The value of the last entry with key `k`.
pub open spec fn last_value(es: Seq<(Seq<char>, Seq<Seq<char>>)>, k: Seq<char>) -> Option<Seq<Seq<char>>>
    decreases es.len(),
{
    if es.len() == 0 {
        None
    } else if es.last().0 == k {
        Some(es.last().1)
    } else {
        last_value(es.drop_last(), k)
    }
}

/// With strictly sorted keys, the last entry with a key is its only entry.
proof fn lemma_last_value_is_lookup(s: Seq<(Seq<char>, Seq<Seq<char>>)>, k: Seq<char>)
    requires
        strictly_sorted(keys_of(s)),
    ensures
        last_value(s, k) == lookup(s, k),
    decreases s.len(),
{
    if s.len() > 0 {
        let d = s.drop_last();
        assert(keys_of(d) =~= keys_of(s).drop_last());
        lemma_last_value_is_lookup(d, k);
        if s.last().0 == k {
            assert forall|j: int| 0 <= j < d.len() implies (#[trigger] d[j]).0 != k by {
                assert(keys_of(s)[j] == d[j].0);
                assert(keys_of(s)[s.len() - 1] == k);
                assert(seq_lt(keys_of(s)[j], keys_of(s)[s.len() - 1]));
                lemma_seq_lt_irreflexive(k);
            }
            lemma_lookup_absent(d, k);
        }
    }
}

/// The first problem with a profile declaration: its selections, then its identifier.
pub open spec fn profile_document_fault(d: ProfileDocument) -> Option<DomainFault> {
    match entries_document_fault(document_entries(d.selections@)) {
        Some(f) => Some(f),
        None => if !is_valid_identifier(d.id@) {
            Some(DomainFault::InvalidIdentifier(d.id@))
        } else {
            None
        },
    }
}

/// A profile holds what its declaration says: each class maps to the last
/// selection declared for it, in class-identifier order.
pub open spec fn profile_matches(p: Profile, d: ProfileDocument) -> bool {
    &&& p.id@ == d.id@
    &&& strictly_sorted(keys_of(p.selections@))
    &&& forall|k: Seq<char>| #[trigger] lookup(p.selections@, k) == last_value(document_entries(d.selections@), k)
}

/// Translates a profile declaration.
pub fn profile_from_document(d: &ProfileDocument) -> (r: Result<Profile, DomainError>)
    ensures
        match profile_document_fault(*d) {
            Some(f) => r matches Err(e) && e@ == f,
            None => r matches Ok(p) && profile_matches(p, *d),
        },
{
    let ghost es = document_entries(d.selections@);
    let mut selections = SelectionMap::new();
    let n = d.selections.len();
    let mut i: usize = 0;
    assert forall|k: Seq<char>| #[trigger] lookup(selections@, k) == last_value(es.subrange(0, 0), k) by {}
    while i < n
        invariant
            n == es.len(),
            es == document_entries(d.selections@),
            0 <= i <= n,
            entries_document_fault(es.subrange(0, i as int)) is None,
            strictly_sorted(keys_of(selections@)),
            forall|k: Seq<char>| #[trigger] lookup(selections@, k) == last_value(es.subrange(0, i as int), k),
        decreases n - i,
    {
        let ghost cur = es.subrange(0, i + 1);
        assert(cur.drop_last() =~= es.subrange(0, i as int));
        assert(cur.last() == es[i as int]);
        let entry = &d.selections[i];
        assert(es[i as int] == (entry.0@, strings_view(entry.1@)));
        let class = match Identifier::parse(entry.0.as_str()) {
            Ok(c) => c,
            Err(e) => {
                proof {
                    lemma_entries_document_fault_prefix(es, i + 1);
                }
                return Err(e);
            },
        };
        let selected = match parse_identifier_list(&entry.1) {
            Ok(v) => v,
            Err(e) => {
                proof {
                    lemma_first_invalid_range(strings_view(entry.1@));
                    lemma_entries_document_fault_prefix(es, i + 1);
                }
                return Err(e);
            },
        };
        let ghost old_map = selections@;
        let ghost key = class@;
        let ghost value = ids_view(selected@);
        let replaced = selections.insert(class, selected);
        proof {
            let new_map = selections@;
            match replaced {
                Some(_) => {
                    let m = choose|m: int| 0 <= m < old_map.len() && old_map[m].0 == key && old_map[m].1 == ids_view(replaced->0@) && new_map == old_map.update(m, (key, value));
                    lemma_lookup_after_set(old_map, new_map, key, value, m, false);
                },
                None => {
                    let m = choose|m: int| 0 <= m <= old_map.len() && new_map == old_map.insert(m, (key, value));
                    lemma_lookup_after_set(old_map, new_map, key, value, m, true);
                },
            }
            assert forall|k: Seq<char>| #[trigger] lookup(new_map, k) == last_value(cur, k) by {
                if k != key {
                    assert(last_value(cur, k) == last_value(es.subrange(0, i as int), k));
                }
            }
        }
        i = i + 1;
    }
    assert(es.subrange(0, n as int) =~= es);
    let id = Identifier::parse(d.id.as_str())?;
    Ok(Profile { id, selections })
}

/// The sensitivity a document value names.
pub open spec fn sensitivity_of(d: SensitivityDocument) -> Sensitivity {
    match d {
        SensitivityDocument::Public => Sensitivity::Public,
        SensitivityDocument::Secret => Sensitivity::Secret,
    }
}

/// The document value naming a sensitivity.
pub open spec fn sensitivity_document_of(s: Sensitivity) -> SensitivityDocument {
    match s {
        Sensitivity::Public => SensitivityDocument::Public,
        Sensitivity::Secret => SensitivityDocument::Secret,
    }
}

/// Translates a variable declaration.
pub fn variable_from_document(d: &VariableDocument) -> (r: Result<Variable, DomainError>)
    ensures
        is_valid_identifier(d.name@) ==> (r matches Ok(v) && v.name@ == d.name@ && v.sensitivity == sensitivity_of(d.sensitivity)),
        !is_valid_identifier(d.name@) ==> (r matches Err(e) && e@ == DomainFault::InvalidIdentifier(d.name@)),
{
    let name = Identifier::parse(d.name.as_str())?;
    let sensitivity = match d.sensitivity {
        SensitivityDocument::Public => Sensitivity::Public,
        SensitivityDocument::Secret => Sensitivity::Secret,
    };
    Ok(Variable { name, sensitivity })
}

/// The first problem among class declarations, in order.
pub open spec fn classes_document_fault(ds: Seq<ClassDocument>) -> Option<DomainFault>
    decreases ds.len(),
{
    if ds.len() == 0 {
        None
    } else {
        match classes_document_fault(ds.drop_last()) {
            Some(f) => Some(f),
            None => class_document_fault(ds.last()),
        }
    }
}

/// The first problem among overlay declarations, in order.
pub open spec fn overlays_document_fault(ds: Seq<OverlayDocument>) -> Option<SchemaFault>
    decreases ds.len(),
{
    if ds.len() == 0 {
        None
    } else {
        match overlays_document_fault(ds.drop_last()) {
            Some(f) => Some(f),
            None => overlay_document_fault(ds.last()),
        }
    }
}

/// The first problem among profile declarations, in order.
pub open spec fn profiles_document_fault(ds: Seq<ProfileDocument>) -> Option<DomainFault>
    decreases ds.len(),
{
    if ds.len() == 0 {
        None
    } else {
        match profiles_document_fault(ds.drop_last()) {
            Some(f) => Some(f),
            None => profile_document_fault(ds.last()),
        }
    }
}

/// The first invalid variable name, in order.
pub open spec fn variables_document_fault(ds: Seq<VariableDocument>) -> Option<DomainFault>
    decreases ds.len(),
{
    if ds.len() == 0 {
        None
    } else {
        match variables_document_fault(ds.drop_last()) {
            Some(f) => Some(f),
            None => if !is_valid_identifier(ds.last().name@) {
                Some(DomainFault::InvalidIdentifier(ds.last().name@))
            } else {
                None
            },
        }
    }
}

proof fn lemma_classes_document_fault_prefix(ds: Seq<ClassDocument>, k: int)
    requires
        0 <= k <= ds.len(),
        classes_document_fault(ds.subrange(0, k)) is Some,
    ensures
        classes_document_fault(ds) == classes_document_fault(ds.subrange(0, k)),
    decreases ds.len() - k,
{
    if k < ds.len() {
        assert(ds.subrange(0, k + 1).drop_last() =~= ds.subrange(0, k));
        lemma_classes_document_fault_prefix(ds, k + 1);
    } else {
        assert(ds.subrange(0, k) =~= ds);
    }
}

proof fn lemma_overlays_document_fault_prefix(ds: Seq<OverlayDocument>, k: int)
    requires
        0 <= k <= ds.len(),
        overlays_document_fault(ds.subrange(0, k)) is Some,
    ensures
        overlays_document_fault(ds) == overlays_document_fault(ds.subrange(0, k)),
    decreases ds.len() - k,
{
    if k < ds.len() {
        assert(ds.subrange(0, k + 1).drop_last() =~= ds.subrange(0, k));
        lemma_overlays_document_fault_prefix(ds, k + 1);
    } else {
        assert(ds.subrange(0, k) =~= ds);
    }
}

proof fn lemma_profiles_document_fault_prefix(ds: Seq<ProfileDocument>, k: int)
    requires
        0 <= k <= ds.len(),
        profiles_document_fault(ds.subrange(0, k)) is Some,
    ensures
        profiles_document_fault(ds) == profiles_document_fault(ds.subrange(0, k)),
    decreases ds.len() - k,
{
    if k < ds.len() {
        assert(ds.subrange(0, k + 1).drop_last() =~= ds.subrange(0, k));
        lemma_profiles_document_fault_prefix(ds, k + 1);
    } else {
        assert(ds.subrange(0, k) =~= ds);
    }
}

proof fn lemma_variables_document_fault_prefix(ds: Seq<VariableDocument>, k: int)
    requires
        0 <= k <= ds.len(),
        variables_document_fault(ds.subrange(0, k)) is Some,
    ensures
        variables_document_fault(ds) == variables_document_fault(ds.subrange(0, k)),
    decreases ds.len() - k,
{
    if k < ds.len() {
        assert(ds.subrange(0, k + 1).drop_last() =~= ds.subrange(0, k));
        lemma_variables_document_fault_prefix(ds, k + 1);
    } else {
        assert(ds.subrange(0, k) =~= ds);
    }
}

/// Translates class declarations in order.
fn classes_from_documents(ds: &Vec<ClassDocument>) -> (r: Result<Vec<OverlayClass>, DomainError>)
    ensures
        match classes_document_fault(ds@) {
            Some(f) => r matches Err(e) && e@ == f,
            None => r matches Ok(cs) && cs@.len() == ds@.len() && forall|i: int| 0 <= i < ds@.len() ==> class_matches(#[trigger] cs@[i], ds@[i]),
        },
{
    let mut out: Vec<OverlayClass> = Vec::new();
    let n = ds.len();
    let mut i: usize = 0;
    while i < n
        invariant
            n == ds@.len(),
            0 <= i <= n,
            classes_document_fault(ds@.subrange(0, i as int)) is None,
            out@.len() == i,
            forall|j: int| 0 <= j < i ==> class_matches(#[trigger] out@[j], ds@[j]),
        decreases n - i,
    {
        assert(ds@.subrange(0, i + 1).drop_last() =~= ds@.subrange(0, i as int));
        assert(ds@.subrange(0, i + 1).last() == ds@[i as int]);
        match class_from_document(&ds[i]) {
            Ok(c) => out.push(c),
            Err(e) => {
                proof {
                    lemma_classes_document_fault_prefix(ds@, i + 1);
                }
                return Err(e);
            },
        }
        i = i + 1;
    }
    assert(ds@.subrange(0, n as int) =~= ds@);
    Ok(out)
}

/// Translates overlay declarations in order.
fn overlays_from_documents(ds: &Vec<OverlayDocument>) -> (r: Result<Vec<Overlay>, SchemaError>)
    ensures
        match overlays_document_fault(ds@) {
            Some(f) => r matches Err(e) && e@ == f,
            None => r matches Ok(os) && os@.len() == ds@.len() && forall|i: int| 0 <= i < ds@.len() ==> overlay_matches(#[trigger] os@[i], ds@[i]),
        },
{
    let mut out: Vec<Overlay> = Vec::new();
    let n = ds.len();
    let mut i: usize = 0;
    while i < n
        invariant
            n == ds@.len(),
            0 <= i <= n,
            overlays_document_fault(ds@.subrange(0, i as int)) is None,
            out@.len() == i,
            forall|j: int| 0 <= j < i ==> overlay_matches(#[trigger] out@[j], ds@[j]),
        decreases n - i,
    {
        assert(ds@.subrange(0, i + 1).drop_last() =~= ds@.subrange(0, i as int));
        assert(ds@.subrange(0, i + 1).last() == ds@[i as int]);
        match overlay_from_document(&ds[i]) {
            Ok(o) => out.push(o),
            Err(e) => {
                proof {
                    lemma_overlays_document_fault_prefix(ds@, i + 1);
                }
                return Err(e);
            },
        }
        i = i + 1;
    }
    assert(ds@.subrange(0, n as int) =~= ds@);
    Ok(out)
}

/// Translates profile declarations in order.
fn profiles_from_documents(ds: &Vec<ProfileDocument>) -> (r: Result<Vec<Profile>, DomainError>)
    ensures
        match profiles_document_fault(ds@) {
            Some(f) => r matches Err(e) && e@ == f,
            None => r matches Ok(ps) && ps@.len() == ds@.len() && forall|i: int| 0 <= i < ds@.len() ==> profile_matches(#[trigger] ps@[i], ds@[i]),
        },
{
    let mut out: Vec<Profile> = Vec::new();
    let n = ds.len();
    let mut i: usize = 0;
    while i < n
        invariant
            n == ds@.len(),
            0 <= i <= n,
            profiles_document_fault(ds@.subrange(0, i as int)) is None,
            out@.len() == i,
            forall|j: int| 0 <= j < i ==> profile_matches(#[trigger] out@[j], ds@[j]),
        decreases n - i,
    {
        assert(ds@.subrange(0, i + 1).drop_last() =~= ds@.subrange(0, i as int));
        assert(ds@.subrange(0, i + 1).last() == ds@[i as int]);
        match profile_from_document(&ds[i]) {
            Ok(p) => out.push(p),
            Err(e) => {
                proof {
                    lemma_profiles_document_fault_prefix(ds@, i + 1);
                }
                return Err(e);
            },
        }
        i = i + 1;
    }
    assert(ds@.subrange(0, n as int) =~= ds@);
    Ok(out)
}

/// Translates variable declarations in order.
fn variables_from_documents(ds: &Vec<VariableDocument>) -> (r: Result<Vec<Variable>, DomainError>)
    ensures
        match variables_document_fault(ds@) {
            Some(f) => r matches Err(e) && e@ == f,
            None => r matches Ok(vs) && vs@.len() == ds@.len() && forall|i: int| 0 <= i < ds@.len() ==> (#[trigger] vs@[i]).name@ == ds@[i].name@ && vs@[i].sensitivity == sensitivity_of(ds@[i].sensitivity),
        },
{
    let mut out: Vec<Variable> = Vec::new();
    let n = ds.len();
    let mut i: usize = 0;
    while i < n
        invariant
            n == ds@.len(),
            0 <= i <= n,
            variables_document_fault(ds@.subrange(0, i as int)) is None,
            out@.len() == i,
            forall|j: int| 0 <= j < i ==> (#[trigger] out@[j]).name@ == ds@[j].name@ && out@[j].sensitivity == sensitivity_of(ds@[j].sensitivity),
        decreases n - i,
    {
        assert(ds@.subrange(0, i + 1).drop_last() =~= ds@.subrange(0, i as int));
        assert(ds@.subrange(0, i + 1).last() == ds@[i as int]);
        match variable_from_document(&ds[i]) {
            Ok(v) => out.push(v),
            Err(e) => {
                proof {
                    lemma_variables_document_fault_prefix(ds@, i + 1);
                }
                return Err(e);
            },
        }
        i = i + 1;
    }
    assert(ds@.subrange(0, n as int) =~= ds@);
    Ok(out)
}

/// The first problem with a pack document before its parts are assembled:
/// the schema family, then class, overlay, profile, and variable
/// declarations in order, then the pack identifier.
pub open spec fn document_fault(d: PackDocument) -> Option<SchemaFault> {
    if d.schema@ != SCHEMA_FAMILY@ {
        Some(SchemaFault::UnsupportedSchema(d.schema@))
    } else if classes_document_fault(d.classes@) is Some {
        Some(SchemaFault::Domain(classes_document_fault(d.classes@)->0))
    } else if overlays_document_fault(d.overlays@) is Some {
        overlays_document_fault(d.overlays@)
    } else if profiles_document_fault(d.profiles@) is Some {
        Some(SchemaFault::Domain(profiles_document_fault(d.profiles@)->0))
    } else if variables_document_fault(d.variables@) is Some {
        Some(SchemaFault::Domain(variables_document_fault(d.variables@)->0))
    } else if !is_valid_identifier(d.id@) {
        Some(SchemaFault::Domain(DomainFault::InvalidIdentifier(d.id@)))
    } else {
        None
    }
}

/// The domain parts hold what the document's declarations say.
pub open spec fn translated(d: PackDocument, cs: Seq<OverlayClass>, os: Seq<Overlay>, ps: Seq<Profile>, vs: Seq<Variable>) -> bool {
    &&& cs.len() == d.classes@.len()
    &&& forall|i: int| 0 <= i < cs.len() ==> class_matches(#[trigger] cs[i], d.classes@[i])
    &&& os.len() == d.overlays@.len()
    &&& forall|i: int| 0 <= i < os.len() ==> overlay_matches(#[trigger] os[i], d.overlays@[i])
    &&& ps.len() == d.profiles@.len()
    &&& forall|i: int| 0 <= i < ps.len() ==> profile_matches(#[trigger] ps[i], d.profiles@[i])
    &&& vs.len() == d.variables@.len()
    &&& forall|i: int| 0 <= i < vs.len() ==> (#[trigger] vs[i]).name@ == d.variables@[i].name@ && vs[i].sensitivity == sensitivity_of(d.variables@[i].sensitivity)
}

/// What translating a document gives: the first declaration fault of the
/// document, else the first rule that the parts it translates into break,
/// else a pack that holds those parts in normalized order.
pub open spec fn translation_of(document: PackDocument, r: Result<OverlayPack, SchemaError>) -> bool {
    match document_fault(document) {
        Some(f) => r matches Err(e) && e@ == f,
        None => exists|cs: Seq<OverlayClass>, os: Seq<Overlay>, ps: Seq<Profile>, vs: Seq<Variable>|
            translated(document, cs, os, ps, vs) && match pack_fault(document.schema@, cs, os, ps, vs) {
                Some(f) => r matches Err(e) && e@ == SchemaFault::Domain(f),
                None => r matches Ok(p) && p.spec_id()@ == document.id@
                    && p.spec_schema_family() == document.schema@
                    && p.spec_classes().to_multiset() == cs.to_multiset()
                    && p.spec_overlays().to_multiset() == os.to_multiset()
                    && p.spec_profiles().to_multiset() == ps.to_multiset()
                    && p.spec_variables().to_multiset() == vs.to_multiset()
                    && parts_normalized(p.spec_classes(), p.spec_overlays(), p.spec_profiles(), p.spec_variables()),
            },
    }
}

impl OverlayPack {
    /// Translates a pack document into the validated domain model: the schema
    /// family is checked first, then each declaration, then the assembled pack.
    pub fn try_from(document: PackDocument) -> (r: Result<OverlayPack, SchemaError>)
        ensures
            translation_of(document, r),
    {
        ensure_supported_schema(document.schema.as_str())?;
        let classes = match classes_from_documents(&document.classes) {
            Ok(c) => c,
            Err(e) => return Err(SchemaError::Domain(e)),
        };
        let overlays = overlays_from_documents(&document.overlays)?;
        let profiles = match profiles_from_documents(&document.profiles) {
            Ok(p) => p,
            Err(e) => return Err(SchemaError::Domain(e)),
        };
        let variables = match variables_from_documents(&document.variables) {
            Ok(v) => v,
            Err(e) => return Err(SchemaError::Domain(e)),
        };
        let id = match Identifier::parse(document.id.as_str()) {
            Ok(id) => id,
            Err(e) => return Err(SchemaError::Domain(e)),
        };
        let ghost (cs, os, ps, vs) = (classes@, overlays@, profiles@, variables@);
        assert(translated(document, cs, os, ps, vs));
        match OverlayPack::new(id, document.schema.as_str(), classes, overlays, profiles, variables) {
            Ok(p) => Ok(p),
            Err(e) => Err(SchemaError::Domain(e)),
        }
    }
}

fn identifier_strings(ids: &Vec<Identifier>) -> (r: Vec<String>)
    ensures
        strings_view(r@) == ids_view(ids@),
        first_invalid(ids_view(ids@)) is None,
{
    let mut out: Vec<String> = Vec::new();
    let mut i: usize = 0;
    while i < ids.len()
        invariant
            0 <= i <= ids@.len(),
            out@.len() == i,
            strings_view(out@) == ids_view(ids@).subrange(0, i as int),
            first_invalid(ids_view(ids@).subrange(0, i as int)) is None,
        decreases ids@.len() - i,
    {
        let ghost before = out@;
        let text = ids[i].as_str();
        proof {
            assert(ids_view(ids@).subrange(0, i + 1).drop_last() =~= ids_view(ids@).subrange(0, i as int));
            assert(ids_view(ids@).subrange(0, i + 1).last() == text@);
        }
        out.push(text.to_owned());
        proof {
            assert forall|k: int| 0 <= k < out@.len() implies strings_view(out@)[k] == ids_view(ids@).subrange(0, i + 1)[k] by {
                if k < i {
                    assert(out@[k] == before[k]);
                    assert(strings_view(before)[k] == ids_view(ids@).subrange(0, i as int)[k]);
                }
            }
        }
        i = i + 1;
        assert(strings_view(out@) =~= ids_view(ids@).subrange(0, i as int));
    }
    assert(ids_view(ids@).subrange(0, i as int) =~= ids_view(ids@));
    out
}

fn set_strings(set: &IdentifierSet) -> (r: Vec<String>)
    ensures
        strings_view(r@) == set@,
        strictly_sorted(set@),
        set_list_fault(set@, "overlays[].incompatible_with"@) is None,
{
    let mut out: Vec<String> = Vec::new();
    let mut i: usize = 0;
    let n = set.len();
    while i < n
        invariant
            n == set@.len(),
            strictly_sorted(set@),
            0 <= i <= set@.len(),
            out@.len() == i,
            strings_view(out@) == set@.subrange(0, i as int),
            set_list_fault(set@.subrange(0, i as int), "overlays[].incompatible_with"@) is None,
        decreases set@.len() - i,
    {
        let ghost before = out@;
        let text = set.get(i).as_str();
        proof {
            let cur = set@.subrange(0, i + 1);
            assert(cur.drop_last() =~= set@.subrange(0, i as int));
            assert(cur.last() == text@);
            if cur.drop_last().contains(cur.last()) {
                let q = choose|q: int| 0 <= q < cur.drop_last().len() && cur.drop_last()[q] == cur.last();
                assert(seq_lt(set@[q], set@[i as int]));
                lemma_seq_lt_irreflexive(text@);
            }
        }
        out.push(text.to_owned());
        proof {
            assert forall|k: int| 0 <= k < out@.len() implies strings_view(out@)[k] == set@.subrange(0, i + 1)[k] by {
                if k < i {
                    assert(out@[k] == before[k]);
                    assert(strings_view(before)[k] == set@.subrange(0, i as int)[k]);
                }
            }
        }
        i = i + 1;
        assert(strings_view(out@) =~= set@.subrange(0, i as int));
    }
    assert(set@.subrange(0, i as int) =~= set@);
    out
}

fn selection_entries(map: &SelectionMap) -> (r: Vec<(String, Vec<String>)>)
    ensures
        document_entries(r@) == map@,
        entries_document_fault(map@) is None,
        strictly_sorted(keys_of(map@)),
{
    let mut out: Vec<(String, Vec<String>)> = Vec::new();
    let mut i: usize = 0;
    while i < map.len()
        invariant
            0 <= i <= map@.len(),
            out@.len() == i,
            document_entries(out@) == map@.subrange(0, i as int),
            entries_document_fault(map@.subrange(0, i as int)) is None,
        decreases map@.len() - i,
    {
        let ghost before = out@;
        let class_text = map.class_at(i).as_str();
        let class = class_text.to_owned();
        let selected = identifier_strings(map.selection_at(i));
        proof {
            let cur = map@.subrange(0, i + 1);
            assert(cur.drop_last() =~= map@.subrange(0, i as int));
            assert(cur.last() == map@[i as int]);
        }
        out.push((class, selected));
        proof {
            assert forall|k: int| 0 <= k < out@.len() implies document_entries(out@)[k] == map@.subrange(0, i + 1)[k] by {
                if k < i {
                    assert(out@[k] == before[k]);
                    assert(document_entries(before)[k] == map@.subrange(0, i as int)[k]);
                }
            }
        }
        i = i + 1;
        assert(document_entries(out@) =~= map@.subrange(0, i as int));
    }
    assert(map@.subrange(0, i as int) =~= map@);
    let _ = map.len();
    out
}

/// The declarations of a class.
pub open spec fn class_document_of(c: OverlayClass, d: ClassDocument) -> bool {
    class_matches(c, d)
}

/// The declaration of an overlay, incompatibilities in identifier order.
pub open spec fn overlay_document_of(o: Overlay, d: OverlayDocument) -> bool {
    &&& d.id@ == o.id@
    &&& d.class@ == o.class@
    &&& d.source@ == o.source@
    &&& strings_view(d.incompatible_with@) == o.incompatible_with@
}

/// The declaration of a profile, selections in class-identifier order.
pub open spec fn profile_document_of(p: Profile, d: ProfileDocument) -> bool {
    &&& d.id@ == p.id@
    &&& document_entries(d.selections@) == p.selections@
}

/// What the document written from a pack holds: the pack's schema family
/// and identifier, and each declaration in the pack's own order, with the
/// members of sets and the keys of maps in identifier order. When the pack is
/// of the supported family the document passes every declaration check, and
/// any parts it translates into hold the pack's own declarations and break
/// no rule.
pub open spec fn document_of(pack: OverlayPack, r: PackDocument) -> bool {
    &&& r.schema@ == pack.spec_schema_family()
    &&& r.id@ == pack.spec_id()@
    &&& r.classes@.len() == pack.spec_classes().len()
    &&& forall|i: int| 0 <= i < r.classes@.len() ==> class_document_of(pack.spec_classes()[i], #[trigger] r.classes@[i])
    &&& r.overlays@.len() == pack.spec_overlays().len()
    &&& forall|i: int| 0 <= i < r.overlays@.len() ==> overlay_document_of(pack.spec_overlays()[i], #[trigger] r.overlays@[i])
    &&& forall|i: int| 0 <= i < r.overlays@.len() ==> strictly_sorted(strings_view((#[trigger] r.overlays@[i]).incompatible_with@))
    &&& r.profiles@.len() == pack.spec_profiles().len()
    &&& forall|i: int| 0 <= i < r.profiles@.len() ==> profile_document_of(pack.spec_profiles()[i], #[trigger] r.profiles@[i])
    &&& r.variables@.len() == pack.spec_variables().len()
    &&& forall|i: int| 0 <= i < r.variables@.len() ==> (#[trigger] r.variables@[i]).name@ == pack.spec_variables()[i].name@
        && r.variables@[i].sensitivity == sensitivity_document_of(pack.spec_variables()[i].sensitivity)
    &&& pack.spec_schema_family() == SCHEMA_FAMILY@ ==> document_fault(r) is None
    &&& forall|cs: Seq<OverlayClass>, os: Seq<Overlay>, ps: Seq<Profile>, vs: Seq<Variable>|
        #[trigger] translated(r, cs, os, ps, vs) ==> parts_fault(cs, os, ps, vs) is None && same_parts(
            cs,
            os,
            ps,
            vs,
            pack.spec_classes(),
            pack.spec_overlays(),
            pack.spec_profiles(),
            pack.spec_variables(),
        )
}

impl PackDocument {
    /// The normalized document of a validated pack: classes in increasing
    /// order; overlays, profiles, and variables, and the members of sets and
    /// keys of maps, in identifier order. The document round-trips: when the
    /// pack is of the supported family, `try_from` rebuilds the same pack
    /// (`lemma_document_round_trip`).
    pub fn from(pack: &OverlayPack) -> (r: PackDocument)
        ensures
            document_of(*pack, r),
    {
        let cs = pack.classes();
        let mut classes: Vec<ClassDocument> = Vec::new();
        let mut i: usize = 0;
        while i < cs.len()
            invariant
                cs@ == pack.spec_classes(),
                0 <= i <= cs@.len(),
                classes@.len() == i,
                forall|j: int| 0 <= j < i ==> class_document_of(cs@[j], #[trigger] classes@[j]),
                classes_document_fault(classes@) is None,
            decreases cs@.len() - i,
        {
            let c = &cs[i];
            let ghost before = classes@;
            let doc = ClassDocument {
                id: c.id.as_str().to_owned(),
                order: c.order,
                minimum: c.cardinality.minimum(),
                maximum: c.cardinality.maximum(),
            };
            assert(class_document_fault(doc) is None);
            classes.push(doc);
            assert(classes@.drop_last() =~= before);
            i = i + 1;
        }
        let os = pack.overlays();
        let mut overlays: Vec<OverlayDocument> = Vec::new();
        let mut i: usize = 0;
        while i < os.len()
            invariant
                os@ == pack.spec_overlays(),
                0 <= i <= os@.len(),
                overlays@.len() == i,
                forall|j: int| 0 <= j < i ==> overlay_document_of(os@[j], #[trigger] overlays@[j]),
                forall|j: int| 0 <= j < i ==> strictly_sorted((#[trigger] os@[j]).incompatible_with@),
                overlays_document_fault(overlays@) is None,
            decreases os@.len() - i,
        {
            let o = &os[i];
            let ghost before = overlays@;
            let doc = OverlayDocument {
                id: o.id.as_str().to_owned(),
                class: o.class.as_str().to_owned(),
                source: o.source.as_str().to_owned(),
                incompatible_with: set_strings(&o.incompatible_with),
            };
            assert(overlay_document_fault(doc) is None);
            overlays.push(doc);
            assert(overlays@.drop_last() =~= before);
            i = i + 1;
        }
        let ps = pack.profiles();
        let mut profiles: Vec<ProfileDocument> = Vec::new();
        let mut i: usize = 0;
        while i < ps.len()
            invariant
                ps@ == pack.spec_profiles(),
                0 <= i <= ps@.len(),
                profiles@.len() == i,
                forall|j: int| 0 <= j < i ==> profile_document_of(ps@[j], #[trigger] profiles@[j]),
                forall|j: int| 0 <= j < i ==> strictly_sorted(keys_of((#[trigger] ps@[j]).selections@)),
                profiles_document_fault(profiles@) is None,
            decreases ps@.len() - i,
        {
            let p = &ps[i];
            let ghost before = profiles@;
            let doc = ProfileDocument { id: p.id.as_str().to_owned(), selections: selection_entries(&p.selections) };
            assert(profile_document_fault(doc) is None);
            profiles.push(doc);
            assert(profiles@.drop_last() =~= before);
            i = i + 1;
        }
        let vs = pack.variables();
        let mut variables: Vec<VariableDocument> = Vec::new();
        let mut i: usize = 0;
        while i < vs.len()
            invariant
                vs@ == pack.spec_variables(),
                0 <= i <= vs@.len(),
                variables@.len() == i,
                forall|j: int| 0 <= j < i ==> (#[trigger] variables@[j]).name@ == vs@[j].name@
                    && variables@[j].sensitivity == sensitivity_document_of(vs@[j].sensitivity),
                variables_document_fault(variables@) is None,
            decreases vs@.len() - i,
        {
            let v = &vs[i];
            let ghost before = variables@;
            let sensitivity = match v.sensitivity {
                Sensitivity::Public => SensitivityDocument::Public,
                Sensitivity::Secret => SensitivityDocument::Secret,
            };
            variables.push(VariableDocument { name: v.name.as_str().to_owned(), sensitivity });
            assert(variables@.drop_last() =~= before);
            i = i + 1;
        }
        let id = pack.id_ref().as_str().to_owned();
        let r = PackDocument { schema: pack.schema_family_ref().clone(), id, classes, overlays, profiles, variables };
        proof {
            let pc = pack.spec_classes();
            let po = pack.spec_overlays();
            let pp = pack.spec_profiles();
            let pv = pack.spec_variables();
            assert forall|tc: Seq<OverlayClass>, to: Seq<Overlay>, tp: Seq<Profile>, tv: Seq<Variable>|
                #[trigger] translated(r, tc, to, tp, tv) implies parts_fault(tc, to, tp, tv) is None && same_parts(
                tc,
                to,
                tp,
                tv,
                pc,
                po,
                pp,
                pv,
            ) by {
                assert forall|i: int| 0 <= i < to.len() implies to[i].incompatible_with@
                    == po[i].incompatible_with@ by {
                    assert(overlay_matches(to[i], r.overlays@[i]));
                    assert(overlay_document_of(po[i], r.overlays@[i]));
                    assert(strictly_sorted(po[i].incompatible_with@));
                    lemma_sorted_texts_are_canonical(to[i].incompatible_with@, po[i].incompatible_with@);
                }
                assert forall|i: int| 0 <= i < tp.len() implies tp[i].selections@ == pp[i].selections@ by {
                    assert(profile_matches(tp[i], r.profiles@[i]));
                    assert(profile_document_of(pp[i], r.profiles@[i]));
                    assert(strictly_sorted(keys_of(pp[i].selections@)));
                    assert forall|k: Seq<char>| #[trigger] lookup(tp[i].selections@, k) == lookup(
                        pp[i].selections@,
                        k,
                    ) by {
                        lemma_last_value_is_lookup(pp[i].selections@, k);
                    }
                    lemma_sorted_entries_are_canonical(tp[i].selections@, pp[i].selections@);
                }
                assert forall|i: int| 0 <= i < tc.len() implies same_class(#[trigger] pc[i], tc[i]) && same_class(
                    tc[i],
                    pc[i],
                ) by {
                    assert(class_matches(tc[i], r.classes@[i]));
                    assert(class_document_of(pc[i], r.classes@[i]));
                }
                assert forall|i: int| 0 <= i < tv.len() implies (#[trigger] tv[i]).sensitivity == pv[i].sensitivity by {
                    assert(r.variables@[i].sensitivity == sensitivity_document_of(pv[i].sensitivity));
                }
                assert(same_parts(pc, po, pp, pv, tc, to, tp, tv));
                lemma_parts_fault_by_views(pc, po, pp, pv, tc, to, tp, tv);
            }
        }
        r
    }
}

/// Reading back the document written from a pack of the supported family
/// gives the pack again: the same identifier and schema family, and the same
/// declarations in the same order.
pub proof fn lemma_document_round_trip(pack: OverlayPack, document: PackDocument, back: Result<OverlayPack, SchemaError>)
    requires
        pack.spec_schema_family() == SCHEMA_FAMILY@,
        parts_normalized(pack.spec_classes(), pack.spec_overlays(), pack.spec_profiles(), pack.spec_variables()),
        parts_fault(pack.spec_classes(), pack.spec_overlays(), pack.spec_profiles(), pack.spec_variables()) is None,
        document_of(pack, document),
        translation_of(document, back),
    ensures
        back matches Ok(p) && p.spec_id()@ == pack.spec_id()@ && p.spec_schema_family() == pack.spec_schema_family()
            && same_parts(
            p.spec_classes(),
            p.spec_overlays(),
            p.spec_profiles(),
            p.spec_variables(),
            pack.spec_classes(),
            pack.spec_overlays(),
            pack.spec_profiles(),
            pack.spec_variables(),
        ),
{
    reveal_strlit("invokrum.dev/v1");
    let pc = pack.spec_classes();
    let po = pack.spec_overlays();
    let pp = pack.spec_profiles();
    let pv = pack.spec_variables();
    assert(document_fault(document) is None);
    let (cs, os, ps, vs): (Seq<OverlayClass>, Seq<Overlay>, Seq<Profile>, Seq<Variable>) = choose|
        cs: Seq<OverlayClass>,
        os: Seq<Overlay>,
        ps: Seq<Profile>,
        vs: Seq<Variable>,
    |
        translated(document, cs, os, ps, vs) && match pack_fault(document.schema@, cs, os, ps, vs) {
            Some(f) => back matches Err(e) && e@ == SchemaFault::Domain(f),
            None => back matches Ok(p) && p.spec_id()@ == document.id@ && p.spec_schema_family() == document.schema@
                && p.spec_classes().to_multiset() == cs.to_multiset() && p.spec_overlays().to_multiset()
                == os.to_multiset() && p.spec_profiles().to_multiset() == ps.to_multiset()
                && p.spec_variables().to_multiset() == vs.to_multiset() && parts_normalized(
                p.spec_classes(),
                p.spec_overlays(),
                p.spec_profiles(),
                p.spec_variables(),
            ),
        };
    assert(parts_fault(cs, os, ps, vs) is None && same_parts(cs, os, ps, vs, pc, po, pp, pv));
    assert(pack_fault(document.schema@, cs, os, ps, vs) is None);
    let p = back->Ok_0;
    assert forall|i: int| 0 <= i < pc.len() implies same_class(#[trigger] pc[i], cs[i]) by {
        assert(same_class(cs[i], pc[i]));
    }
    assert(same_parts(pc, po, pp, pv, cs, os, ps, vs));
    lemma_parts_fault_by_views(pc, po, pp, pv, cs, os, ps, vs);
    lemma_class_order_ignores_declaration_order(p.spec_classes(), cs);
    assert(keys(p.spec_overlays()) =~= overlay_ids(p.spec_overlays()));
    assert(keys(os) =~= overlay_ids(os));
    lemma_identifier_order_ignores_declaration_order(p.spec_overlays(), os);
    assert(keys(p.spec_profiles()) =~= profile_ids(p.spec_profiles()));
    assert(keys(ps) =~= profile_ids(ps));
    lemma_identifier_order_ignores_declaration_order(p.spec_profiles(), ps);
    assert(keys(p.spec_variables()) =~= variable_names(p.spec_variables()));
    assert(keys(vs) =~= variable_names(vs));
    lemma_identifier_order_ignores_declaration_order(p.spec_variables(), vs);
}

} // verus!
