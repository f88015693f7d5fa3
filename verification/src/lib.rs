//! Deterministic prompt-overlay composition: validated domain types, pack
//! construction, deterministic resolution and composition, the schema
//! boundary between documents and the domain model, the strict YAML subset,
//! and the decisions of the subprocess protocol and of safe persistent
//! output.

mod text;
pub mod collections;
pub mod model;
pub mod pack;
pub mod composition;
pub mod schema;
pub mod strict;
pub mod rpc;
pub mod output;

pub use collections::{IdentifierSet, SelectionMap};
pub use composition::{
    compose, Composition, CompositionError, CompositionLimits, OverlaySource, ResolvedEntry,
    ResolvedManifest, ResolvedSegment, SourceFailure, SourceFailureKind,
};
pub use model::{
    Cardinality, DomainError, Identifier, Overlay, OverlayClass, PackRelativePath, Profile,
    Sensitivity, Variable,
};
pub use pack::OverlayPack;
pub use schema::SchemaError;
pub use strict::YamlFeature;

use vstd::prelude::*;

verus! {

/// Current public schema family understood by the pack model.
pub const SCHEMA_FAMILY: &'static str = "invokrum.dev/v1";

} // verus!
