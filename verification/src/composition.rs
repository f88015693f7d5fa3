//! Deterministic resolution of one profile into ordered overlay segments and
//! normalized context bytes.

use crate::collections::lookup;
use crate::model::{Identifier, Overlay, OverlayClass, PackRelativePath, Profile};
use crate::text::{decimal, decimal_text};
use crate::pack::{
    class_ids, entries_fault, entry_fault, lemma_normalized_parts_arranged, lemma_position_of_unique, lemma_position_some,
    lemma_valid_parts_hold_every_rule, members_fault, overlay_ids, parts_fault, parts_normalized, position, profile_ids,
    profiles_fault, selection_respects, OverlayPack,
};
use vstd::prelude::*;

verus! {

/// Explicit resource limits applied during composition.
#[derive(Clone, Copy, Debug, PartialEq, Eq, Structural)]
pub struct CompositionLimits {
    maximum_overlays: usize,
    maximum_overlay_bytes: usize,
    maximum_output_bytes: usize,
}

impl CompositionLimits {
    /// The maximum number of selected overlays.
    pub closed spec fn spec_maximum_overlays(self) -> usize {
        self.maximum_overlays
    }

    /// The maximum bytes accepted from one overlay source.
    pub closed spec fn spec_maximum_overlay_bytes(self) -> usize {
        self.maximum_overlay_bytes
    }

    /// The maximum normalized output size.
    pub closed spec fn spec_maximum_output_bytes(self) -> usize {
        self.maximum_output_bytes
    }

    /// Creates composition limits.
    pub fn new(maximum_overlays: usize, maximum_overlay_bytes: usize, maximum_output_bytes: usize) -> (r: Self)
        ensures
            r.spec_maximum_overlays() == maximum_overlays,
            r.spec_maximum_overlay_bytes() == maximum_overlay_bytes,
            r.spec_maximum_output_bytes() == maximum_output_bytes,
    {
        CompositionLimits { maximum_overlays, maximum_overlay_bytes, maximum_output_bytes }
    }

    /// Returns the maximum number of selected overlays.
    pub fn maximum_overlays(self) -> (r: usize)
        ensures
            r == self.spec_maximum_overlays(),
    {
        self.maximum_overlays
    }

    /// Returns the maximum bytes accepted from one overlay source.
    pub fn maximum_overlay_bytes(self) -> (r: usize)
        ensures
            r == self.spec_maximum_overlay_bytes(),
    {
        self.maximum_overlay_bytes
    }

    /// Returns the maximum normalized output size.
    pub fn maximum_output_bytes(self) -> (r: usize)
        ensures
            r == self.spec_maximum_output_bytes(),
    {
        self.maximum_output_bytes
    }
}

impl Default for CompositionLimits {
    /// 256 overlays, 1 MiB per overlay source, 8 MiB of normalized output.
    fn default() -> (r: Self)
        ensures
            r.spec_maximum_overlays() == 256,
            r.spec_maximum_overlay_bytes() == 1_048_576,
            r.spec_maximum_output_bytes() == 8_388_608,
    {
        Self::new(256, 1_048_576, 8_388_608)
    }
}

/// Port through which composition obtains stable source bytes.
///
/// Implementations must return bytes from one stable read, perform no network
/// access, and fail closed when the requested path cannot be proven acceptable.
pub trait OverlaySource {
    /// Whether `result` is an answer this source gives when asked for the
    /// pack-relative path `source` with the byte limit `maximum_bytes`. A
    /// source that says nothing of its answers may give any.
    open spec fn answers(&self, source: Seq<char>, maximum_bytes: usize, result: Result<Seq<u8>, SourceFailure>) -> bool {
        true
    }

    /// Loads one validated pack-relative source.
    fn load(&self, source: &PackRelativePath, maximum_bytes: usize) -> (r: Result<Vec<u8>, SourceFailure>)
        ensures
            self.answers(source@, maximum_bytes, load_view(r)),
    ;
}

/// Stable category for an outward source-adapter rejection.
#[derive(Clone, Copy, Debug, PartialEq, Eq, Structural)]
pub enum SourceFailureKind {
    NotFound,
    NotRegularFile,
    SymbolicLink,
    HardLink,
    MountBoundary,
    RootEscape,
    ChangedDuringRead,
    TooLarge,
    PermissionDenied,
    UnsupportedPlatform,
    Io,
}

/// A source-adapter failure tied to a validated pack-relative path.
#[derive(Clone, Debug)]
pub struct SourceFailure {
    pub path: PackRelativePath,
    pub kind: SourceFailureKind,
}

impl SourceFailure {
    /// Creates a stable source failure without embedding host error text.
    pub fn new(path: PackRelativePath, kind: SourceFailureKind) -> (r: Self)
        ensures
            r.path == path,
            r.kind == kind,
    {
        SourceFailure { path, kind }
    }
}

/// One normalized manifest entry in composition order.
#[derive(Clone, Debug)]
pub struct ResolvedEntry {
    pub class: Identifier,
    pub overlay: Identifier,
    pub source: PackRelativePath,
    pub byte_length: usize,
}

/// Deterministic structural description of a resolved profile.
#[derive(Clone, Debug)]
pub struct ResolvedManifest {
    pub pack: Identifier,
    pub schema_family: String,
    pub profile: Identifier,
    pub entries: Vec<ResolvedEntry>,
    pub source_bytes: usize,
    pub output_bytes: usize,
}

/// Exact source bytes paired with their validated structural authority.
#[derive(Clone, Debug)]
pub struct ResolvedSegment {
    pub class: Identifier,
    pub overlay: Identifier,
    pub source: PackRelativePath,
    pub bytes: Vec<u8>,
}

/// A deterministic composition result.
///
/// Structural ordering is held apart from overlay prose, so a later segment
/// cannot redefine the class authority or order set by the pack and profile.
#[derive(Clone, Debug)]
pub struct Composition {
    manifest: ResolvedManifest,
    segments: Vec<ResolvedSegment>,
    normalized_context: Vec<u8>,
}

/// A deterministic composition failure.
#[derive(Clone, Debug)]
pub enum CompositionError {
    UnknownProfile(Identifier),
    MissingOverlay(Identifier),
    TooManyOverlays { count: usize, maximum: usize },
    IncompatibleOverlays { overlay: Identifier, other: Identifier },
    OverlayTooLarge { overlay: Identifier, size: usize, maximum: usize },
    OutputTooLarge { size: usize, maximum: usize },
    Source(SourceFailure),
}

/// The content of a composition failure, with texts for identifiers and paths.
pub enum CompositionFault {
    UnknownProfile(Seq<char>),
    MissingOverlay(Seq<char>),
    TooManyOverlays { count: usize, maximum: usize },
    IncompatibleOverlays { overlay: Seq<char>, other: Seq<char> },
    OverlayTooLarge { overlay: Seq<char>, size: usize, maximum: usize },
    OutputTooLarge { size: usize, maximum: usize },
    Source { path: Seq<char>, kind: SourceFailureKind },
}

impl View for CompositionError {
    type V = CompositionFault;

    open spec fn view(&self) -> CompositionFault {
        match self {
            CompositionError::UnknownProfile(p) => CompositionFault::UnknownProfile(p@),
            CompositionError::MissingOverlay(o) => CompositionFault::MissingOverlay(o@),
            CompositionError::TooManyOverlays { count, maximum } => CompositionFault::TooManyOverlays {
                count: *count,
                maximum: *maximum,
            },
            CompositionError::IncompatibleOverlays { overlay, other } =>
                CompositionFault::IncompatibleOverlays { overlay: overlay@, other: other@ },
            CompositionError::OverlayTooLarge { overlay, size, maximum } =>
                CompositionFault::OverlayTooLarge { overlay: overlay@, size: *size, maximum: *maximum },
            CompositionError::OutputTooLarge { size, maximum } => CompositionFault::OutputTooLarge {
                size: *size,
                maximum: *maximum,
            },
            CompositionError::Source(f) => CompositionFault::Source { path: f.path@, kind: f.kind },
        }
    }
}

/// The human-readable text of a source rejection category.
pub open spec fn source_failure_text(kind: SourceFailureKind) -> Seq<char> {
    match kind {
        SourceFailureKind::NotFound => "not found"@,
        SourceFailureKind::NotRegularFile => "not a regular file"@,
        SourceFailureKind::SymbolicLink => "symbolic link rejected"@,
        SourceFailureKind::HardLink => "hard link rejected"@,
        SourceFailureKind::MountBoundary => "filesystem boundary rejected"@,
        SourceFailureKind::RootEscape => "pack-root escape rejected"@,
        SourceFailureKind::ChangedDuringRead => "source changed during read"@,
        SourceFailureKind::TooLarge => "source exceeds configured size limit"@,
        SourceFailureKind::PermissionDenied => "permission denied"@,
        SourceFailureKind::UnsupportedPlatform => "unsupported platform"@,
        SourceFailureKind::Io => "I/O failure"@,
    }
}

impl SourceFailureKind {
    /// The category's human-readable text.
    pub fn describe(self) -> (r: &'static str)
        ensures
            r@ == source_failure_text(self),
    {
        match self {
            SourceFailureKind::NotFound => "not found",
            SourceFailureKind::NotRegularFile => "not a regular file",
            SourceFailureKind::SymbolicLink => "symbolic link rejected",
            SourceFailureKind::HardLink => "hard link rejected",
            SourceFailureKind::MountBoundary => "filesystem boundary rejected",
            SourceFailureKind::RootEscape => "pack-root escape rejected",
            SourceFailureKind::ChangedDuringRead => "source changed during read",
            SourceFailureKind::TooLarge => "source exceeds configured size limit",
            SourceFailureKind::PermissionDenied => "permission denied",
            SourceFailureKind::UnsupportedPlatform => "unsupported platform",
            SourceFailureKind::Io => "I/O failure",
        }
    }
}

/// The human-readable message of a composition failure.
pub open spec fn composition_message(fault: CompositionFault) -> Seq<char> {
    match fault {
        CompositionFault::UnknownProfile(p) => "unknown profile `"@ + p + "`"@,
        CompositionFault::MissingOverlay(o) => "validated profile references missing overlay `"@ + o + "`"@,
        CompositionFault::TooManyOverlays { count, maximum } => "selected "@ + decimal(count as nat)
            + " overlays; maximum is "@ + decimal(maximum as nat),
        CompositionFault::IncompatibleOverlays { overlay, other } => "overlay `"@ + overlay
            + "` is incompatible with `"@ + other + "`"@,
        CompositionFault::OverlayTooLarge { overlay, size, maximum } => "overlay `"@ + overlay + "` contains "@
            + decimal(size as nat) + " bytes; maximum is "@ + decimal(maximum as nat),
        CompositionFault::OutputTooLarge { size, maximum } => "normalized output requires "@ + decimal(
            size as nat,
        ) + " bytes; maximum is "@ + decimal(maximum as nat),
        CompositionFault::Source { kind, .. } => "overlay source was rejected: "@ + source_failure_text(kind),
    }
}

impl CompositionError {
    /// The failure's human-readable message.
    pub fn message(&self) -> (r: String)
        ensures
            r@ == composition_message(self@),
    {
        match self {
            CompositionError::UnknownProfile(p) => "unknown profile `".to_owned().concat(p.as_str()).concat("`"),
            CompositionError::MissingOverlay(o) => "validated profile references missing overlay `".to_owned().concat(
                o.as_str(),
            ).concat("`"),
            CompositionError::TooManyOverlays { count, maximum } => {
                let count_text = decimal_text(*count);
                let maximum_text = decimal_text(*maximum);
                "selected ".to_owned().concat(count_text.as_str()).concat(" overlays; maximum is ").concat(
                    maximum_text.as_str(),
                )
            },
            CompositionError::IncompatibleOverlays { overlay, other } => "overlay `".to_owned().concat(
                overlay.as_str(),
            ).concat("` is incompatible with `").concat(other.as_str()).concat("`"),
            CompositionError::OverlayTooLarge { overlay, size, maximum } => {
                let size_text = decimal_text(*size);
                let maximum_text = decimal_text(*maximum);
                "overlay `".to_owned().concat(overlay.as_str()).concat("` contains ").concat(size_text.as_str()).concat(
                    " bytes; maximum is ",
                ).concat(maximum_text.as_str())
            },
            CompositionError::OutputTooLarge { size, maximum } => {
                let size_text = decimal_text(*size);
                let maximum_text = decimal_text(*maximum);
                "normalized output requires ".to_owned().concat(size_text.as_str()).concat(
                    " bytes; maximum is ",
                ).concat(maximum_text.as_str())
            },
            CompositionError::Source(f) => "overlay source was rejected: ".to_owned().concat(f.kind.describe()),
        }
    }
}

/// The overlay identifiers a profile selects, class by class in the given
/// class order, each class's in the profile's declared order.
pub open spec fn selection_of(cs: Seq<OverlayClass>, sels: Seq<(Seq<char>, Seq<Seq<char>>)>) -> Seq<Seq<char>>
    decreases cs.len(),
{
    if cs.len() == 0 {
        Seq::empty()
    } else {
        selection_of(cs.drop_last(), sels) + match lookup(sels, cs.last().id@) {
            Some(v) => v,
            None => Seq::empty(),
        }
    }
}

/// The overlays named by `ids` (the first with each identifier), or the first
/// identifier that no overlay has.
pub open spec fn resolve_overlays(os: Seq<Overlay>, ids: Seq<Seq<char>>) -> Result<Seq<Overlay>, Seq<char>>
    decreases ids.len(),
{
    if ids.len() == 0 {
        Ok(Seq::empty())
    } else {
        match resolve_overlays(os, ids.drop_last()) {
            Err(m) => Err(m),
            Ok(sel) => match position(overlay_ids(os), ids.last()) {
                Some(k) => Ok(sel.push(os[k])),
                None => Err(ids.last()),
            },
        }
    }
}

/// `a` declares `b` incompatible.
pub open spec fn conflicts(a: Overlay, b: Overlay) -> bool {
    a.incompatible_with@.contains(b.id@)
}

/// The position of the first overlay in `sel` that `a` declares incompatible.
pub open spec fn row_conflict(sel: Seq<Overlay>, a: Overlay) -> Option<int>
    decreases sel.len(),
{
    if sel.len() == 0 {
        None
    } else {
        match row_conflict(sel.drop_last(), a) {
            Some(j) => Some(j),
            None => if conflicts(a, sel.last()) {
                Some(sel.len() - 1)
            } else {
                None
            },
        }
    }
}

/// The first pair `(i, j)`, in row-major order over `rows` then `all`, in
/// which `rows[i]` declares `all[j]` incompatible.
pub open spec fn first_conflict(rows: Seq<Overlay>, all: Seq<Overlay>) -> Option<(int, int)>
    decreases rows.len(),
{
    if rows.len() == 0 {
        None
    } else {
        match first_conflict(rows.drop_last(), all) {
            Some(p) => Some(p),
            None => match row_conflict(all, rows.last()) {
                Some(j) => Some((rows.len() - 1, j)),
                None => None,
            },
        }
    }
}

/// The decisions made before any source is read: the profile, its overlays in
/// composition order, the overlay-count limit, and compatibility.
pub open spec fn plan(pack: OverlayPack, profile_id: Seq<char>, limits: CompositionLimits) -> Result<(Profile, Seq<Overlay>), CompositionFault> {
    match position(profile_ids(pack.spec_profiles()), profile_id) {
        None => Err(CompositionFault::UnknownProfile(profile_id)),
        Some(p) => {
            let profile = pack.spec_profiles()[p];
            match resolve_overlays(pack.spec_overlays(), selection_of(pack.spec_classes(), profile.selections@)) {
                Err(m) => Err(CompositionFault::MissingOverlay(m)),
                Ok(sel) => if sel.len() > limits.spec_maximum_overlays() {
                    Err(CompositionFault::TooManyOverlays { count: sel.len() as usize, maximum: limits.spec_maximum_overlays() })
                } else {
                    match first_conflict(sel, sel) {
                        Some((i, j)) => Err(CompositionFault::IncompatibleOverlays { overlay: sel[i].id@, other: sel[j].id@ }),
                        None => Ok((profile, sel)),
                    }
                },
            }
        },
    }
}

/// The two line-feed bytes that separate adjacent segments.
pub open spec fn separator() -> Seq<u8> {
    seq![10u8, 10u8]
}

/// Accepts one loaded source: the context so far (empty before the first
/// segment), the source byte total so far, and the load result.
pub open spec fn load_step(
    context: Seq<u8>,
    source_bytes: int,
    first: bool,
    o: Overlay,
    load: Result<Seq<u8>, SourceFailure>,
    limits: CompositionLimits,
) -> Result<(Seq<u8>, int), CompositionFault> {
    match load {
        Err(f) => Err(CompositionFault::Source { path: f.path@, kind: f.kind }),
        Ok(bytes) => {
            let max_out = limits.spec_maximum_output_bytes();
            let sep: int = if first { 0 } else { 2 };
            let required = context.len() + sep + bytes.len();
            if bytes.len() > limits.spec_maximum_overlay_bytes() {
                Err(CompositionFault::OverlayTooLarge { overlay: o.id@, size: bytes.len() as usize, maximum: limits.spec_maximum_overlay_bytes() })
            } else if source_bytes + bytes.len() > usize::MAX {
                Err(CompositionFault::OutputTooLarge { size: usize::MAX, maximum: max_out })
            } else if required > usize::MAX {
                Err(CompositionFault::OutputTooLarge { size: usize::MAX, maximum: max_out })
            } else if required > max_out {
                Err(CompositionFault::OutputTooLarge { size: required as usize, maximum: max_out })
            } else {
                Ok((if first { bytes } else { context + separator() + bytes }, source_bytes + bytes.len()))
            }
        },
    }
}

/// Folds `load_step` over the first `loads.len()` selected overlays.
pub open spec fn assemble(sel: Seq<Overlay>, loads: Seq<Result<Seq<u8>, SourceFailure>>, limits: CompositionLimits) -> Result<(Seq<u8>, int), CompositionFault>
    decreases loads.len(),
{
    if loads.len() == 0 {
        Ok((Seq::empty(), 0))
    } else {
        match assemble(sel, loads.drop_last(), limits) {
            Err(e) => Err(e),
            Ok((context, total)) => load_step(context, total, loads.len() == 1, sel[loads.len() - 1], loads.last(), limits),
        }
    }
}

/// One manifest entry's content.
pub struct EntryView {
    pub class: Seq<char>,
    pub overlay: Seq<char>,
    pub source: Seq<char>,
    pub byte_length: usize,
}

/// One segment's content.
pub struct SegmentView {
    pub class: Seq<char>,
    pub overlay: Seq<char>,
    pub source: Seq<char>,
    pub bytes: Seq<u8>,
}

/// A composition's content.
pub struct CompositionView {
    pub pack: Seq<char>,
    pub schema_family: Seq<char>,
    pub profile: Seq<char>,
    pub entries: Seq<EntryView>,
    pub source_bytes: usize,
    pub output_bytes: usize,
    pub segments: Seq<SegmentView>,
    pub context: Seq<u8>,
}

impl View for ResolvedEntry {
    type V = EntryView;

    open spec fn view(&self) -> EntryView {
        EntryView { class: self.class@, overlay: self.overlay@, source: self.source@, byte_length: self.byte_length }
    }
}

impl View for ResolvedSegment {
    type V = SegmentView;

    open spec fn view(&self) -> SegmentView {
        SegmentView { class: self.class@, overlay: self.overlay@, source: self.source@, bytes: self.bytes@ }
    }
}

impl View for Composition {
    type V = CompositionView;

    closed spec fn view(&self) -> CompositionView {
        CompositionView {
            pack: self.manifest.pack@,
            schema_family: self.manifest.schema_family@,
            profile: self.manifest.profile@,
            entries: self.manifest.entries@.map_values(|e: ResolvedEntry| e@),
            source_bytes: self.manifest.source_bytes,
            output_bytes: self.manifest.output_bytes,
            segments: self.segments@.map_values(|s: ResolvedSegment| s@),
            context: self.normalized_context@,
        }
    }
}

/// The bytes of each successful load.
pub open spec fn loaded_bytes(loads: Seq<Result<Seq<u8>, SourceFailure>>) -> Seq<Seq<u8>> {
    loads.map_values(|l: Result<Seq<u8>, SourceFailure>| match l {
        Ok(b) => b,
        Err(_) => Seq::empty(),
    })
}

/// The composition of a pack profile whose selected overlays `sel` loaded as `loads`.
pub open spec fn composition_of(
    pack: OverlayPack,
    profile: Profile,
    sel: Seq<Overlay>,
    loads: Seq<Result<Seq<u8>, SourceFailure>>,
    context: Seq<u8>,
    source_bytes: int,
) -> CompositionView {
    let bytes = loaded_bytes(loads);
    CompositionView {
        pack: pack.spec_id()@,
        schema_family: pack.spec_schema_family(),
        profile: profile.id@,
        entries: Seq::new(sel.len(), |k: int| EntryView { class: sel[k].class@, overlay: sel[k].id@, source: sel[k].source@, byte_length: bytes[k].len() as usize }),
        source_bytes: source_bytes as usize,
        output_bytes: context.len() as usize,
        segments: Seq::new(sel.len(), |k: int| SegmentView { class: sel[k].class@, overlay: sel[k].id@, source: sel[k].source@, bytes: bytes[k] }),
        context,
    }
}

/// The outcome of composing `profile_id` when the sources, requested in
/// composition order, answer with `loads`.
pub open spec fn composition_outcome(
    pack: OverlayPack,
    profile_id: Seq<char>,
    limits: CompositionLimits,
    loads: Seq<Result<Seq<u8>, SourceFailure>>,
) -> Result<CompositionView, CompositionFault> {
    match plan(pack, profile_id, limits) {
        Err(e) => Err(e),
        Ok((profile, sel)) => match assemble(sel, loads, limits) {
            Err(e) => Err(e),
            Ok((context, total)) => Ok(composition_of(pack, profile, sel, loads, context, total)),
        },
    }
}

/// `loads` are the answers to the requests composition makes: none when the
/// plan fails; otherwise one per selected overlay, stopping after the first
/// answer that fails composition.
pub open spec fn answers_requests(
    pack: OverlayPack,
    profile_id: Seq<char>,
    limits: CompositionLimits,
    loads: Seq<Result<Seq<u8>, SourceFailure>>,
) -> bool {
    match plan(pack, profile_id, limits) {
        Err(_) => loads.len() == 0,
        Ok((_, sel)) => {
            &&& loads.len() <= sel.len()
            &&& forall|k: int| 0 <= k < loads.len() ==> #[trigger] assemble(sel, loads.subrange(0, k), limits) is Ok
            &&& loads.len() < sel.len() ==> assemble(sel, loads, limits) is Err
        },
    }
}

/// The view of a composition result.
pub open spec fn outcome_view(r: Result<Composition, CompositionError>) -> Result<CompositionView, CompositionFault> {
    match r {
        Ok(c) => Ok(c@),
        Err(e) => Err(e@),
    }
}

/// The overlays at the given positions.
pub open spec fn overlays_at(os: Seq<Overlay>, idx: Seq<usize>) -> Seq<Overlay> {
    idx.map_values(|i: usize| os[i as int])
}

proof fn lemma_resolve_prefix(os: Seq<Overlay>, ids: Seq<Seq<char>>, k: int)
    requires
        0 <= k <= ids.len(),
        resolve_overlays(os, ids.subrange(0, k)) is Err,
    ensures
        resolve_overlays(os, ids) == resolve_overlays(os, ids.subrange(0, k)),
    decreases ids.len() - k,
{
    if k < ids.len() {
        assert(ids.subrange(0, k + 1).drop_last() =~= ids.subrange(0, k));
        lemma_resolve_prefix(os, ids, k + 1);
    } else {
        assert(ids.subrange(0, k) =~= ids);
    }
}

proof fn lemma_selection_prefix(cs: Seq<OverlayClass>, sels: Seq<(Seq<char>, Seq<Seq<char>>)>, m: int)
    requires
        0 <= m <= cs.len(),
    ensures
        selection_of(cs.subrange(0, m), sels).len() <= selection_of(cs, sels).len(),
        selection_of(cs, sels).subrange(0, selection_of(cs.subrange(0, m), sels).len() as int)
            == selection_of(cs.subrange(0, m), sels),
    decreases cs.len() - m,
{
    if m < cs.len() {
        lemma_selection_prefix(cs, sels, m + 1);
        let a = selection_of(cs.subrange(0, m), sels);
        let b = selection_of(cs.subrange(0, m + 1), sels);
        assert(cs.subrange(0, m + 1).drop_last() =~= cs.subrange(0, m));
        assert(b.subrange(0, a.len() as int) =~= a);
        let full = selection_of(cs, sels);
        assert(full.subrange(0, a.len() as int) =~= b.subrange(0, a.len() as int));
    } else {
        assert(cs.subrange(0, m) =~= cs);
        assert(selection_of(cs, sels).subrange(0, selection_of(cs, sels).len() as int) =~= selection_of(cs, sels));
    }
}

/// Finds the first profile with an identifier.
fn find_profile(profiles: &[Profile], id: &Identifier) -> (r: Option<usize>)
    ensures
        r matches Some(i) ==> position(profile_ids(profiles@), id@) == Some(i as int),
        r is None ==> position(profile_ids(profiles@), id@) is None,
{
    let ghost ids = profile_ids(profiles@);
    let n = profiles.len();
    let mut i: usize = 0;
    while i < n
        invariant
            n == profiles@.len(),
            ids == profile_ids(profiles@),
            0 <= i <= n,
            forall|j: int| 0 <= j < i ==> ids[j] != id@,
        decreases n - i,
    {
        if profiles[i].id == *id {
            proof {
                crate::pack::lemma_position_first(ids, id@, i as int);
            }
            return Some(i);
        }
        i = i + 1;
    }
    proof {
        crate::pack::lemma_position_absent(ids, id@);
    }
    None
}

/// Finds the first overlay with an identifier.
fn find_overlay(overlays: &[Overlay], id: &Identifier) -> (r: Option<usize>)
    ensures
        r matches Some(i) ==> position(overlay_ids(overlays@), id@) == Some(i as int),
        r is None ==> position(overlay_ids(overlays@), id@) is None,
{
    let ghost ids = overlay_ids(overlays@);
    let n = overlays.len();
    let mut i: usize = 0;
    while i < n
        invariant
            n == overlays@.len(),
            ids == overlay_ids(overlays@),
            0 <= i <= n,
            forall|j: int| 0 <= j < i ==> ids[j] != id@,
        decreases n - i,
    {
        if overlays[i].id == *id {
            proof {
                crate::pack::lemma_position_first(ids, id@, i as int);
            }
            return Some(i);
        }
        i = i + 1;
    }
    proof {
        crate::pack::lemma_position_absent(ids, id@);
    }
    None
}

/// Resolves a profile's selections, class by class, into overlay positions.
fn select_overlays(classes: &[OverlayClass], overlays: &[Overlay], profile: &Profile) -> (r: Result<Vec<usize>, CompositionError>)
    ensures
        match resolve_overlays(overlays@, selection_of(classes@, profile.selections@)) {
            Err(m) => r matches Err(e) && e@ == CompositionFault::MissingOverlay(m),
            Ok(sel) => r matches Ok(idx) && overlays_at(overlays@, idx@) == sel && forall|k: int| 0 <= k < idx@.len() ==> #[trigger] idx@[k] < overlays@.len(),
        },
{
    let ghost cs = classes@;
    let ghost os = overlays@;
    let ghost sels = profile.selections@;
    let ghost full = selection_of(cs, sels);
    let mut idx: Vec<usize> = Vec::new();
    let nc = classes.len();
    let mut ci: usize = 0;
    assert(cs.subrange(0, 0) =~= Seq::<OverlayClass>::empty());
    assert(selection_of(cs.subrange(0, 0), sels) =~= Seq::<Seq<char>>::empty());
    assert(overlays_at(os, idx@) =~= Seq::<Overlay>::empty());
    while ci < nc
        invariant
            nc == cs.len(),
            cs == classes@,
            os == overlays@,
            sels == profile.selections@,
            full == selection_of(cs, sels),
            0 <= ci <= nc,
            resolve_overlays(os, selection_of(cs.subrange(0, ci as int), sels)) == Ok::<Seq<Overlay>, Seq<char>>(overlays_at(os, idx@)),
            forall|k: int| 0 <= k < idx@.len() ==> #[trigger] idx@[k] < os.len(),
        decreases nc - ci,
    {
        let ghost done = selection_of(cs.subrange(0, ci as int), sels);
        let ghost next = selection_of(cs.subrange(0, ci + 1), sels);
        assert(cs.subrange(0, ci + 1).drop_last() =~= cs.subrange(0, ci as int));
        assert(cs.subrange(0, ci + 1).last() == cs[ci as int]);
        match profile.selections.get(&classes[ci].id) {
            None => {
                assert(next =~= done);
            },
            Some(ids) => {
                let ghost v = crate::model::ids_view(ids@);
                assert(next =~= done + v);
                let n = ids.len();
                let mut k: usize = 0;
                assert(done + v.subrange(0, 0) =~= done);
                while k < n
                    invariant
                        n == v.len(),
                        v == crate::model::ids_view(ids@),
                        nc == cs.len(),
                        cs == classes@,
                        os == overlays@,
                        sels == profile.selections@,
                        full == selection_of(cs, sels),
                        0 <= ci < nc,
                        done == selection_of(cs.subrange(0, ci as int), sels),
                        next == selection_of(cs.subrange(0, ci + 1), sels),
                        next == done + v,
                        0 <= k <= n,
                        resolve_overlays(os, done + v.subrange(0, k as int)) == Ok::<Seq<Overlay>, Seq<char>>(overlays_at(os, idx@)),
                        forall|j: int| 0 <= j < idx@.len() ==> #[trigger] idx@[j] < os.len(),
                    decreases n - k,
                {
                    let ghost cur = done + v.subrange(0, k + 1);
                    assert(cur.drop_last() =~= done + v.subrange(0, k as int));
                    assert(cur.last() == ids[k as int]@);
                    match find_overlay(overlays, &ids[k]) {
                        None => {
                            proof {
                                lemma_selection_prefix(cs, sels, ci + 1);
                                assert(full.subrange(0, cur.len() as int) =~= cur);
                                lemma_resolve_prefix(os, full, cur.len() as int);
                            }
                            return Err(CompositionError::MissingOverlay(ids[k].clone()));
                        },
                        Some(o) => {
                            proof {
                                crate::pack::lemma_position_some(overlay_ids(os), ids[k as int]@);
                            }
                            let ghost before = overlays_at(os, idx@);
                            assert(resolve_overlays(os, cur.drop_last()) == Ok::<Seq<Overlay>, Seq<char>>(before));
                            assert(position(overlay_ids(os), cur.last()) == Some(o as int));
                            assert(resolve_overlays(os, cur) == Ok::<Seq<Overlay>, Seq<char>>(before.push(os[o as int])));
                            idx.push(o);
                            assert(overlays_at(os, idx@) =~= before.push(os[o as int]));
                        },
                    }
                    k = k + 1;
                }
                assert(done + v.subrange(0, n as int) =~= next);
            },
        }
        ci = ci + 1;
    }
    assert(cs.subrange(0, nc as int) =~= cs);
    Ok(idx)
}

proof fn lemma_row_conflict_prefix(sel: Seq<Overlay>, a: Overlay, k: int)
    requires
        0 <= k <= sel.len(),
        row_conflict(sel.subrange(0, k), a) is Some,
    ensures
        row_conflict(sel, a) == row_conflict(sel.subrange(0, k), a),
    decreases sel.len() - k,
{
    if k < sel.len() {
        assert(sel.subrange(0, k + 1).drop_last() =~= sel.subrange(0, k));
        lemma_row_conflict_prefix(sel, a, k + 1);
    } else {
        assert(sel.subrange(0, k) =~= sel);
    }
}

proof fn lemma_first_conflict_prefix(rows: Seq<Overlay>, all: Seq<Overlay>, k: int)
    requires
        0 <= k <= rows.len(),
        first_conflict(rows.subrange(0, k), all) is Some,
    ensures
        first_conflict(rows, all) == first_conflict(rows.subrange(0, k), all),
    decreases rows.len() - k,
{
    if k < rows.len() {
        assert(rows.subrange(0, k + 1).drop_last() =~= rows.subrange(0, k));
        lemma_first_conflict_prefix(rows, all, k + 1);
    } else {
        assert(rows.subrange(0, k) =~= rows);
    }
}

/// Finds the first incompatible pair among the selected overlays.
fn find_conflict(overlays: &[Overlay], idx: &Vec<usize>) -> (r: Option<(usize, usize)>)
    requires
        forall|k: int| 0 <= k < idx@.len() ==> #[trigger] idx@[k] < overlays@.len(),
    ensures
        match first_conflict(overlays_at(overlays@, idx@), overlays_at(overlays@, idx@)) {
            None => r is None,
            Some((i, j)) => r == Some((i as usize, j as usize)) && 0 <= i < idx@.len() && 0 <= j < idx@.len(),
        },
{
    let ghost sel = overlays_at(overlays@, idx@);
    let n = idx.len();
    let mut i: usize = 0;
    while i < n
        invariant
            n == idx@.len(),
            sel == overlays_at(overlays@, idx@),
            forall|k: int| 0 <= k < idx@.len() ==> #[trigger] idx@[k] < overlays@.len(),
            0 <= i <= n,
            first_conflict(sel.subrange(0, i as int), sel) is None,
        decreases n - i,
    {
        let a = &overlays[idx[i]];
        assert(*a == sel[i as int]);
        let mut j: usize = 0;
        while j < n
            invariant
                n == idx@.len(),
                sel == overlays_at(overlays@, idx@),
                forall|k: int| 0 <= k < idx@.len() ==> #[trigger] idx@[k] < overlays@.len(),
                0 <= i < n,
                *a == sel[i as int],
                0 <= j <= n,
                first_conflict(sel.subrange(0, i as int), sel) is None,
                row_conflict(sel.subrange(0, j as int), *a) is None,
            decreases n - j,
        {
            let b = &overlays[idx[j]];
            assert(*b == sel[j as int]);
            assert(sel.subrange(0, j + 1).drop_last() =~= sel.subrange(0, j as int));
            if a.incompatible_with.contains(&b.id) {
                proof {
                    assert(row_conflict(sel.subrange(0, j + 1), *a) == Some(j as int));
                    lemma_row_conflict_prefix(sel, *a, j + 1);
                    assert(sel.subrange(0, i + 1).drop_last() =~= sel.subrange(0, i as int));
                    assert(first_conflict(sel.subrange(0, i + 1), sel) == Some((i as int, j as int)));
                    lemma_first_conflict_prefix(sel, sel, i + 1);
                }
                return Some((i, j));
            }
            j = j + 1;
        }
        proof {
            assert(sel.subrange(0, n as int) =~= sel);
            assert(sel.subrange(0, i + 1).drop_last() =~= sel.subrange(0, i as int));
        }
        i = i + 1;
    }
    assert(sel.subrange(0, n as int) =~= sel);
    None
}

/// The content of a load result.
pub open spec fn load_view(r: Result<Vec<u8>, SourceFailure>) -> Result<Seq<u8>, SourceFailure> {
    match r {
        Ok(b) => Ok(b@),
        Err(f) => Err(f),
    }
}

fn append_bytes(dst: &mut Vec<u8>, src: &Vec<u8>)
    ensures
        final(dst)@ == old(dst)@ + src@,
{
    let ghost start = dst@;
    let mut i: usize = 0;
    while i < src.len()
        invariant
            0 <= i <= src@.len(),
            dst@ == start + src@.subrange(0, i as int),
        decreases src@.len() - i,
    {
        dst.push(src[i]);
        i = i + 1;
        assert(dst@ =~= start + src@.subrange(0, i as int));
    }
    assert(src@.subrange(0, i as int) =~= src@);
}

/// When the answers before the last one assemble, every proper prefix of the
/// answers assembles: each request before the last was answered acceptably.
proof fn lemma_prefixes_assemble(
    sel: Seq<Overlay>,
    before: Seq<Result<Seq<u8>, SourceFailure>>,
    loads: Seq<Result<Seq<u8>, SourceFailure>>,
    limits: CompositionLimits,
)
    requires
        assemble(sel, before, limits) is Ok,
        loads.len() == before.len() + 1,
        loads.drop_last() == before,
    ensures
        forall|m: int| 0 <= m < loads.len() ==> #[trigger] assemble(sel, loads.subrange(0, m), limits) is Ok,
{
    assert forall|m: int| 0 <= m < loads.len() implies #[trigger] assemble(sel, loads.subrange(0, m), limits) is Ok by {
        assert(loads.subrange(0, m) =~= before.subrange(0, m));
        lemma_assemble_prefix_ok(sel, before, limits, m);
    }
}

proof fn lemma_assemble_prefix_ok(sel: Seq<Overlay>, loads: Seq<Result<Seq<u8>, SourceFailure>>, limits: CompositionLimits, k: int)
    requires
        0 <= k <= loads.len(),
        assemble(sel, loads, limits) is Ok,
    ensures
        assemble(sel, loads.subrange(0, k), limits) is Ok,
    decreases loads.len() - k,
{
    if k < loads.len() {
        assert(loads.drop_last().subrange(0, k) =~= loads.subrange(0, k));
        lemma_assemble_prefix_ok(sel, loads.drop_last(), limits, k);
    } else {
        assert(loads.subrange(0, k) =~= loads);
    }
}

/// Resolves one profile and loads its overlays in deterministic class order.
///
/// Overlay order within a class is the order declared by the profile.
/// Compatibility checks and source reads use that same order. Every source
/// byte arrives through `source`, which is asked for each selected overlay's
/// path, in composition order, with the per-overlay byte limit; composition
/// stops at the first answer it rejects.
#[verifier::spinoff_prover]
pub fn compose<S: OverlaySource>(
    pack: &OverlayPack,
    profile_id: &Identifier,
    source: &S,
    limits: CompositionLimits,
) -> (r: Result<Composition, CompositionError>)
    ensures
        exists|loads: Seq<Result<Seq<u8>, SourceFailure>>|
            {
                &&& answers_requests(*pack, profile_id@, limits, loads)
                &&& forall|k: int|
                    0 <= k < loads.len() ==> source.answers(
                        plan(*pack, profile_id@, limits)->Ok_0.1[k].source@,
                        limits.spec_maximum_overlay_bytes(),
                        #[trigger] loads[k],
                    )
                &&& outcome_view(r) == composition_outcome(*pack, profile_id@, limits, loads)
            },
{
    let ghost none: Seq<Result<Seq<u8>, SourceFailure>> = Seq::empty();
    let profiles = pack.profiles();
    let p = match find_profile(profiles, profile_id) {
        None => {
            let r = Err(CompositionError::UnknownProfile(profile_id.clone()));
            assert(answers_requests(*pack, profile_id@, limits, none));
            assert(outcome_view(r) == composition_outcome(*pack, profile_id@, limits, none));
            return r;
        },
        Some(p) => {
            proof {
                crate::pack::lemma_position_some(profile_ids(profiles@), profile_id@);
            }
            p
        },
    };
    let profile = &profiles[p];
    let overlays = pack.overlays();
    let idx = match select_overlays(pack.classes(), overlays, profile) {
        Err(e) => {
            let r = Err(e);
            assert(answers_requests(*pack, profile_id@, limits, none));
            assert(outcome_view(r) == composition_outcome(*pack, profile_id@, limits, none));
            return r;
        },
        Ok(idx) => idx,
    };
    let ghost sel = overlays_at(overlays@, idx@);
    let n = idx.len();
    if n > limits.maximum_overlays() {
        let r = Err(CompositionError::TooManyOverlays { count: n, maximum: limits.maximum_overlays() });
        assert(answers_requests(*pack, profile_id@, limits, none));
        assert(outcome_view(r) == composition_outcome(*pack, profile_id@, limits, none));
        return r;
    }
    match find_conflict(overlays, &idx) {
        Some((i, j)) => {
            let r = Err(CompositionError::IncompatibleOverlays {
                overlay: overlays[idx[i]].id.clone(),
                other: overlays[idx[j]].id.clone(),
            });
            assert(answers_requests(*pack, profile_id@, limits, none));
            assert(outcome_view(r) == composition_outcome(*pack, profile_id@, limits, none));
            return r;
        },
        None => {},
    }
    assert(plan(*pack, profile_id@, limits) == Ok::<(Profile, Seq<Overlay>), CompositionFault>((*profile, sel)));
    let max_overlay = limits.maximum_overlay_bytes();
    let max_output = limits.maximum_output_bytes();
    let mut entries: Vec<ResolvedEntry> = Vec::new();
    let mut segments: Vec<ResolvedSegment> = Vec::new();
    let mut context: Vec<u8> = Vec::new();
    let mut source_bytes: usize = 0;
    let ghost mut loads: Seq<Result<Seq<u8>, SourceFailure>> = Seq::empty();
    let mut k: usize = 0;
    while k < n
        invariant
            n == idx@.len(),
            n == sel.len(),
            sel == overlays_at(overlays@, idx@),
            forall|m: int| 0 <= m < idx@.len() ==> #[trigger] idx@[m] < overlays@.len(),
            plan(*pack, profile_id@, limits) == Ok::<(Profile, Seq<Overlay>), CompositionFault>((*profile, sel)),
            max_overlay == limits.spec_maximum_overlay_bytes(),
            max_output == limits.spec_maximum_output_bytes(),
            0 <= k <= n,
            loads.len() == k,
            forall|m: int| 0 <= m < k ==> source.answers(sel[m].source@, max_overlay, #[trigger] loads[m]),
            assemble(sel, loads, limits) == Ok::<(Seq<u8>, int), CompositionFault>((context@, source_bytes as int)),
            entries@.len() == k,
            segments@.len() == k,
            forall|m: int| 0 <= m < k ==> (#[trigger] entries@[m])@ == (EntryView {
                class: sel[m].class@,
                overlay: sel[m].id@,
                source: sel[m].source@,
                byte_length: loaded_bytes(loads)[m].len() as usize,
            }),
            forall|m: int| 0 <= m < k ==> (#[trigger] segments@[m])@ == (SegmentView {
                class: sel[m].class@,
                overlay: sel[m].id@,
                source: sel[m].source@,
                bytes: loaded_bytes(loads)[m],
            }),
        decreases n - k,
    {
        let o = &overlays[idx[k]];
        assert(*o == sel[k as int]);
        let loaded = source.load(&o.source, max_overlay);
        let ghost before = loads;
        proof {
            loads = loads.push(load_view(loaded));
            assert(loads.drop_last() =~= before);
            lemma_assemble_prefix_ok(sel, before, limits, 0);
        }
        let bytes = match loaded {
            Err(f) => {
                let r = Err(CompositionError::Source(f));
                proof {
                    lemma_prefixes_assemble(sel, before, loads, limits);
                    assert(answers_requests(*pack, profile_id@, limits, loads));
                }
                return r;
            },
            Ok(bytes) => bytes,
        };
        let len = bytes.len();
        if len > max_overlay {
            let r = Err(CompositionError::OverlayTooLarge { overlay: o.id.clone(), size: len, maximum: max_overlay });
            proof {
                lemma_prefixes_assemble(sel, before, loads, limits);
                assert(answers_requests(*pack, profile_id@, limits, loads));
                assert(outcome_view(r) == composition_outcome(*pack, profile_id@, limits, loads));
            }
            return r;
        }
        if len > usize::MAX - source_bytes {
            let r = Err(CompositionError::OutputTooLarge { size: usize::MAX, maximum: max_output });
            proof {
                lemma_prefixes_assemble(sel, before, loads, limits);
                assert(answers_requests(*pack, profile_id@, limits, loads));
                assert(outcome_view(r) == composition_outcome(*pack, profile_id@, limits, loads));
            }
            return r;
        }
        let separator_bytes: usize = if k == 0 { 0 } else { 2 };
        let current = context.len();
        if current > usize::MAX - separator_bytes || len > usize::MAX - separator_bytes - current {
            let r = Err(CompositionError::OutputTooLarge { size: usize::MAX, maximum: max_output });
            proof {
                lemma_prefixes_assemble(sel, before, loads, limits);
                assert(answers_requests(*pack, profile_id@, limits, loads));
                assert(outcome_view(r) == composition_outcome(*pack, profile_id@, limits, loads));
            }
            return r;
        }
        let required = current + separator_bytes + len;
        if required > max_output {
            let r = Err(CompositionError::OutputTooLarge { size: required, maximum: max_output });
            proof {
                lemma_prefixes_assemble(sel, before, loads, limits);
                assert(answers_requests(*pack, profile_id@, limits, loads));
                assert(outcome_view(r) == composition_outcome(*pack, profile_id@, limits, loads));
            }
            return r;
        }
        let ghost old_context = context@;
        if separator_bytes != 0 {
            context.push(10u8);
            context.push(10u8);
        }
        append_bytes(&mut context, &bytes);
        proof {
            if k == 0 {
                assert(old_context.len() == 0);
                assert(context@ =~= bytes@);
            } else {
                assert(context@ =~= old_context + separator() + bytes@);
            }
        }
        source_bytes = source_bytes + len;
        entries.push(ResolvedEntry { class: o.class.clone(), overlay: o.id.clone(), source: o.source.clone(), byte_length: len });
        segments.push(ResolvedSegment { class: o.class.clone(), overlay: o.id.clone(), source: o.source.clone(), bytes });
        proof {
            assert(loaded_bytes(loads)[k as int] == bytes@);
            assert forall|m: int| 0 <= m < k implies loaded_bytes(loads)[m] == loaded_bytes(before)[m] by {
                assert(loads[m] == before[m]);
            }
        }
        k = k + 1;
    }
    let output_bytes = context.len();
    let manifest = ResolvedManifest {
        pack: pack.id_ref().clone(),
        schema_family: pack.schema_family_ref().clone(),
        profile: profile.id.clone(),
        entries,
        source_bytes,
        output_bytes,
    };
    let c = Composition { manifest, segments, normalized_context: context };
    proof {
        let cv = composition_of(*pack, *profile, sel, loads, context@, source_bytes as int);
        assert(c@.entries =~= cv.entries);
        assert(c@.segments =~= cv.segments);
        assert forall|m: int| 0 <= m < loads.len() implies #[trigger] assemble(sel, loads.subrange(0, m), limits) is Ok by {
            lemma_assemble_prefix_ok(sel, loads, limits, m);
        }
        assert(answers_requests(*pack, profile_id@, limits, loads));
        assert(outcome_view(Ok::<Composition, CompositionError>(c)) == composition_outcome(*pack, profile_id@, limits, loads));
    }
    Ok(c)
}

impl Composition {
    /// Returns the normalized manifest.
    pub fn manifest(&self) -> (r: &ResolvedManifest)
        ensures
            r.pack@ == self@.pack,
            r.schema_family@ == self@.schema_family,
            r.profile@ == self@.profile,
            r.entries@.map_values(|e: ResolvedEntry| e@) == self@.entries,
            r.source_bytes == self@.source_bytes,
            r.output_bytes == self@.output_bytes,
    {
        &self.manifest
    }

    /// Returns exact source segments in deterministic composition order.
    pub fn segments(&self) -> (r: &[ResolvedSegment])
        ensures
            r@.map_values(|s: ResolvedSegment| s@) == self@.segments,
    {
        self.segments.as_slice()
    }

    /// Returns normalized context bytes: adjacent source byte sequences are
    /// separated by exactly two line-feed bytes.
    pub fn normalized_context(&self) -> (r: &[u8])
        ensures
            r@ == self@.context,
    {
        self.normalized_context.as_slice()
    }
}

/// Byte sequences joined by the two-line-feed separator.
pub open spec fn join_segments(parts: Seq<Seq<u8>>) -> Seq<u8>
    decreases parts.len(),
{
    if parts.len() == 0 {
        Seq::empty()
    } else if parts.len() == 1 {
        parts[0]
    } else {
        join_segments(parts.drop_last()) + separator() + parts.last()
    }
}

/// The total length of byte sequences.
pub open spec fn total_length(parts: Seq<Seq<u8>>) -> int
    decreases parts.len(),
{
    if parts.len() == 0 {
        0
    } else {
        total_length(parts.drop_last()) + parts.last().len()
    }
}

/// What the load fold keeps: every answer was bytes within the overlay limit,
/// the context is their join within the output limit, and the total is their
/// summed length.
proof fn lemma_assemble_shape(sel: Seq<Overlay>, loads: Seq<Result<Seq<u8>, SourceFailure>>, limits: CompositionLimits)
    requires
        assemble(sel, loads, limits) is Ok,
    ensures
        forall|k: int| 0 <= k < loads.len() ==> (#[trigger] loads[k]) is Ok,
        forall|k: int| 0 <= k < loads.len() ==> (#[trigger] loaded_bytes(loads)[k]).len() <= limits.spec_maximum_overlay_bytes(),
        assemble(sel, loads, limits)->Ok_0.0 == join_segments(loaded_bytes(loads)),
        assemble(sel, loads, limits)->Ok_0.1 == total_length(loaded_bytes(loads)),
        loads.len() > 0 ==> assemble(sel, loads, limits)->Ok_0.0.len() <= limits.spec_maximum_output_bytes(),
        0 <= assemble(sel, loads, limits)->Ok_0.1 <= usize::MAX,
    decreases loads.len(),
{
    if loads.len() > 0 {
        let prev = loads.drop_last();
        lemma_assemble_shape(sel, prev, limits);
        assert(loaded_bytes(loads).drop_last() =~= loaded_bytes(prev));
        assert forall|k: int| 0 <= k < loads.len() implies (#[trigger] loads[k]) is Ok by {
            if k < loads.len() - 1 {
                assert(loads[k] == prev[k]);
            }
        }
        assert forall|k: int| 0 <= k < loads.len() implies (#[trigger] loaded_bytes(loads)[k]).len() <= limits.spec_maximum_overlay_bytes() by {
            if k < loads.len() - 1 {
                assert(loaded_bytes(loads)[k] == loaded_bytes(prev)[k]);
            }
        }
        if loads.len() == 1 {
            assert(prev.len() == 0);
            assert(loaded_bytes(prev) =~= Seq::<Seq<u8>>::empty());
        }
    }
}

/// Composition's guarantees: on success, no selected overlay declares any
/// selected overlay (itself included) incompatible; the overlay count, each
/// overlay's size, and the output size respect the limits; the context is the
/// segments joined by two line feeds; and the manifest totals agree with the
/// segments.
pub proof fn lemma_composition_guarantees(
    pack: OverlayPack,
    profile_id: Seq<char>,
    limits: CompositionLimits,
    loads: Seq<Result<Seq<u8>, SourceFailure>>,
)
    requires
        answers_requests(pack, profile_id, limits, loads),
        composition_outcome(pack, profile_id, limits, loads) is Ok,
    ensures
        ({
            let c = composition_outcome(pack, profile_id, limits, loads)->Ok_0;
            let sel = plan(pack, profile_id, limits)->Ok_0.1;
            let parts = c.segments.map_values(|s: SegmentView| s.bytes);
            &&& plan(pack, profile_id, limits) is Ok
            &&& forall|i: int, j: int| 0 <= i < sel.len() && 0 <= j < sel.len() ==> !conflicts(#[trigger] sel[i], #[trigger] sel[j])
            &&& c.entries.len() == sel.len() && c.segments.len() == sel.len()
            &&& c.entries.len() <= limits.spec_maximum_overlays()
            &&& forall|k: int| 0 <= k < c.entries.len() ==> (#[trigger] c.entries[k]).byte_length <= limits.spec_maximum_overlay_bytes()
            &&& forall|k: int| 0 <= k < c.entries.len() ==> (#[trigger] c.entries[k]).byte_length == c.segments[k].bytes.len()
            &&& c.context == join_segments(parts)
            &&& c.output_bytes == c.context.len()
            &&& c.output_bytes <= limits.spec_maximum_output_bytes()
            &&& c.source_bytes == total_length(parts)
        }),
{
    let (profile, sel) = plan(pack, profile_id, limits)->Ok_0;
    lemma_no_conflict(sel, sel);
    let (context, total) = assemble(sel, loads, limits)->Ok_0;
    lemma_assemble_shape(sel, loads, limits);
    let c = composition_outcome(pack, profile_id, limits, loads)->Ok_0;
    let parts = c.segments.map_values(|s: SegmentView| s.bytes);
    assert(loads.len() == sel.len());
    assert(parts =~= loaded_bytes(loads));
    if loads.len() == 0 {
        assert(context.len() == 0);
    }
    assert(c.entries.len() == sel.len());
    assert(c.entries.len() <= limits.spec_maximum_overlays());
    assert forall|k: int| 0 <= k < c.entries.len() implies (#[trigger] c.entries[k]).byte_length <= limits.spec_maximum_overlay_bytes() by {
        assert(loaded_bytes(loads)[k].len() <= limits.spec_maximum_overlay_bytes());
    }
    assert forall|k: int| 0 <= k < c.entries.len() implies (#[trigger] c.entries[k]).byte_length == c.segments[k].bytes.len() by {
    }
    assert(c.context == join_segments(parts));
    assert(c.output_bytes == c.context.len());
    assert(c.source_bytes == total_length(parts));
}

/// No first conflict means no conflict at all.
proof fn lemma_no_conflict(rows: Seq<Overlay>, all: Seq<Overlay>)
    requires
        first_conflict(rows, all) is None,
    ensures
        forall|i: int, j: int| 0 <= i < rows.len() && 0 <= j < all.len() ==> !conflicts(#[trigger] rows[i], #[trigger] all[j]),
    decreases rows.len(),
{
    if rows.len() > 0 {
        lemma_no_conflict(rows.drop_last(), all);
        lemma_no_row_conflict(all, rows.last());
        assert forall|i: int, j: int| 0 <= i < rows.len() && 0 <= j < all.len() implies !conflicts(#[trigger] rows[i], #[trigger] all[j]) by {
            if i < rows.len() - 1 {
                assert(rows[i] == rows.drop_last()[i]);
            }
        }
    }
}

proof fn lemma_no_row_conflict(sel: Seq<Overlay>, a: Overlay)
    requires
        row_conflict(sel, a) is None,
    ensures
        forall|j: int| 0 <= j < sel.len() ==> !conflicts(a, #[trigger] sel[j]),
    decreases sel.len(),
{
    if sel.len() > 0 {
        lemma_no_row_conflict(sel.drop_last(), a);
        assert forall|j: int| 0 <= j < sel.len() implies !conflicts(a, #[trigger] sel[j]) by {
            if j < sel.len() - 1 {
                assert(sel[j] == sel.drop_last()[j]);
            }
        }
    }
}

/// Composition is deterministic: with the same pack, profile and limits, two
/// runs against sources that give equal answers to equal requests make the
/// same requests (they receive equal answers, one per request, in the same
/// order) and have the same outcome.
pub proof fn lemma_composition_deterministic<S1: OverlaySource, S2: OverlaySource>(
    pack: OverlayPack,
    profile_id: Seq<char>,
    limits: CompositionLimits,
    first_source: S1,
    second_source: S2,
    first: Seq<Result<Seq<u8>, SourceFailure>>,
    second: Seq<Result<Seq<u8>, SourceFailure>>,
)
    requires
        forall|p: Seq<char>, m: usize, a: Result<Seq<u8>, SourceFailure>, b: Result<Seq<u8>, SourceFailure>|
            #![trigger first_source.answers(p, m, a), second_source.answers(p, m, b)]
            first_source.answers(p, m, a) && second_source.answers(p, m, b) ==> a == b,
        answers_requests(pack, profile_id, limits, first),
        answers_requests(pack, profile_id, limits, second),
        forall|k: int|
            0 <= k < first.len() ==> first_source.answers(
                plan(pack, profile_id, limits)->Ok_0.1[k].source@,
                limits.spec_maximum_overlay_bytes(),
                #[trigger] first[k],
            ),
        forall|k: int|
            0 <= k < second.len() ==> second_source.answers(
                plan(pack, profile_id, limits)->Ok_0.1[k].source@,
                limits.spec_maximum_overlay_bytes(),
                #[trigger] second[k],
            ),
    ensures
        first == second,
        composition_outcome(pack, profile_id, limits, first) == composition_outcome(pack, profile_id, limits, second),
{
    match plan(pack, profile_id, limits) {
        Err(_) => {
            assert(first =~= second);
        },
        Ok((_, sel)) => {
            let max = limits.spec_maximum_overlay_bytes();
            assert forall|k: int| 0 <= k < first.len() && k < second.len() implies first[k] == second[k] by {
                assert(first_source.answers(sel[k].source@, max, first[k]));
                assert(second_source.answers(sel[k].source@, max, second[k]));
            }
            if first.len() < second.len() {
                let n = first.len() as int;
                assert(second.subrange(0, n) =~= first);
                assert(assemble(sel, second.subrange(0, n), limits) is Ok);
            } else if second.len() < first.len() {
                let n = second.len() as int;
                assert(first.subrange(0, n) =~= second);
                assert(assemble(sel, first.subrange(0, n), limits) is Ok);
            }
            assert(first =~= second);
        },
    }
}

proof fn lemma_profiles_fault_each(ps: Seq<Profile>, cs: Seq<OverlayClass>, os: Seq<Overlay>)
    requires
        profiles_fault(ps, cs, os) is None,
    ensures
        forall|i: int| 0 <= i < ps.len() ==> entries_fault((#[trigger] ps[i]).id@, cs, os, ps[i].selections@) is None,
    decreases ps.len(),
{
    if ps.len() > 0 {
        lemma_profiles_fault_each(ps.drop_last(), cs, os);
        assert forall|i: int| 0 <= i < ps.len() implies entries_fault((#[trigger] ps[i]).id@, cs, os, ps[i].selections@) is None by {
            if i < ps.len() - 1 {
                assert(ps[i] == ps.drop_last()[i]);
            }
        }
    }
}

proof fn lemma_entries_fault_each(p: Seq<char>, cs: Seq<OverlayClass>, os: Seq<Overlay>, es: Seq<(Seq<char>, Seq<Seq<char>>)>)
    requires
        entries_fault(p, cs, os, es) is None,
    ensures
        forall|i: int| 0 <= i < es.len() ==> members_fault(os, (#[trigger] es[i]).0, es[i].1) is None,
    decreases es.len(),
{
    if es.len() > 0 {
        lemma_entries_fault_each(p, cs, os, es.drop_last());
        assert forall|i: int| 0 <= i < es.len() implies members_fault(os, (#[trigger] es[i]).0, es[i].1) is None by {
            if i < es.len() - 1 {
                assert(es[i] == es.drop_last()[i]);
            } else {
                assert(entry_fault(p, cs, os, es.last()) is None);
            }
        }
    }
}

proof fn lemma_members_found(os: Seq<Overlay>, c: Seq<char>, sel: Seq<Seq<char>>)
    requires
        members_fault(os, c, sel) is None,
    ensures
        forall|k: int| 0 <= k < sel.len() ==> position(overlay_ids(os), #[trigger] sel[k]) is Some,
    decreases sel.len(),
{
    if sel.len() > 0 {
        lemma_members_found(os, c, sel.drop_last());
        assert forall|k: int| 0 <= k < sel.len() implies position(overlay_ids(os), #[trigger] sel[k]) is Some by {
            if k < sel.len() - 1 {
                assert(sel[k] == sel.drop_last()[k]);
            }
        }
    }
}

proof fn lemma_lookup_source(s: Seq<(Seq<char>, Seq<Seq<char>>)>, k: Seq<char>)
    ensures
        lookup(s, k) matches Some(v) ==> exists|i: int| 0 <= i < s.len() && (#[trigger] s[i]).1 == v,
    decreases s.len(),
{
    if s.len() > 0 {
        lemma_lookup_source(s.drop_last(), k);
        if let Some(v) = lookup(s.drop_last(), k) {
            let i = choose|i: int| 0 <= i < s.drop_last().len() && (#[trigger] s.drop_last()[i]).1 == v;
            assert(s[i] == s.drop_last()[i]);
        } else if s.last().0 == k {
            assert(s[s.len() - 1].1 == s.last().1);
        }
    }
}

proof fn lemma_selection_members(cs: Seq<OverlayClass>, sels: Seq<(Seq<char>, Seq<Seq<char>>)>, os: Seq<Overlay>)
    requires
        forall|i: int| 0 <= i < sels.len() ==> forall|k: int| 0 <= k < (#[trigger] sels[i]).1.len() ==> position(overlay_ids(os), sels[i].1[k]) is Some,
    ensures
        forall|k: int| 0 <= k < selection_of(cs, sels).len() ==> position(overlay_ids(os), #[trigger] selection_of(cs, sels)[k]) is Some,
    decreases cs.len(),
{
    if cs.len() > 0 {
        lemma_selection_members(cs.drop_last(), sels, os);
        let a = selection_of(cs.drop_last(), sels);
        let b = match lookup(sels, cs.last().id@) {
            Some(v) => v,
            None => Seq::<Seq<char>>::empty(),
        };
        lemma_lookup_source(sels, cs.last().id@);
        let all = selection_of(cs, sels);
        assert(all == a + b);
        assert forall|k: int| 0 <= k < all.len() implies position(overlay_ids(os), #[trigger] all[k]) is Some by {
            if k < a.len() {
                assert(all[k] == a[k]);
            } else {
                assert(all[k] == b[k - a.len()]);
                let i = choose|i: int| 0 <= i < sels.len() && (#[trigger] sels[i]).1 == b;
                assert(sels[i].1[k - a.len()] == b[k - a.len()]);
            }
        }
    }
}

proof fn lemma_resolve_ok(os: Seq<Overlay>, ids: Seq<Seq<char>>)
    requires
        forall|k: int| 0 <= k < ids.len() ==> position(overlay_ids(os), #[trigger] ids[k]) is Some,
    ensures
        resolve_overlays(os, ids) is Ok,
    decreases ids.len(),
{
    if ids.len() > 0 {
        assert forall|k: int| 0 <= k < ids.drop_last().len() implies position(overlay_ids(os), #[trigger] ids.drop_last()[k]) is Some by {
            assert(ids.drop_last()[k] == ids[k]);
        }
        lemma_resolve_ok(os, ids.drop_last());
        assert(position(overlay_ids(os), ids[ids.len() - 1]) is Some);
    }
}

/// A pack whose parts are normalized and break no rule of `parts_fault` (as
/// every pack's parts are and do: `OverlayPack::classes` states it) never fails composition with a
/// missing overlay: every selection names a declared overlay.
pub proof fn lemma_validated_pack_has_no_missing_overlay(
    pack: OverlayPack,
    profile_id: Seq<char>,
    limits: CompositionLimits,
)
    requires
        parts_normalized(pack.spec_classes(), pack.spec_overlays(), pack.spec_profiles(), pack.spec_variables()),
        parts_fault(pack.spec_classes(), pack.spec_overlays(), pack.spec_profiles(), pack.spec_variables()) is None,
    ensures
        !(plan(pack, profile_id, limits) matches Err(CompositionFault::MissingOverlay(_))),
{
    let ps = pack.spec_profiles();
    let os = pack.spec_overlays();
    crate::pack::lemma_position_some(profile_ids(ps), profile_id);
    if let Some(p) = position(profile_ids(ps), profile_id) {
        let profile = ps[p];
        let checked_classes = pack.spec_classes();
        lemma_normalized_parts_arranged(pack.spec_classes(), os, ps, pack.spec_variables());
        assert(profiles_fault(ps, checked_classes, os) is None);
        lemma_profiles_fault_each(ps, checked_classes, os);
        assert(entries_fault(profile.id@, checked_classes, os, profile.selections@) is None);
        lemma_entries_fault_each(profile.id@, checked_classes, os, profile.selections@);
        let sels = profile.selections@;
        assert forall|i: int| 0 <= i < sels.len() implies forall|k: int| 0 <= k < (#[trigger] sels[i]).1.len() ==> position(overlay_ids(os), sels[i].1[k]) is Some by {
            lemma_members_found(os, sels[i].0, sels[i].1);
        }
        lemma_selection_members(pack.spec_classes(), sels, os);
        lemma_resolve_ok(os, selection_of(pack.spec_classes(), sels));
    }
}

/// The class of the first overlay with identifier `x`.
spec fn class_of(os: Seq<Overlay>, x: Seq<char>) -> Seq<char> {
    os[position(overlay_ids(os), x)->0].class@
}

proof fn lemma_lookup_entry(s: Seq<(Seq<char>, Seq<Seq<char>>)>, k: Seq<char>)
    ensures
        lookup(s, k) matches Some(v) ==> exists|i: int| 0 <= i < s.len() && (#[trigger] s[i]).0 == k && s[i].1 == v,
    decreases s.len(),
{
    if s.len() > 0 {
        lemma_lookup_entry(s.drop_last(), k);
        if let Some(v) = lookup(s.drop_last(), k) {
            let i = choose|i: int| 0 <= i < s.drop_last().len() && (#[trigger] s.drop_last()[i]).0 == k && s.drop_last()[i].1 == v;
            assert(s[i] == s.drop_last()[i]);
        } else if s.last().0 == k {
            assert(s[s.len() - 1] == s.last());
        }
    }
}

proof fn lemma_resolved_overlays(os: Seq<Overlay>, ids: Seq<Seq<char>>, sel: Seq<Overlay>)
    requires
        resolve_overlays(os, ids) == Ok::<Seq<Overlay>, Seq<char>>(sel),
    ensures
        sel.len() == ids.len(),
        forall|k: int|
            #![trigger sel[k]]
            #![trigger ids[k]]
            0 <= k < ids.len() ==> position(overlay_ids(os), ids[k]) is Some && sel[k] == os[position(
                overlay_ids(os),
                ids[k],
            )->0] && sel[k].id@ == ids[k],
    decreases ids.len(),
{
    if ids.len() > 0 {
        let d = ids.drop_last();
        assert(resolve_overlays(os, d) is Ok);
        assert(position(overlay_ids(os), ids.last()) is Some);
        let s0 = resolve_overlays(os, d)->Ok_0;
        let o = position(overlay_ids(os), ids.last())->Some_0;
        lemma_resolved_overlays(os, d, s0);
        assert(sel == s0.push(os[o]));
        lemma_position_some(overlay_ids(os), ids.last());
        assert forall|k: int|
            #![trigger sel[k]]
            #![trigger ids[k]]
            0 <= k < ids.len() implies position(overlay_ids(os), ids[k]) is Some && sel[k]
            == os[position(overlay_ids(os), ids[k])->0] && sel[k].id@ == ids[k] by {
            if k < ids.len() - 1 {
                assert(d[k] == ids[k]);
                assert(sel[k] == s0[k]);
            } else {
                assert(ids[k] == ids.last());
                assert(overlay_ids(os)[o] == os[o].id@);
            }
        }
    }
}

proof fn lemma_selection_in_class_order(cs: Seq<OverlayClass>, sels: Seq<(Seq<char>, Seq<Seq<char>>)>, os: Seq<Overlay>)
    requires
        class_ids(cs).no_duplicates(),
        forall|i: int, k: int|
            0 <= i < sels.len() && 0 <= k < sels[i].1.len() ==> (position(overlay_ids(os), #[trigger] sels[i].1[k]) is Some
                && class_of(os, sels[i].1[k]) == sels[i].0),
    ensures
        forall|k: int|
            0 <= k < selection_of(cs, sels).len() ==> {
                let x = #[trigger] selection_of(cs, sels)[k];
                &&& position(overlay_ids(os), x) is Some
                &&& position(class_ids(cs), class_of(os, x)) is Some
                &&& lookup(sels, class_of(os, x)) matches Some(m) && m.contains(x)
            },
        forall|i: int, j: int|
            0 <= i < j < selection_of(cs, sels).len() ==> position(
                class_ids(cs),
                class_of(os, #[trigger] selection_of(cs, sels)[i]),
            )->0 <= position(class_ids(cs), class_of(os, #[trigger] selection_of(cs, sels)[j]))->0,
        forall|c: int, t: int|
            0 <= c < cs.len() && lookup(sels, cs[c].id@) is Some && 0 <= t < lookup(sels, cs[c].id@)->Some_0.len()
                ==> selection_of(cs, sels).contains(#[trigger] lookup(sels, cs[c].id@)->Some_0[t]),
    decreases cs.len(),
{
    if cs.len() > 0 {
        let d = cs.drop_last();
        let n = cs.len() - 1;
        assert(class_ids(cs).drop_last() =~= class_ids(d));
        assert(class_ids(d).no_duplicates()) by {
            assert forall|i: int, j: int| 0 <= i < class_ids(d).len() && 0 <= j < class_ids(d).len() && i != j implies class_ids(d)[i]
                != class_ids(d)[j] by {
                assert(class_ids(d)[i] == class_ids(cs)[i] && class_ids(d)[j] == class_ids(cs)[j]);
            }
        }
        lemma_selection_in_class_order(d, sels, os);
        let a = selection_of(d, sels);
        let last = cs[n];
        assert(cs.last() == last);
        let b = match lookup(sels, last.id@) {
            Some(v) => v,
            None => Seq::<Seq<char>>::empty(),
        };
        let all = selection_of(cs, sels);
        assert(all == a + b);
        lemma_lookup_entry(sels, last.id@);
        // The classes of the new class's overlays.
        assert forall|t: int| 0 <= t < b.len() implies position(overlay_ids(os), #[trigger] b[t]) is Some && class_of(os, b[t])
            == last.id@ by {
            let i = choose|i: int| 0 <= i < sels.len() && (#[trigger] sels[i]).0 == last.id@ && sels[i].1 == b;
            assert(sels[i].1[t] == b[t]);
        }
        // Positions among the classes.
        assert(class_ids(cs)[n] == last.id@);
        lemma_position_of_unique(class_ids(cs), n);
        assert forall|y: Seq<char>| #[trigger] position(class_ids(d), y) is Some implies position(class_ids(cs), y) == position(
            class_ids(d),
            y,
        ) && position(class_ids(d), y)->0 < n by {
            lemma_position_some(class_ids(d), y);
        }
        assert forall|k: int| 0 <= k < all.len() implies {
            let x = #[trigger] all[k];
            &&& position(overlay_ids(os), x) is Some
            &&& position(class_ids(cs), class_of(os, x)) is Some
            &&& lookup(sels, class_of(os, x)) matches Some(m) && m.contains(x)
        } by {
            if k < a.len() {
                assert(all[k] == a[k]);
            } else {
                let t = k - a.len();
                assert(all[k] == b[t]);
                assert(b.contains(b[t]));
            }
        }
        assert forall|i: int, j: int| 0 <= i < j < all.len() implies position(class_ids(cs), class_of(os, #[trigger] all[i]))->0
            <= position(class_ids(cs), class_of(os, #[trigger] all[j]))->0 by {
            if j < a.len() {
                assert(all[i] == a[i] && all[j] == a[j]);
            } else if i < a.len() {
                assert(all[i] == a[i]);
                assert(all[j] == b[j - a.len()]);
            } else {
                assert(all[i] == b[i - a.len()]);
                assert(all[j] == b[j - a.len()]);
            }
        }
        assert forall|c: int, t: int|
            0 <= c < cs.len() && lookup(sels, cs[c].id@) is Some && 0 <= t < lookup(sels, cs[c].id@)->Some_0.len()
            implies all.contains(#[trigger] lookup(sels, cs[c].id@)->Some_0[t]) by {
            let x = lookup(sels, cs[c].id@)->Some_0[t];
            if c < n {
                assert(d[c] == cs[c]);
                assert(a.contains(x));
                let q = choose|q: int| 0 <= q < a.len() && a[q] == x;
                assert(all[q] == a[q]);
            } else {
                assert(all[a.len() + t] == b[t]);
            }
        }
    }
}

proof fn lemma_selection_within_class(cs: Seq<OverlayClass>, sels: Seq<(Seq<char>, Seq<Seq<char>>)>, os: Seq<Overlay>)
    requires
        class_ids(cs).no_duplicates(),
        forall|i: int| 0 <= i < sels.len() ==> (#[trigger] sels[i]).1.no_duplicates(),
        forall|i: int, k: int|
            0 <= i < sels.len() && 0 <= k < sels[i].1.len() ==> (position(overlay_ids(os), #[trigger] sels[i].1[k]) is Some
                && class_of(os, sels[i].1[k]) == sels[i].0),
    ensures
        selection_of(cs, sels).no_duplicates(),
        forall|i: int, j: int|
            0 <= i < j < selection_of(cs, sels).len() && class_of(os, #[trigger] selection_of(cs, sels)[i]) == class_of(
                os,
                #[trigger] selection_of(cs, sels)[j],
            ) ==> exists|ti: int, tj: int|
                0 <= ti < tj < lookup(sels, class_of(os, selection_of(cs, sels)[i]))->Some_0.len() && #[trigger] lookup(
                    sels,
                    class_of(os, selection_of(cs, sels)[i]),
                )->Some_0[ti] == selection_of(cs, sels)[i] && #[trigger] lookup(
                    sels,
                    class_of(os, selection_of(cs, sels)[i]),
                )->Some_0[tj] == selection_of(cs, sels)[j],
    decreases cs.len(),
{
    if cs.len() > 0 {
        let d = cs.drop_last();
        let n = cs.len() - 1;
        assert(class_ids(cs).drop_last() =~= class_ids(d));
        assert(class_ids(d).no_duplicates()) by {
            assert forall|i: int, j: int| 0 <= i < class_ids(d).len() && 0 <= j < class_ids(d).len() && i != j implies class_ids(d)[i]
                != class_ids(d)[j] by {
                assert(class_ids(d)[i] == class_ids(cs)[i] && class_ids(d)[j] == class_ids(cs)[j]);
            }
        }
        lemma_selection_within_class(d, sels, os);
        lemma_selection_in_class_order(d, sels, os);
        let a = selection_of(d, sels);
        let last = cs[n];
        assert(cs.last() == last);
        let b = match lookup(sels, last.id@) {
            Some(v) => v,
            None => Seq::<Seq<char>>::empty(),
        };
        let all = selection_of(cs, sels);
        assert(all == a + b);
        lemma_lookup_entry(sels, last.id@);
        assert(b.no_duplicates() && forall|t: int| 0 <= t < b.len() ==> class_of(os, #[trigger] b[t]) == last.id@) by {
            if lookup(sels, last.id@) is Some {
                let i = choose|i: int| 0 <= i < sels.len() && (#[trigger] sels[i]).0 == last.id@ && sels[i].1 == b;
                assert forall|t: int| 0 <= t < b.len() implies class_of(os, #[trigger] b[t]) == last.id@ by {
                    assert(sels[i].1[t] == b[t]);
                }
            }
        }
        assert(class_ids(cs)[n] == last.id@);
        // An overlay selected for an earlier class is of another class than the last.
        assert forall|q: int| 0 <= q < a.len() implies class_of(os, #[trigger] a[q]) != last.id@ by {
            let y = class_of(os, a[q]);
            lemma_position_some(class_ids(d), y);
            let c = position(class_ids(d), y)->0;
            assert(class_ids(cs)[c] == class_ids(d)[c]);
        }
        assert forall|i: int, j: int| 0 <= i < all.len() && 0 <= j < all.len() && i != j implies all[i] != all[j] by {
            if i < a.len() && j < a.len() {
                assert(all[i] == a[i] && all[j] == a[j]);
            } else if i >= a.len() && j >= a.len() {
                assert(all[i] == b[i - a.len()] && all[j] == b[j - a.len()]);
            } else if i < a.len() {
                assert(all[i] == a[i] && all[j] == b[j - a.len()]);
            } else {
                assert(all[j] == a[j] && all[i] == b[i - a.len()]);
            }
        }
        assert forall|i: int, j: int|
            0 <= i < j < all.len() && class_of(os, #[trigger] all[i]) == class_of(os, #[trigger] all[j]) implies exists|ti: int, tj: int|
            0 <= ti < tj < lookup(sels, class_of(os, all[i]))->Some_0.len() && #[trigger] lookup(sels, class_of(os, all[i]))->Some_0[ti]
                == all[i] && #[trigger] lookup(sels, class_of(os, all[i]))->Some_0[tj] == all[j] by {
            if j < a.len() {
                assert(all[i] == a[i] && all[j] == a[j]);
            } else if i < a.len() {
                assert(all[i] == a[i] && all[j] == b[j - a.len()]);
            } else {
                let ti = i - a.len();
                let tj = j - a.len();
                assert(all[i] == b[ti] && all[j] == b[tj]);
                assert(lookup(sels, class_of(os, all[i]))->Some_0 == b);
            }
        }
    }
}

/// A composition follows the pack's class order, whatever order the profile
/// lists its selections in: every segment is an overlay that the profile
/// selects for the segment's class, a declared class; no segment comes after
/// a segment of a class with a greater `order`; every overlay that the
/// profile selects for a declared class is among the segments, under that
/// class; no overlay comes twice; and the overlays of one class come in the
/// order in which the profile lists them.
pub proof fn lemma_composition_follows_class_order(
    pack: OverlayPack,
    profile_id: Seq<char>,
    limits: CompositionLimits,
    loads: Seq<Result<Seq<u8>, SourceFailure>>,
    p: int,
    v: CompositionView,
)
    requires
        parts_normalized(pack.spec_classes(), pack.spec_overlays(), pack.spec_profiles(), pack.spec_variables()),
        parts_fault(pack.spec_classes(), pack.spec_overlays(), pack.spec_profiles(), pack.spec_variables()) is None,
        0 <= p < pack.spec_profiles().len(),
        pack.spec_profiles()[p].id@ == profile_id,
        composition_outcome(pack, profile_id, limits, loads) == Ok::<CompositionView, CompositionFault>(v),
    ensures
        forall|k: int|
            0 <= k < v.segments.len() ==> (exists|c: int|
                0 <= c < pack.spec_classes().len() && #[trigger] pack.spec_classes()[c].id@ == (#[trigger] v.segments[k]).class)
                && (lookup(pack.spec_profiles()[p].selections@, v.segments[k].class) matches Some(m) && m.contains(
                v.segments[k].overlay,
            )),
        forall|i: int, j: int, a: int, b: int|
            #![trigger v.segments[i], v.segments[j], pack.spec_classes()[a], pack.spec_classes()[b]]
            0 <= i < j < v.segments.len() && 0 <= a < pack.spec_classes().len() && 0 <= b < pack.spec_classes().len()
                && pack.spec_classes()[a].id@ == v.segments[i].class && pack.spec_classes()[b].id@ == v.segments[j].class
                ==> pack.spec_classes()[a].order <= pack.spec_classes()[b].order,
        forall|c: int, t: int|
            0 <= c < pack.spec_classes().len() && lookup(pack.spec_profiles()[p].selections@, pack.spec_classes()[c].id@) is Some
                && 0 <= t < lookup(pack.spec_profiles()[p].selections@, pack.spec_classes()[c].id@)->Some_0.len() ==> exists|k: int|
                0 <= k < v.segments.len() && (#[trigger] v.segments[k]).overlay == #[trigger] lookup(
                    pack.spec_profiles()[p].selections@,
                    pack.spec_classes()[c].id@,
                )->Some_0[t] && v.segments[k].class == pack.spec_classes()[c].id@,
        forall|i: int, j: int| 0 <= i < v.segments.len() && 0 <= j < v.segments.len() && i != j ==> (#[trigger] v.segments[i]).overlay
            != (#[trigger] v.segments[j]).overlay,
        forall|i: int, j: int|
            0 <= i < j < v.segments.len() && (#[trigger] v.segments[i]).class == (#[trigger] v.segments[j]).class ==> exists|
                ti: int,
                tj: int,
            |
                0 <= ti < tj < lookup(pack.spec_profiles()[p].selections@, v.segments[i].class)->Some_0.len() && #[trigger] lookup(
                    pack.spec_profiles()[p].selections@,
                    v.segments[i].class,
                )->Some_0[ti] == v.segments[i].overlay && #[trigger] lookup(
                    pack.spec_profiles()[p].selections@,
                    v.segments[i].class,
                )->Some_0[tj] == v.segments[j].overlay,
{
    let cs = pack.spec_classes();
    let os = pack.spec_overlays();
    let ps = pack.spec_profiles();
    lemma_valid_parts_hold_every_rule(cs, os, ps, pack.spec_variables());
    assert(profile_ids(ps)[p] == ps[p].id@);
    lemma_position_of_unique(profile_ids(ps), p);
    let sels = ps[p].selections@;
    let ids = selection_of(cs, sels);
    let sel = resolve_overlays(os, ids)->Ok_0;
    assert(resolve_overlays(os, ids) == Ok::<Seq<Overlay>, Seq<char>>(sel));
    lemma_resolved_overlays(os, ids, sel);
    assert forall|i: int, k: int| 0 <= i < sels.len() && 0 <= k < sels[i].1.len() implies (position(
        overlay_ids(os),
        #[trigger] sels[i].1[k],
    ) is Some && class_of(os, sels[i].1[k]) == sels[i].0) by {
        assert(selection_respects(cs, os, sels[i]));
        let o = choose|o: int| 0 <= o < os.len() && os[o].id@ == sels[i].1[k] && os[o].class@ == sels[i].0;
        assert(overlay_ids(os)[o] == os[o].id@);
        lemma_position_of_unique(overlay_ids(os), o);
    }
    lemma_selection_in_class_order(cs, sels, os);
    assert forall|i: int| 0 <= i < sels.len() implies (#[trigger] sels[i]).1.no_duplicates() by {
        assert(selection_respects(cs, os, sels[i]));
    }
    lemma_selection_within_class(cs, sels, os);
    let segs = v.segments;
    assert(segs.len() == sel.len());
    assert forall|k: int| 0 <= k < segs.len() implies segs[k].overlay == ids[k] && segs[k].class == class_of(os, ids[k]) by {
        assert(sel[k].id@ == ids[k]);
    }
    assert forall|k: int| 0 <= k < segs.len() implies (exists|c: int|
        0 <= c < cs.len() && #[trigger] cs[c].id@ == (#[trigger] segs[k]).class) && (lookup(sels, segs[k].class) matches Some(m)
        && m.contains(segs[k].overlay)) by {
        let x = ids[k];
        let c = position(class_ids(cs), class_of(os, x))->0;
        lemma_position_some(class_ids(cs), class_of(os, x));
        assert(class_ids(cs)[c] == cs[c].id@);
    }
    assert forall|i: int, j: int, a: int, b: int|
        #![trigger segs[i], segs[j], cs[a], cs[b]]
        0 <= i < j < segs.len() && 0 <= a < cs.len() && 0 <= b < cs.len() && cs[a].id@ == segs[i].class && cs[b].id@
            == segs[j].class implies cs[a].order <= cs[b].order by {
        assert(ids[i] == selection_of(cs, sels)[i] && ids[j] == selection_of(cs, sels)[j]);
        assert(class_ids(cs)[a] == cs[a].id@);
        assert(class_ids(cs)[b] == cs[b].id@);
        lemma_position_of_unique(class_ids(cs), a);
        lemma_position_of_unique(class_ids(cs), b);
        if a < b {
            assert(cs[a].order < cs[b].order);
        }
    }
    assert forall|c: int, t: int|
        0 <= c < cs.len() && lookup(sels, cs[c].id@) is Some && 0 <= t < lookup(sels, cs[c].id@)->Some_0.len() implies exists|k: int|
        0 <= k < segs.len() && (#[trigger] segs[k]).overlay == #[trigger] lookup(sels, cs[c].id@)->Some_0[t] && segs[k].class
            == cs[c].id@ by {
        let m = lookup(sels, cs[c].id@)->Some_0;
        let x = m[t];
        assert(ids.contains(x));
        let k = choose|k: int| 0 <= k < ids.len() && ids[k] == x;
        lemma_lookup_entry(sels, cs[c].id@);
        let i = choose|i: int| 0 <= i < sels.len() && (#[trigger] sels[i]).0 == cs[c].id@ && sels[i].1 == m;
        assert(sels[i].1[t] == x);
        assert(segs[k].overlay == x);
    }
    assert forall|i: int, j: int| 0 <= i < segs.len() && 0 <= j < segs.len() && i != j implies (#[trigger] segs[i]).overlay
        != (#[trigger] segs[j]).overlay by {
        assert(ids[i] != ids[j]);
    }
    assert forall|i: int, j: int| 0 <= i < j < segs.len() && (#[trigger] segs[i]).class == (#[trigger] segs[j]).class implies exists|
        ti: int,
        tj: int,
    |
        0 <= ti < tj < lookup(sels, segs[i].class)->Some_0.len() && #[trigger] lookup(sels, segs[i].class)->Some_0[ti]
            == segs[i].overlay && #[trigger] lookup(sels, segs[i].class)->Some_0[tj] == segs[j].overlay by {
        assert(ids[i] == selection_of(cs, sels)[i] && ids[j] == selection_of(cs, sels)[j]);
    }
}

} // verus!
