//! The decisions of safe persistent output on Linux.
//!
//! Writing a file is a run of file-system steps; which step comes next, and
//! whether the write has failed, is decided here from what each step found.
//! The steps themselves are performed by the caller: it asks [`write_action`]
//! what to do in the current phase, does it, and hands what it found to
//! [`write_transition`].

use vstd::prelude::*;

verus! {

/// Why a persistent write was refused or failed.
#[derive(Clone, Copy, Debug, PartialEq, Eq, Structural)]
pub enum OutputError {
    InvalidPath,
    ParentTraversal,
    ParentSymbolicLink,
    ParentNotDirectory,
    ParentChanged,
    TargetExists,
    TargetSymbolicLink,
    TargetNotRegular,
    UnsupportedPlatform,
    Io,
}

impl OutputError {
    /// The failure's human-readable message.
    pub fn message(self) -> (r: &'static str)
        ensures
            r@ == match self {
                OutputError::InvalidPath => "output path must name a UTF-8 file below an existing directory"@,
                OutputError::ParentTraversal => "output path must not contain parent-directory traversal"@,
                OutputError::ParentSymbolicLink => "output parent path must not contain symbolic links"@,
                OutputError::ParentNotDirectory => "output parent component is not a directory"@,
                OutputError::ParentChanged => "output parent changed during the write"@,
                OutputError::TargetExists => "output already exists; use --force for explicit replacement"@,
                OutputError::TargetSymbolicLink => "output target must not be a symbolic link"@,
                OutputError::TargetNotRegular => "output target must be a regular file"@,
                OutputError::UnsupportedPlatform => "safe output persistence is supported on Linux only"@,
                OutputError::Io => "output operation failed"@,
            },
    {
        match self {
            OutputError::InvalidPath => "output path must name a UTF-8 file below an existing directory",
            OutputError::ParentTraversal => "output path must not contain parent-directory traversal",
            OutputError::ParentSymbolicLink => "output parent path must not contain symbolic links",
            OutputError::ParentNotDirectory => "output parent component is not a directory",
            OutputError::ParentChanged => "output parent changed during the write",
            OutputError::TargetExists => "output already exists; use --force for explicit replacement",
            OutputError::TargetSymbolicLink => "output target must not be a symbolic link",
            OutputError::TargetNotRegular => "output target must be a regular file",
            OutputError::UnsupportedPlatform => "safe output persistence is supported on Linux only",
            OutputError::Io => "output operation failed",
        }
    }
}

/// The type of a file-system entry, as seen without following links.
#[derive(Clone, Copy, Debug, PartialEq, Eq, Structural)]
pub enum EntryType {
    SymbolicLink,
    Directory,
    RegularFile,
    Other,
}

/// What a metadata lookup (that does not follow links) tells of an entry.
#[derive(Clone, Copy, Debug, PartialEq, Eq, Structural)]
pub struct EntryFacts {
    pub entry_type: EntryType,
    pub device: u64,
    pub inode: u64,
    pub mode: u32,
    pub links: u64,
}

/// The outcome of a metadata lookup.
#[derive(Clone, Copy, Debug, PartialEq, Eq, Structural)]
pub enum Lookup {
    Found(EntryFacts),
    NotFound,
    Failed,
}

/// One component of the output's parent path.
#[derive(Clone, Copy, Debug, PartialEq, Eq, Structural)]
pub enum PathComponent {
    Root,
    Current,
    Parent,
    Normal,
    Prefix,
}

/// Where a persistent write stands. The phases after the parent is pinned
/// carry the parent's identity as it was first seen.
#[derive(Clone, Copy, Debug, PartialEq, Eq, Structural)]
pub enum WritePhase {
    CheckParents,
    PinParent,
    CheckTarget { pinned: EntryFacts },
    WriteTemporary { pinned: EntryFacts },
    VerifyBeforeCommit { pinned: EntryFacts },
    RecheckTarget { pinned: EntryFacts },
    Commit { pinned: EntryFacts },
    RemoveTemporary { pinned: EntryFacts },
    CheckWritten { pinned: EntryFacts },
    VerifyAfterCommit { pinned: EntryFacts },
    SyncDirectory,
    Done,
    Failed { error: OutputError, remove_temporary: bool },
}

/// What the caller found when it performed the current phase's action.
#[derive(Clone, Copy, Debug, PartialEq, Eq, Structural)]
pub enum WriteEvent {
    /// The next parent component, with the lookup of the path up to it
    /// (only a normal component is looked up).
    Component(PathComponent, Lookup),
    /// Every parent component has been checked.
    ComponentsDone,
    /// The answer to a metadata lookup.
    Looked(Lookup),
    /// The requested operation succeeded.
    Completed,
    /// The no-clobber link found the target already present.
    AlreadyExists,
    /// The requested operation failed.
    Failed,
}

/// What the caller is to do next.
#[derive(Clone, Copy, Debug, PartialEq, Eq, Structural)]
pub enum WriteAction {
    /// Walk the parent path from the root (or the working directory) and
    /// report each component, looking up the path so far.
    InspectParents,
    /// Canonicalise the parent and look it up.
    PinParent,
    /// Look up the target path.
    LookUpTarget,
    /// Create the temporary file (mode 0600), write the bytes and sync them.
    WriteTemporary,
    /// Look up the canonical parent again.
    LookUpParent,
    /// Rename the temporary file over the target.
    Rename,
    /// Hard-link the temporary file to the target, failing if it exists.
    HardLink,
    /// Remove the temporary file's own name.
    RemoveTemporary,
    /// Sync the parent directory.
    SyncParent,
    /// Stop: the write succeeded.
    Succeed,
    /// Stop with this failure, removing the temporary file first when asked.
    Fail { error: OutputError, remove_temporary: bool },
}

/// The first phase of a write: an output path without a UTF-8 file name
/// fails at once.
pub open spec fn write_start(name_is_valid: bool) -> WritePhase {
    if name_is_valid {
        WritePhase::CheckParents
    } else {
        WritePhase::Failed { error: OutputError::InvalidPath, remove_temporary: false }
    }
}

/// Whether a phase runs while the temporary file may exist and no commit
/// has released it.
pub open spec fn holds_temporary(phase: WritePhase) -> bool {
    match phase {
        WritePhase::WriteTemporary { .. } | WritePhase::VerifyBeforeCommit { .. }
        | WritePhase::RecheckTarget { .. } | WritePhase::Commit { .. }
        | WritePhase::RemoveTemporary { .. } => true,
        _ => false,
    }
}

/// A failure in a phase, with cleanup where the phase holds the temporary file.
pub open spec fn fail_in(phase: WritePhase, error: OutputError) -> WritePhase {
    WritePhase::Failed { error, remove_temporary: holds_temporary(phase) }
}

/// What looking up a parent component found: a symbolic link or a
/// non-directory fails, and a failed lookup is an I/O failure.
pub open spec fn parent_component_fault(lookup: Lookup) -> Option<OutputError> {
    match lookup {
        Lookup::Found(f) => if f.entry_type == EntryType::SymbolicLink {
            Some(OutputError::ParentSymbolicLink)
        } else if f.entry_type != EntryType::Directory {
            Some(OutputError::ParentNotDirectory)
        } else {
            None
        },
        _ => Some(OutputError::Io),
    }
}

/// What looking up the target found: a missing target is fine, an existing
/// one must be a regular file and may stay only with `force`.
pub open spec fn target_fault(lookup: Lookup, force: bool) -> Option<OutputError> {
    match lookup {
        Lookup::Found(f) => if f.entry_type == EntryType::SymbolicLink {
            Some(OutputError::TargetSymbolicLink)
        } else if f.entry_type != EntryType::RegularFile {
            Some(OutputError::TargetNotRegular)
        } else if !force {
            Some(OutputError::TargetExists)
        } else {
            None
        },
        Lookup::NotFound => None,
        Lookup::Failed => Some(OutputError::Io),
    }
}

/// Whether the parent looked up now is the directory pinned at the start.
pub open spec fn same_parent(lookup: Lookup, pinned: EntryFacts) -> bool {
    lookup matches Lookup::Found(f) && f.entry_type == EntryType::Directory && f.device == pinned.device
        && f.inode == pinned.inode
}

/// What looking up the written target found: it must be a regular file with
/// permissions 0600 and one link.
pub open spec fn written_fault(lookup: Lookup) -> Option<OutputError> {
    match lookup {
        Lookup::Found(f) => if f.entry_type == EntryType::SymbolicLink {
            Some(OutputError::TargetSymbolicLink)
        } else if f.entry_type != EntryType::RegularFile {
            Some(OutputError::TargetNotRegular)
        } else if f.mode & 0o777u32 != 0o600u32 || f.links != 1 {
            Some(OutputError::Io)
        } else {
            None
        },
        _ => Some(OutputError::Io),
    }
}

/// The next phase of a write, from the current phase, the `force` flag and
/// what the caller found. An event that does not answer the phase's action
/// fails the write as an I/O failure; a finished write stays finished.
pub open spec fn write_transition(phase: WritePhase, force: bool, event: WriteEvent) -> WritePhase {
    match phase {
        WritePhase::Done => phase,
        WritePhase::Failed { .. } => phase,
        WritePhase::CheckParents => match event {
            WriteEvent::Component(PathComponent::Root, _) | WriteEvent::Component(PathComponent::Current, _) => phase,
            WriteEvent::Component(PathComponent::Parent, _) => fail_in(phase, OutputError::ParentTraversal),
            WriteEvent::Component(PathComponent::Prefix, _) => fail_in(phase, OutputError::InvalidPath),
            WriteEvent::Component(PathComponent::Normal, lookup) => match parent_component_fault(lookup) {
                Some(e) => fail_in(phase, e),
                None => phase,
            },
            WriteEvent::ComponentsDone => WritePhase::PinParent,
            _ => fail_in(phase, OutputError::Io),
        },
        WritePhase::PinParent => match event {
            WriteEvent::Looked(lookup) => match parent_component_fault(lookup) {
                Some(e) => fail_in(phase, e),
                None => WritePhase::CheckTarget { pinned: lookup->Found_0 },
            },
            _ => fail_in(phase, OutputError::Io),
        },
        WritePhase::CheckTarget { pinned } => match event {
            WriteEvent::Looked(lookup) => match target_fault(lookup, force) {
                Some(e) => fail_in(phase, e),
                None => WritePhase::WriteTemporary { pinned },
            },
            _ => fail_in(phase, OutputError::Io),
        },
        WritePhase::WriteTemporary { pinned } => match event {
            WriteEvent::Completed => WritePhase::VerifyBeforeCommit { pinned },
            _ => fail_in(phase, OutputError::Io),
        },
        WritePhase::VerifyBeforeCommit { pinned } => match event {
            WriteEvent::Looked(lookup) => if !same_parent(lookup, pinned) {
                fail_in(phase, OutputError::ParentChanged)
            } else if force {
                WritePhase::RecheckTarget { pinned }
            } else {
                WritePhase::Commit { pinned }
            },
            _ => fail_in(phase, OutputError::ParentChanged),
        },
        WritePhase::RecheckTarget { pinned } => match event {
            WriteEvent::Looked(lookup) => match target_fault(lookup, true) {
                Some(e) => fail_in(phase, e),
                None => WritePhase::Commit { pinned },
            },
            _ => fail_in(phase, OutputError::Io),
        },
        WritePhase::Commit { pinned } => match event {
            WriteEvent::Completed => if force {
                WritePhase::CheckWritten { pinned }
            } else {
                WritePhase::RemoveTemporary { pinned }
            },
            WriteEvent::AlreadyExists => if force {
                fail_in(phase, OutputError::Io)
            } else {
                fail_in(phase, OutputError::TargetExists)
            },
            _ => fail_in(phase, OutputError::Io),
        },
        WritePhase::RemoveTemporary { pinned } => match event {
            WriteEvent::Completed => WritePhase::CheckWritten { pinned },
            _ => fail_in(phase, OutputError::Io),
        },
        WritePhase::CheckWritten { pinned } => match event {
            WriteEvent::Looked(lookup) => match written_fault(lookup) {
                Some(e) => fail_in(phase, e),
                None => WritePhase::VerifyAfterCommit { pinned },
            },
            _ => fail_in(phase, OutputError::Io),
        },
        WritePhase::VerifyAfterCommit { pinned } => match event {
            WriteEvent::Looked(lookup) => if same_parent(lookup, pinned) {
                WritePhase::SyncDirectory
            } else {
                fail_in(phase, OutputError::ParentChanged)
            },
            _ => fail_in(phase, OutputError::ParentChanged),
        },
        WritePhase::SyncDirectory => match event {
            WriteEvent::Completed => WritePhase::Done,
            _ => fail_in(phase, OutputError::Io),
        },
    }
}

/// The action a phase asks of the caller: the commit is an atomic rename
/// only with `force`, and a no-clobber hard link otherwise.
pub open spec fn action_of(phase: WritePhase, force: bool) -> WriteAction {
    match phase {
        WritePhase::CheckParents => WriteAction::InspectParents,
        WritePhase::PinParent => WriteAction::PinParent,
        WritePhase::CheckTarget { .. } | WritePhase::RecheckTarget { .. } | WritePhase::CheckWritten { .. } =>
            WriteAction::LookUpTarget,
        WritePhase::WriteTemporary { .. } => WriteAction::WriteTemporary,
        WritePhase::VerifyBeforeCommit { .. } | WritePhase::VerifyAfterCommit { .. } => WriteAction::LookUpParent,
        WritePhase::Commit { .. } => if force {
            WriteAction::Rename
        } else {
            WriteAction::HardLink
        },
        WritePhase::RemoveTemporary { .. } => WriteAction::RemoveTemporary,
        WritePhase::SyncDirectory => WriteAction::SyncParent,
        WritePhase::Done => WriteAction::Succeed,
        WritePhase::Failed { error, remove_temporary } => WriteAction::Fail { error, remove_temporary },
    }
}

/// The first phase of a write.
pub fn begin_write(name_is_valid: bool) -> (r: WritePhase)
    ensures
        r == write_start(name_is_valid),
{
    if name_is_valid {
        WritePhase::CheckParents
    } else {
        WritePhase::Failed { error: OutputError::InvalidPath, remove_temporary: false }
    }
}

/// The action that the current phase asks of the caller.
pub fn write_action(phase: WritePhase, force: bool) -> (r: WriteAction)
    ensures
        r == action_of(phase, force),
{
    match phase {
        WritePhase::CheckParents => WriteAction::InspectParents,
        WritePhase::PinParent => WriteAction::PinParent,
        WritePhase::CheckTarget { .. } | WritePhase::RecheckTarget { .. } | WritePhase::CheckWritten { .. } =>
            WriteAction::LookUpTarget,
        WritePhase::WriteTemporary { .. } => WriteAction::WriteTemporary,
        WritePhase::VerifyBeforeCommit { .. } | WritePhase::VerifyAfterCommit { .. } => WriteAction::LookUpParent,
        WritePhase::Commit { .. } => if force {
            WriteAction::Rename
        } else {
            WriteAction::HardLink
        },
        WritePhase::RemoveTemporary { .. } => WriteAction::RemoveTemporary,
        WritePhase::SyncDirectory => WriteAction::SyncParent,
        WritePhase::Done => WriteAction::Succeed,
        WritePhase::Failed { error, remove_temporary } => WriteAction::Fail { error, remove_temporary },
    }
}

fn holds_temporary_now(phase: WritePhase) -> (r: bool)
    ensures
        r == holds_temporary(phase),
{
    match phase {
        WritePhase::WriteTemporary { .. } | WritePhase::VerifyBeforeCommit { .. }
        | WritePhase::RecheckTarget { .. } | WritePhase::Commit { .. }
        | WritePhase::RemoveTemporary { .. } => true,
        _ => false,
    }
}

fn fail_now(phase: WritePhase, error: OutputError) -> (r: WritePhase)
    ensures
        r == fail_in(phase, error),
{
    WritePhase::Failed { error, remove_temporary: holds_temporary_now(phase) }
}

fn parent_component_check(lookup: Lookup) -> (r: Option<OutputError>)
    ensures
        r == parent_component_fault(lookup),
{
    match lookup {
        Lookup::Found(f) => if f.entry_type == EntryType::SymbolicLink {
            Some(OutputError::ParentSymbolicLink)
        } else if f.entry_type != EntryType::Directory {
            Some(OutputError::ParentNotDirectory)
        } else {
            None
        },
        _ => Some(OutputError::Io),
    }
}

fn target_check(lookup: Lookup, force: bool) -> (r: Option<OutputError>)
    ensures
        r == target_fault(lookup, force),
{
    match lookup {
        Lookup::Found(f) => if f.entry_type == EntryType::SymbolicLink {
            Some(OutputError::TargetSymbolicLink)
        } else if f.entry_type != EntryType::RegularFile {
            Some(OutputError::TargetNotRegular)
        } else if !force {
            Some(OutputError::TargetExists)
        } else {
            None
        },
        Lookup::NotFound => None,
        Lookup::Failed => Some(OutputError::Io),
    }
}

fn parent_unchanged(lookup: Lookup, pinned: EntryFacts) -> (r: bool)
    ensures
        r == same_parent(lookup, pinned),
{
    match lookup {
        Lookup::Found(f) => f.entry_type == EntryType::Directory && f.device == pinned.device && f.inode
            == pinned.inode,
        _ => false,
    }
}

fn written_check(lookup: Lookup) -> (r: Option<OutputError>)
    ensures
        r == written_fault(lookup),
{
    match lookup {
        Lookup::Found(f) => if f.entry_type == EntryType::SymbolicLink {
            Some(OutputError::TargetSymbolicLink)
        } else if f.entry_type != EntryType::RegularFile {
            Some(OutputError::TargetNotRegular)
        } else if f.mode & 0o777u32 != 0o600u32 || f.links != 1 {
            Some(OutputError::Io)
        } else {
            None
        },
        _ => Some(OutputError::Io),
    }
}

/// Advances a write by what the caller found.
pub fn advance_write(phase: WritePhase, force: bool, event: WriteEvent) -> (r: WritePhase)
    ensures
        r == write_transition(phase, force, event),
{
    match phase {
        WritePhase::Done => phase,
        WritePhase::Failed { .. } => phase,
        WritePhase::CheckParents => match event {
            WriteEvent::Component(PathComponent::Root, _) | WriteEvent::Component(PathComponent::Current, _) => phase,
            WriteEvent::Component(PathComponent::Parent, _) => fail_now(phase, OutputError::ParentTraversal),
            WriteEvent::Component(PathComponent::Prefix, _) => fail_now(phase, OutputError::InvalidPath),
            WriteEvent::Component(PathComponent::Normal, lookup) => match parent_component_check(lookup) {
                Some(e) => fail_now(phase, e),
                None => phase,
            },
            WriteEvent::ComponentsDone => WritePhase::PinParent,
            _ => fail_now(phase, OutputError::Io),
        },
        WritePhase::PinParent => match event {
            WriteEvent::Looked(lookup) => match parent_component_check(lookup) {
                Some(e) => fail_now(phase, e),
                None => match lookup {
                    Lookup::Found(f) => WritePhase::CheckTarget { pinned: f },
                    _ => fail_now(phase, OutputError::Io),
                },
            },
            _ => fail_now(phase, OutputError::Io),
        },
        WritePhase::CheckTarget { pinned } => match event {
            WriteEvent::Looked(lookup) => match target_check(lookup, force) {
                Some(e) => fail_now(phase, e),
                None => WritePhase::WriteTemporary { pinned },
            },
            _ => fail_now(phase, OutputError::Io),
        },
        WritePhase::WriteTemporary { pinned } => match event {
            WriteEvent::Completed => WritePhase::VerifyBeforeCommit { pinned },
            _ => fail_now(phase, OutputError::Io),
        },
        WritePhase::VerifyBeforeCommit { pinned } => match event {
            WriteEvent::Looked(lookup) => if !parent_unchanged(lookup, pinned) {
                fail_now(phase, OutputError::ParentChanged)
            } else if force {
                WritePhase::RecheckTarget { pinned }
            } else {
                WritePhase::Commit { pinned }
            },
            _ => fail_now(phase, OutputError::ParentChanged),
        },
        WritePhase::RecheckTarget { pinned } => match event {
            WriteEvent::Looked(lookup) => match target_check(lookup, true) {
                Some(e) => fail_now(phase, e),
                None => WritePhase::Commit { pinned },
            },
            _ => fail_now(phase, OutputError::Io),
        },
        WritePhase::Commit { pinned } => match event {
            WriteEvent::Completed => if force {
                WritePhase::CheckWritten { pinned }
            } else {
                WritePhase::RemoveTemporary { pinned }
            },
            WriteEvent::AlreadyExists => if force {
                fail_now(phase, OutputError::Io)
            } else {
                fail_now(phase, OutputError::TargetExists)
            },
            _ => fail_now(phase, OutputError::Io),
        },
        WritePhase::RemoveTemporary { pinned } => match event {
            WriteEvent::Completed => WritePhase::CheckWritten { pinned },
            _ => fail_now(phase, OutputError::Io),
        },
        WritePhase::CheckWritten { pinned } => match event {
            WriteEvent::Looked(lookup) => match written_check(lookup) {
                Some(e) => fail_now(phase, e),
                None => WritePhase::VerifyAfterCommit { pinned },
            },
            _ => fail_now(phase, OutputError::Io),
        },
        WritePhase::VerifyAfterCommit { pinned } => match event {
            WriteEvent::Looked(lookup) => if parent_unchanged(lookup, pinned) {
                WritePhase::SyncDirectory
            } else {
                fail_now(phase, OutputError::ParentChanged)
            },
            _ => fail_now(phase, OutputError::ParentChanged),
        },
        WritePhase::SyncDirectory => match event {
            WriteEvent::Completed => WritePhase::Done,
            _ => fail_now(phase, OutputError::Io),
        },
    }
}

/// A finished write stays finished: no event moves it on from success or
/// from a failure.
pub proof fn lemma_finished_write_stays(phase: WritePhase, force: bool, event: WriteEvent)
    requires
        phase is Done || phase is Failed,
    ensures
        write_transition(phase, force, event) == phase,
{
}

/// Without `force` the commit is a no-clobber hard link, never a rename, and
/// an existing target seen before the write fails it.
pub proof fn lemma_no_clobber_without_force(phase: WritePhase, facts: EntryFacts)
    ensures
        action_of(phase, false) != WriteAction::Rename,
        phase is Commit ==> action_of(phase, false) == WriteAction::HardLink,
        phase is CheckTarget ==> (write_transition(phase, false, WriteEvent::Looked(Lookup::Found(facts))) is Failed),
{
}

/// A failure while the temporary file may exist asks for its removal.
pub proof fn lemma_failure_cleans_temporary(phase: WritePhase, force: bool, event: WriteEvent)
    requires
        holds_temporary(phase),
        write_transition(phase, force, event) is Failed,
    ensures
        write_transition(phase, force, event)->remove_temporary,
{
}

/// The write succeeds only when the parent directory's sync completes.
pub proof fn lemma_success_only_after_sync(phase: WritePhase, force: bool, event: WriteEvent)
    requires
        phase != WritePhase::Done,
        write_transition(phase, force, event) == WritePhase::Done,
    ensures
        phase == WritePhase::SyncDirectory,
        event == WriteEvent::Completed,
{
}

/// The commit is reached only after the parent is seen unchanged: directly
/// without `force`, and with `force` through a second look at the target.
pub proof fn lemma_commit_after_parent_check(phase: WritePhase, force: bool, event: WriteEvent)
    ensures
        !(phase is Commit) && write_transition(phase, force, event) is Commit ==> {
            ||| (phase is VerifyBeforeCommit && !force && event is Looked && same_parent(
                event->Looked_0,
                phase->VerifyBeforeCommit_pinned,
            ))
            ||| (phase is RecheckTarget && event is Looked && target_fault(event->Looked_0, true) is None)
        },
        !(phase is RecheckTarget) && write_transition(phase, force, event) is RecheckTarget ==> (
        phase is VerifyBeforeCommit && force && event is Looked && same_parent(
            event->Looked_0,
            phase->VerifyBeforeCommit_pinned,
        )),
{
}

/// The phase after feeding `events`, one at a time, from `phase`.
pub open spec fn after_events(phase: WritePhase, force: bool, events: Seq<WriteEvent>) -> WritePhase
    decreases events.len(),
{
    if events.len() == 0 {
        phase
    } else {
        write_transition(after_events(phase, force, events.drop_last()), force, events.last())
    }
}

/// Only a `..` component is parent traversal: while the parent components
/// are checked, a `..` fails the write with `ParentTraversal`, whatever its
/// lookup; a root or `.` component leaves the check where it is; a normal
/// component that is an existing directory (not a symbolic link) passes.
pub proof fn lemma_only_parent_component_is_traversal(force: bool, kind: PathComponent, lookup: Lookup)
    ensures
        write_transition(WritePhase::CheckParents, force, WriteEvent::Component(kind, lookup))
            == (WritePhase::Failed { error: OutputError::ParentTraversal, remove_temporary: false }) <==> kind
            == PathComponent::Parent,
        kind == PathComponent::Root || kind == PathComponent::Current ==> write_transition(
            WritePhase::CheckParents,
            force,
            WriteEvent::Component(kind, lookup),
        ) == WritePhase::CheckParents,
        (kind == PathComponent::Normal && (lookup matches Lookup::Found(f) && f.entry_type == EntryType::Directory))
            ==> write_transition(WritePhase::CheckParents, force, WriteEvent::Component(kind, lookup))
            == WritePhase::CheckParents,
{
}

/// A parent path made only of root, `.` and existing-directory components
/// (such as the `.` of `./context.txt`) passes the component check: after
/// its components the write is still checking parents, and once they are
/// done it pins the parent.
pub proof fn lemma_plain_parent_path_passes(force: bool, events: Seq<WriteEvent>)
    requires
        forall|i: int|
            0 <= i < events.len() ==> match #[trigger] events[i] {
                WriteEvent::Component(PathComponent::Root, _) => true,
                WriteEvent::Component(PathComponent::Current, _) => true,
                WriteEvent::Component(PathComponent::Normal, Lookup::Found(f)) => f.entry_type == EntryType::Directory,
                _ => false,
            },
    ensures
        after_events(WritePhase::CheckParents, force, events) == WritePhase::CheckParents,
        after_events(WritePhase::CheckParents, force, events.push(WriteEvent::ComponentsDone)) == WritePhase::PinParent,
    decreases events.len(),
{
    if events.len() > 0 {
        assert forall|i: int| 0 <= i < events.drop_last().len() implies match #[trigger] events.drop_last()[i] {
            WriteEvent::Component(PathComponent::Root, _) => true,
            WriteEvent::Component(PathComponent::Current, _) => true,
            WriteEvent::Component(PathComponent::Normal, Lookup::Found(f)) => f.entry_type == EntryType::Directory,
            _ => false,
        } by {
            assert(events.drop_last()[i] == events[i]);
        }
        lemma_plain_parent_path_passes(force, events.drop_last());
        let e = events[events.len() - 1];
        assert(events.last() == e);
        match e {
            WriteEvent::Component(kind, lookup) => lemma_only_parent_component_is_traversal(force, kind, lookup),
            _ => {},
        }
    }
    assert(events.push(WriteEvent::ComponentsDone).drop_last() =~= events);
}

} // verus!
