use invokrum::output::{
    advance_write, begin_write, write_action, EntryFacts, EntryType, Lookup, OutputError, PathComponent, WriteAction,
    WriteEvent, WritePhase,
};

fn facts(entry_type: EntryType, inode: u64, mode: u32, links: u64) -> EntryFacts {
    EntryFacts { entry_type, device: 7, inode, mode, links }
}

fn directory(inode: u64) -> Lookup {
    Lookup::Found(facts(EntryType::Directory, inode, 0o40755, 2))
}

fn run(force: bool, events: &[WriteEvent]) -> (WritePhase, Vec<WriteAction>) {
    let mut phase = begin_write(true);
    let mut actions = vec![write_action(phase, force)];
    for event in events {
        phase = advance_write(phase, force, *event);
        actions.push(write_action(phase, force));
    }
    (phase, actions)
}

fn to_commit(target: Lookup) -> Vec<WriteEvent> {
    vec![
        WriteEvent::Component(PathComponent::Root, Lookup::NotFound),
        WriteEvent::Component(PathComponent::Normal, directory(1)),
        WriteEvent::ComponentsDone,
        WriteEvent::Looked(directory(9)),
        WriteEvent::Looked(target),
        WriteEvent::Completed,
        WriteEvent::Looked(directory(9)),
    ]
}

#[test]
fn a_new_file_is_committed_by_hard_link() {
    let mut events = to_commit(Lookup::NotFound);
    events.extend([
        WriteEvent::Completed,
        WriteEvent::Completed,
        WriteEvent::Looked(Lookup::Found(facts(EntryType::RegularFile, 40, 0o100600, 1))),
        WriteEvent::Looked(directory(9)),
        WriteEvent::Completed,
    ]);
    let (phase, actions) = run(false, &events);
    assert_eq!(phase, WritePhase::Done);
    assert_eq!(actions[0], WriteAction::InspectParents);
    assert_eq!(actions[3], WriteAction::PinParent);
    assert_eq!(actions[4], WriteAction::LookUpTarget);
    assert_eq!(actions[5], WriteAction::WriteTemporary);
    assert_eq!(actions[6], WriteAction::LookUpParent);
    assert_eq!(actions[7], WriteAction::HardLink);
    assert_eq!(actions[8], WriteAction::RemoveTemporary);
    assert_eq!(actions[9], WriteAction::LookUpTarget);
    assert_eq!(actions[11], WriteAction::SyncParent);
    assert_eq!(actions[12], WriteAction::Succeed);
    assert!(!actions.contains(&WriteAction::Rename));
}

#[test]
fn an_existing_target_needs_force() {
    let existing = Lookup::Found(facts(EntryType::RegularFile, 40, 0o100644, 1));
    let (phase, _) = run(false, &to_commit(existing)[..5]);
    assert_eq!(phase, WritePhase::Failed { error: OutputError::TargetExists, remove_temporary: false });

    let mut events = to_commit(existing);
    events.extend([
        WriteEvent::Looked(existing),
        WriteEvent::Completed,
        WriteEvent::Looked(Lookup::Found(facts(EntryType::RegularFile, 41, 0o100600, 1))),
        WriteEvent::Looked(directory(9)),
        WriteEvent::Completed,
    ]);
    let (phase, actions) = run(true, &events);
    assert_eq!(phase, WritePhase::Done);
    assert_eq!(actions[7], WriteAction::LookUpTarget);
    assert_eq!(actions[8], WriteAction::Rename);
    assert!(!actions.contains(&WriteAction::HardLink));
}

#[test]
fn a_lost_race_for_the_target_cleans_up() {
    let mut events = to_commit(Lookup::NotFound);
    events.push(WriteEvent::AlreadyExists);
    let (phase, actions) = run(false, &events);
    assert_eq!(phase, WritePhase::Failed { error: OutputError::TargetExists, remove_temporary: true });
    assert_eq!(
        actions.last().copied(),
        Some(WriteAction::Fail { error: OutputError::TargetExists, remove_temporary: true })
    );
}

#[test]
fn parent_problems_are_refused_before_writing() {
    let (phase, _) = run(false, &[WriteEvent::Component(PathComponent::Parent, Lookup::NotFound)]);
    assert_eq!(phase, WritePhase::Failed { error: OutputError::ParentTraversal, remove_temporary: false });
    let link = Lookup::Found(facts(EntryType::SymbolicLink, 3, 0o120777, 1));
    let (phase, _) = run(false, &[WriteEvent::Component(PathComponent::Normal, link)]);
    assert_eq!(phase, WritePhase::Failed { error: OutputError::ParentSymbolicLink, remove_temporary: false });
    let file = Lookup::Found(facts(EntryType::RegularFile, 3, 0o100644, 1));
    let (phase, _) = run(false, &[WriteEvent::Component(PathComponent::Normal, file)]);
    assert_eq!(phase, WritePhase::Failed { error: OutputError::ParentNotDirectory, remove_temporary: false });
    assert_eq!(
        begin_write(false),
        WritePhase::Failed { error: OutputError::InvalidPath, remove_temporary: false }
    );
}

#[test]
fn a_moved_parent_fails_the_write_and_cleans_up() {
    let mut events = to_commit(Lookup::NotFound);
    events.pop();
    events.push(WriteEvent::Looked(directory(10)));
    let (phase, _) = run(false, &events);
    assert_eq!(phase, WritePhase::Failed { error: OutputError::ParentChanged, remove_temporary: true });
}

#[test]
fn the_written_file_must_be_private_and_unlinked() {
    let mut events = to_commit(Lookup::NotFound);
    events.extend([
        WriteEvent::Completed,
        WriteEvent::Completed,
        WriteEvent::Looked(Lookup::Found(facts(EntryType::RegularFile, 40, 0o100600, 2))),
    ]);
    let (phase, _) = run(false, &events);
    assert_eq!(phase, WritePhase::Failed { error: OutputError::Io, remove_temporary: false });
    let (finished, _) = run(false, &events);
    assert_eq!(advance_write(finished, false, WriteEvent::Completed), finished);
}

#[test]
fn output_error_messages_are_stable() {
    assert_eq!(OutputError::TargetExists.message(), "output already exists; use --force for explicit replacement");
    assert_eq!(OutputError::UnsupportedPlatform.message(), "safe output persistence is supported on Linux only");
    assert_eq!(OutputError::Io.message(), "output operation failed");
}
