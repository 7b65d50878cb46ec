use nix_cache_pin::commit::{CommitAction, CommitEvent, CommitRun};
use nix_cache_pin::error::Error;

fn pair(a: &str, b: &str) -> (String, String) {
    (a.to_string(), b.to_string())
}

#[test]
fn commit_replaces_a_destination() {
    let (mut run, action) = CommitRun::start(vec![pair("staged", "destination")]);
    assert!(matches!(action, CommitAction::BackUp(ref d) if d == "destination"));
    let action = run.on_event(CommitEvent::BackedUp(Ok(Some("destination.backup".into()))));
    assert!(matches!(action, CommitAction::Install { ref staged, ref destination } if staged == "staged" && destination == "destination"));
    let action = run.on_event(CommitEvent::Installed(Ok(())));
    assert!(matches!(action, CommitAction::RemoveBackup(ref b) if b == "destination.backup"));
    let action = run.on_event(CommitEvent::Removed);
    assert!(matches!(action, CommitAction::Finish(Ok(()))));
}

#[test]
fn failed_install_restores_backups_latest_first() {
    let (mut run, _) = CommitRun::start(vec![pair("s1", "flake.nix"), pair("s2", "flake.lock"), pair("s3", "manifest")]);
    run.on_event(CommitEvent::BackedUp(Ok(Some("b1".into()))));
    run.on_event(CommitEvent::BackedUp(Ok(None)));
    let action = run.on_event(CommitEvent::BackedUp(Ok(Some("b3".into()))));
    assert!(matches!(action, CommitAction::Install { ref staged, .. } if staged == "s1"));
    let action = run.on_event(CommitEvent::Installed(Ok(())));
    assert!(matches!(action, CommitAction::Install { ref staged, .. } if staged == "s2"));
    let action = run.on_event(CommitEvent::Installed(Err(Error::FlakeNix("rename failed".into()))));
    assert!(matches!(action, CommitAction::Restore { ref destination, ref backup } if destination == "manifest" && backup == "b3"));
    let action = run.on_event(CommitEvent::Restored);
    assert!(matches!(action, CommitAction::Restore { ref destination, ref backup } if destination == "flake.nix" && backup == "b1"));
    let action = run.on_event(CommitEvent::Restored);
    match action {
        CommitAction::Finish(Err(e)) => assert_eq!(e.message(), "flake.nix error: rename failed"),
        other => panic!("unexpected step {:?}", other),
    }
}

#[test]
fn failed_backup_ends_the_commit() {
    let (mut run, _) = CommitRun::start(vec![pair("s1", "flake.nix")]);
    let action = run.on_event(CommitEvent::BackedUp(Err(Error::FlakeNix("busy".into()))));
    assert!(matches!(action, CommitAction::Finish(Err(_))));
}

#[test]
fn empty_commit_succeeds_at_once() {
    let (_, action) = CommitRun::start(vec![]);
    assert!(matches!(action, CommitAction::Finish(Ok(()))));
}
