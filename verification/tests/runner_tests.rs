use nix_cache_pin::config::PinConfig;
use nix_cache_pin::error::Error;
use nix_cache_pin::ext::RevisionOrder;
use nix_cache_pin::github::{commit_lines, commits_path, compare_plan, compare_status, list_commits_error, ComparePlan};
use nix_cache_pin::manifest::manifest;
use nix_cache_pin::merge::group_configs;
use nix_cache_pin::runner::{
    apply_after_check, apply_after_current, apply_after_flake_lock, apply_after_flake_nix, apply_after_lock_update,
    find_status, partition_results, revision_order_verdict, unfinished_search, ApplyStep,
};
use nix_cache_pin::textmap::TextMap;
use nix_cache_pin::transaction::{commit_order, revisions, staging_name, PinStaging, TempFiles, Transaction};

fn cfg(name: &str, input: &str, lock_only: bool) -> PinConfig {
    PinConfig {
        name: name.into(),
        packages: vec!["hello".into()],
        wish_packages: vec![],
        consumer_flake_ref: None,
        consumer_targets: TextMap::new(),
        input_name: input.into(),
        attr_prefix: "pkgs".into(),
        python_packages: None,
        caches: vec![],
        hydra_jobset: "jobset".into(),
        hydra_url: "hydra".into(),
        hydra_job_pattern: "pattern".into(),
        hydra_rev_input: "nixpkgs".into(),
        depth: 1,
        branch: "nixos-unstable".into(),
        branch_fallbacks: vec![],
        flake_ref: "github:NixOS/nixpkgs".into(),
        flake_output: "legacyPackages".into(),
        fail_fast: false,
        arch: "x86_64-linux".into(),
        lock_only,
        verify_closure: false,
        version_constraints: TextMap::new(),
        full_attr_prefix: None,
    }
}

#[test]
fn revision_order_refuses_older_and_unknown() {
    assert!(revision_order_verdict("a", "a", Ok(RevisionOrder::Older)).is_ok());
    assert!(revision_order_verdict("a", "b", Ok(RevisionOrder::Newer)).is_ok());
    let err = revision_order_verdict("a", "b", Ok(RevisionOrder::Older)).unwrap_err();
    assert_eq!(
        err.message(),
        "revision policy refused candidate b for current a: candidate is older than current pin; use an explicit downgrade override for recovery"
    );
    assert!(matches!(
        revision_order_verdict("a", "b", Ok(RevisionOrder::Unknown)),
        Err(Error::RevisionOrderUnknown { .. })
    ));
}

#[test]
fn apply_steps_follow_the_pin_kind() {
    let c = cfg("p", "nixpkgs", false);
    match apply_after_current(&c, "new", Err("no flake.nix".into())) {
        ApplyStep::Finish(o) => assert_eq!(o.error.as_deref(), Some("failed to read current rev: no flake.nix")),
        _ => panic!("expected finish"),
    }
    match apply_after_current(&c, "new", Ok("new".into())) {
        ApplyStep::Finish(o) => assert!(!o.updated && o.error.is_none()),
        _ => panic!("expected finish"),
    }
    assert!(matches!(apply_after_current(&c, "new", Ok("old".into())), ApplyStep::Compare(_)));
    assert!(matches!(apply_after_check(&c, "new", "old", Ok(()), false, false), ApplyStep::UpdateFlakeNix));
    assert!(matches!(apply_after_check(&c, "new", "old", Ok(()), true, false), ApplyStep::Finish(_)));
    let lock_only = cfg("p", "nixpkgs", true);
    match apply_after_check(&lock_only, "new", "old", Ok(()), false, false) {
        ApplyStep::UpdateLockOnly(r) => assert_eq!(r, "github:NixOS/nixpkgs/new"),
        _ => panic!("expected lock update"),
    }
    assert!(matches!(apply_after_flake_nix(&c, "new", "old", Ok(()), false), ApplyStep::RunFlakeLock));
    let o = apply_after_flake_lock(&c, "new", "old", Err("exit 1".into()));
    assert!(o.updated);
    assert_eq!(o.error.as_deref(), Some("flake lock failed: exit 1"));
    let o = apply_after_lock_update(&lock_only, "new", "old", Ok(()));
    assert!(o.updated);
}

#[test]
fn failed_searches_block_every_write() {
    let (ok, failed) = partition_results(vec![
        (cfg("a", "x", false), Ok(Some("rev".into()))),
        (cfg("b", "y", false), Ok(None)),
        (cfg("c", "z", false), Err(Error::FailFast { rev: "r".into() })),
    ]);
    assert_eq!(ok.len(), 1);
    assert_eq!(ok[0].1, "rev");
    assert_eq!(failed[0], ("b".to_string(), "no revision found with all packages cached".to_string()));
    assert_eq!(failed[1], ("c".to_string(), "fail-fast: cache miss at rev r".to_string()));
}

#[test]
fn find_status_lines() {
    assert_eq!(find_status("p", &Ok(Some("abcdef1234567".into()))), (true, "p: pinned to abcdef123456".to_string()));
    assert_eq!(find_status("p", &Ok(None)), (false, "p: no cached revision found".to_string()));
    let failed = unfinished_search("panicked");
    assert_eq!(find_status("p", &failed).1, "p: find_target_rev task failed: panicked");
}

#[test]
fn github_helpers() {
    assert_eq!(commits_path("NixOS/nixpkgs", "main", 15), "repos/NixOS/nixpkgs/commits?sha=main&per_page=15");
    assert_eq!(commit_lines("a\n b \n"), vec!["a".to_string(), "b".to_string()]);
    assert!(commit_lines("").is_empty());
    assert_eq!(compare_status(" ahead\n"), RevisionOrder::Newer);
    assert_eq!(compare_status("weird"), RevisionOrder::Unknown);
    match compare_plan("github:NixOS/nixpkgs", "a", "b") {
        ComparePlan::Ask(p) => assert_eq!(p, "repos/NixOS/nixpkgs/compare/a...b"),
        _ => panic!("expected a query"),
    }
    assert!(matches!(compare_plan("gitlab:x/y", "a", "b"), ComparePlan::Known(RevisionOrder::Unknown)));
    assert!(matches!(compare_plan("gitlab:x/y", "a", "a"), ComparePlan::Known(RevisionOrder::Equal)));
    assert_eq!(
        list_commits_error("o/r", "main", 3, " nope \n").message(),
        "GitHub API failed: failed to list commits for o/r@main with depth 3: nope"
    );
}

#[test]
fn transaction_stages_in_order() {
    let mut files = TempFiles::new();
    files.stage_lock(".flake.lock.cache-pin-lock-1-2".into());
    assert_eq!(files.cleanup.len(), 1);
    files.disarm();
    assert!(files.cleanup.is_empty());
    assert!(files.staged_lock.is_some());

    let content = "nixpkgs.url = \"github:NixOS/nixpkgs/old\";".to_string();
    let mut tx = Transaction::new(content, false);
    let staging = tx.stage_pin(&cfg("p", "nixpkgs", false), "old", "new", Ok(())).unwrap();
    assert!(matches!(staging, PinStaging::Relock(ref r) if r == "github:NixOS/nixpkgs/new"));
    assert!(tx.flake_nix_changed());
    assert_eq!(tx.staged_flake_nix, "nixpkgs.url = \"github:NixOS/nixpkgs/new\";");
    let staging = tx.stage_pin(&cfg("p", "nixpkgs", false), "same", "same", Ok(())).unwrap();
    assert!(matches!(staging, PinStaging::UpToDate));
    assert!(tx.writes_manifest());
    assert!(!Transaction::new(String::new(), true).writes_manifest());

    assert_eq!(staging_name(Some("flake.lock"), "lock", 12, 34), ".flake.lock.cache-pin-lock-12-34");
    assert_eq!(staging_name(None, "backup", 1, 2), ".flake.cache-pin-backup-1-2");
    let order = commit_order(None, Some(("l".into(), "flake.lock".into())), Some(("m".into(), "cache-pin.lock.json".into())));
    assert_eq!(order[0].1, "flake.lock");
    assert_eq!(order.len(), 2);
}

#[test]
fn writes_a_deterministic_manifest_shape() {
    let groups = group_configs(vec![cfg("a", "nixpkgs", false)]).unwrap();
    let m = manifest(&groups, &vec![("nixpkgs".into(), "abc".into())]);
    assert_eq!(m.schema_version, 1);
    assert_eq!(m.source_of_truth, "flake.lock");
    assert_eq!(m.targets[0].revision, "abc");
    let successes = vec![(cfg("a", "nixpkgs", false), "abc".to_string())];
    assert_eq!(revisions(&successes), vec![("nixpkgs".to_string(), "abc".to_string())]);
}
