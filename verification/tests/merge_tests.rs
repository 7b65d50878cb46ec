use nix_cache_pin::config::{PinConfig, VersionConstraint};
use nix_cache_pin::error::Error;
use nix_cache_pin::merge::{check_equal, group_configs, merge_group, stable_union, FieldValue};
use nix_cache_pin::textmap::TextMap;

fn cfg(name: &str, input: &str, packages: &[&str]) -> PinConfig {
    PinConfig {
        name: name.into(),
        packages: packages.iter().map(|s| s.to_string()).collect(),
        wish_packages: vec![],
        consumer_flake_ref: None,
        consumer_targets: TextMap::new(),
        input_name: input.into(),
        attr_prefix: "pkgs".into(),
        python_packages: None,
        caches: vec!["cache".into()],
        hydra_jobset: "jobset".into(),
        hydra_url: "hydra".into(),
        hydra_job_pattern: "pattern".into(),
        hydra_rev_input: "nixpkgs".into(),
        depth: 2,
        branch: "nixos-unstable".into(),
        branch_fallbacks: vec![],
        flake_ref: "github:NixOS/nixpkgs".into(),
        flake_output: "legacyPackages".into(),
        fail_fast: false,
        arch: "x86_64-linux".into(),
        lock_only: false,
        verify_closure: false,
        version_constraints: TextMap::new(),
        full_attr_prefix: None,
    }
}

#[test]
fn groups_same_input_and_unions_packages() {
    let groups = group_configs(vec![cfg("b", "nixpkgs", &["b"]), cfg("a", "nixpkgs", &["a"])]).unwrap();
    assert_eq!(groups.len(), 1);
    assert_eq!(groups[0].members[0].name, "a");
    assert_eq!(groups[0].merged.packages, ["a", "b"]);
}

#[test]
fn keeps_different_inputs_independent() {
    let groups = group_configs(vec![cfg("rocm", "nixpkgs-rocm", &["a"]), cfg("cuda", "nixpkgs-cuda", &["b"])]).unwrap();
    assert_eq!(groups.len(), 2);
}

#[test]
fn rejects_incompatible_sources() {
    let mut other = cfg("b", "nixpkgs", &["b"]);
    other.flake_ref = "github:other/source".into();
    let err = group_configs(vec![cfg("a", "nixpkgs", &["a"]), other]).unwrap_err();
    assert!(err.message().contains("flakeRef differs"));
}

#[test]
fn groups_come_in_input_order() {
    let groups = group_configs(vec![
        cfg("x", "zeta", &["a"]),
        cfg("y", "alpha", &["b"]),
        cfg("z", "zeta", &["c"]),
    ])
    .unwrap();
    assert_eq!(groups.len(), 2);
    assert_eq!(groups[0].input_name, "alpha");
    assert_eq!(groups[1].input_name, "zeta");
    assert_eq!(groups[1].merged.name, "zeta[x, z]");
    assert_eq!(groups[1].merged.packages, ["a", "c"]);
}

#[test]
fn merged_group_takes_the_deepest_search_and_drops_required_wishes() {
    let mut a = cfg("a", "nixpkgs", &["hello"]);
    a.wish_packages = vec!["zfs".into(), "curl".into()];
    let mut b = cfg("b", "nixpkgs", &["curl"]);
    b.depth = 9;
    let group = merge_group("nixpkgs".into(), vec![a, b]).unwrap();
    assert_eq!(group.merged.depth, 9);
    assert_eq!(group.merged.wish_packages, ["zfs"]);
    assert_eq!(group.merged.name, "nixpkgs[a, b]");
}

#[test]
fn conflicting_version_gates_are_refused() {
    let mut a = cfg("a", "nixpkgs", &["hello"]);
    a.version_constraints.insert(
        "hello".into(),
        VersionConstraint { target: Some("< 2".into()), taints: vec![], version_attr: "version".into() },
    );
    let mut b = cfg("b", "nixpkgs", &["hello"]);
    b.version_constraints.insert(
        "hello".into(),
        VersionConstraint { target: Some("< 3".into()), taints: vec![], version_attr: "version".into() },
    );
    let err = merge_group("nixpkgs".into(), vec![a, b]).unwrap_err();
    match err {
        Error::PinMerge { reason, .. } => assert_eq!(reason, "version constraint for hello differs"),
        _ => panic!("unexpected error"),
    }
}

#[test]
fn empty_group_is_a_configuration_error() {
    let err = merge_group("nixpkgs".into(), vec![]).unwrap_err();
    assert_eq!(err.message(), "config error: cannot merge an empty pin group");
}

#[test]
fn check_equal_reports_both_values() {
    let x = "x".to_string();
    let y = "y".to_string();
    let ok = check_equal("in", "a, b", "branch", &FieldValue::Text(&x), &FieldValue::Text(&x));
    assert!(ok.is_ok());
    let err = check_equal("in", "a, b", "branch", &FieldValue::Text(&x), &FieldValue::Text(&y)).unwrap_err();
    assert_eq!(err.message(), "cache-pin target 'in' cannot merge pins a, b: branch differs (\"x\" vs \"y\")");
}

#[test]
fn stable_union_sorts_and_dedups() {
    let v = stable_union(vec!["b".into(), "a".into(), "b".into()]);
    assert_eq!(v, ["a", "b"]);
}

#[test]
fn consumer_targets_merge_as_a_union_and_conflicts_are_named() {
    let mut a = cfg("a", "nixpkgs", &["hello"]);
    a.consumer_targets.insert("hello".into(), "x".into());
    let mut b = cfg("b", "nixpkgs", &["curl"]);
    b.consumer_targets.insert("curl".into(), "y".into());
    let mut c = cfg("c", "nixpkgs", &["hello"]);
    c.consumer_targets.insert("hello".into(), "x".into());
    let group = merge_group("nixpkgs".into(), vec![a.duplicate(), b, c]).unwrap();
    assert_eq!(group.merged.consumer_targets.len(), 2);
    assert_eq!(group.merged.consumer_targets.get("hello").map(|s| s.as_str()), Some("x"));
    assert_eq!(group.merged.consumer_targets.get("curl").map(|s| s.as_str()), Some("y"));

    let mut d = cfg("d", "nixpkgs", &["hello"]);
    d.consumer_targets.insert("hello".into(), "z".into());
    let err = merge_group("nixpkgs".into(), vec![a, d]).unwrap_err();
    match err {
        Error::PinMerge { input_name, pins, reason } => {
            assert_eq!(input_name, "nixpkgs");
            assert_eq!(pins, "a, d");
            assert_eq!(reason, "consumer target for hello differs");
        }
        _ => panic!("unexpected error"),
    }
}

#[test]
fn grouping_only_reorders_the_requirements() {
    let groups = group_configs(vec![
        cfg("q", "zeta", &["a"]),
        cfg("p", "alpha", &["b"]),
        cfg("m", "zeta", &["c"]),
        cfg("n", "alpha", &["d"]),
    ])
    .unwrap();
    let names: Vec<&str> = groups.iter().flat_map(|g| g.members.iter().map(|m| m.name.as_str())).collect();
    assert_eq!(names, ["n", "p", "m", "q"]);
    let mut other = cfg("r", "alpha", &["e"]);
    other.arch = "aarch64-linux".into();
    let err = group_configs(vec![cfg("q", "zeta", &["a"]), cfg("p", "alpha", &["b"]), other]).unwrap_err();
    assert!(err.message().contains("arch differs"));
}

#[test]
fn merged_fallback_branches_keep_their_configured_order() {
    let mut a = cfg("a", "nixpkgs", &["hello"]);
    a.branch_fallbacks = vec!["release-b".into(), "release-a".into()];
    let mut b = cfg("b", "nixpkgs", &["curl"]);
    b.branch_fallbacks = vec!["release-c".into(), "release-a".into()];
    let group = merge_group("nixpkgs".into(), vec![a, b]).unwrap();
    assert_eq!(group.merged.branch_fallbacks, ["release-b", "release-a", "release-c"]);
}
