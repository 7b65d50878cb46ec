use nix_cache_pin::config::{default_version_attr, PinConfig, VersionConstraint};
use nix_cache_pin::textmap::TextMap;

fn config(attr_prefix: &str, python_packages: Option<&str>, full_attr_prefix: Option<&str>) -> PinConfig {
    PinConfig {
        name: "test".into(),
        packages: vec![],
        wish_packages: vec![],
        consumer_flake_ref: None,
        consumer_targets: TextMap::new(),
        input_name: "nixpkgs".into(),
        attr_prefix: attr_prefix.into(),
        python_packages: python_packages.map(|s| s.to_string()),
        caches: vec![],
        hydra_jobset: "nixpkgs/trunk".into(),
        hydra_url: "https://hydra.nixos.org".into(),
        hydra_job_pattern: "{jobset}/{pkg}.{arch}".into(),
        hydra_rev_input: "nixpkgs".into(),
        depth: 15,
        branch: "nixpkgs-unstable".into(),
        branch_fallbacks: vec![],
        flake_ref: "github:NixOS/nixpkgs".into(),
        flake_output: "legacyPackages".into(),
        fail_fast: false,
        arch: "x86_64-linux".into(),
        lock_only: false,
        verify_closure: false,
        version_constraints: TextMap::new(),
        full_attr_prefix: full_attr_prefix.map(|s| s.to_string()),
    }
}

#[test]
fn test_full_attr_prefix_with_python() {
    let cfg = config("pkgsRocm", Some("python313Packages"), None);
    assert_eq!(cfg.full_attr_prefix(), "python313Packages");
}

#[test]
fn test_full_attr_prefix_without_python() {
    let cfg = config("pkgsRocm", None, None);
    assert_eq!(cfg.full_attr_prefix(), "pkgsRocm");
}

#[test]
fn test_full_attr_prefix_json_override() {
    let cfg = config("pkgsRocm", Some("python313Packages"), Some("overridden"));
    assert_eq!(cfg.full_attr_prefix(), "overridden");
}

#[test]
fn default_version_attribute_is_version() {
    assert_eq!(default_version_attr(), "version");
}

#[test]
fn duplicate_keeps_every_setting() {
    let mut cfg = config("pkgs", None, None);
    cfg.packages = vec!["hello".into()];
    cfg.consumer_targets.insert("hello".into(), "packages.x86_64-linux.hello".into());
    cfg.version_constraints.insert(
        "hello".into(),
        VersionConstraint { target: Some(">= 2".into()), taints: vec![], version_attr: "version".into() },
    );
    let copy = cfg.duplicate();
    assert_eq!(copy.packages, vec!["hello".to_string()]);
    assert_eq!(copy.consumer_targets.get("hello").map(|s| s.as_str()), Some("packages.x86_64-linux.hello"));
    assert_eq!(copy.version_constraints.get("hello").and_then(|c| c.target.as_deref()), Some(">= 2"));
    assert_eq!(copy.full_attr_prefix(), "pkgs");
}

#[test]
fn text_map_keeps_keys_in_order_and_replaces_values() {
    let mut m: TextMap<u32> = TextMap::new();
    assert_eq!(m.insert("b".into(), 1), None);
    assert_eq!(m.insert("a".into(), 2), None);
    assert_eq!(m.insert("b".into(), 3), Some(1));
    assert_eq!(m.len(), 2);
    assert_eq!(m.key_at(0), "a");
    assert_eq!(m.key_at(1), "b");
    assert_eq!(m.get("b"), Some(&3));
    assert_eq!(m.get("c"), None);
}
