use nix_cache_pin::config::PinConfig;
use nix_cache_pin::narinfo::{Availability, PackageCheckResult};
use nix_cache_pin::report::{config_header, format_rev_summary, never_cached, short_rev_text, version_warnings};
use nix_cache_pin::textmap::TextMap;

fn cached_result(pkg: &str) -> PackageCheckResult {
    PackageCheckResult {
        package: pkg.to_string(),
        target: None,
        cached: true,
        availability: Availability::Cached,
        cache: None,
        store_path: Some("/nix/store/hash-pkg".into()),
        error: None,
        version: None,
        version_error: None,
        version_rejected_by: Vec::new(),
    }
}

fn miss_result(pkg: &str) -> PackageCheckResult {
    PackageCheckResult {
        package: pkg.to_string(),
        target: None,
        cached: false,
        availability: Availability::Missing,
        cache: None,
        store_path: Some("/nix/store/hash-pkg".into()),
        error: None,
        version: None,
        version_error: None,
        version_rejected_by: Vec::new(),
    }
}

fn test_cfg() -> PinConfig {
    PinConfig {
        name: "test".into(),
        packages: vec!["hello".into(), "blender".into()],
        wish_packages: vec![],
        consumer_flake_ref: None,
        consumer_targets: TextMap::new(),
        input_name: "nixpkgs".into(),
        attr_prefix: "".into(),
        python_packages: None,
        caches: vec!["https://cache.nixos.org".into()],
        hydra_jobset: "nixpkgs/trunk".into(),
        hydra_url: "https://hydra.nixos.org".into(),
        hydra_job_pattern: "{jobset}/{pkg}.{arch}".into(),
        hydra_rev_input: "nixpkgs".into(),
        depth: 15,
        branch: "nixpkgs-unstable".into(),
        branch_fallbacks: vec![],
        flake_ref: "github:NixOS/nixpkgs".into(),
        flake_output: "legacyPackages".into(),
        fail_fast: false,
        arch: "x86_64-linux".into(),
        lock_only: false,
        verify_closure: false,
        version_constraints: TextMap::new(),
        full_attr_prefix: None,
    }
}

#[test]
fn test_format_rev_summary_all_cached() {
    let results = vec![cached_result("hello"), cached_result("curl")];
    let summary = format_rev_summary("abcdef123456789", Some(42), &results).text();
    assert!(summary.contains("2/2"));
    assert!(summary.contains("all cached"));
    assert!(summary.contains("abcdef123456"));
    assert!(summary.contains("eval 42"));
}

#[test]
fn test_format_rev_summary_partial_miss() {
    let results = vec![cached_result("hello"), miss_result("blender")];
    let summary = format_rev_summary("abcdef123456789", Some(10), &results).text();
    assert!(summary.contains("1/2"));
    assert!(summary.contains("blender"));
    assert!(summary.contains("miss"));
}

#[test]
fn test_format_rev_summary_no_eval_id() {
    let results = vec![cached_result("hello")];
    let summary = format_rev_summary("abcdef123456789", None, &results).text();
    assert!(!summary.contains("eval"));
    assert!(summary.contains("1/1"));
}

#[test]
fn test_format_rev_summary_short_rev() {
    let results = vec![cached_result("hello")];
    let summary = format_rev_summary("abc", None, &results).text();
    assert!(summary.contains("abc"));
}

#[test]
fn test_format_rev_summary_all_miss() {
    let results = vec![miss_result("a"), miss_result("b")];
    let summary = format_rev_summary("abcdef123456789", None, &results).text();
    assert!(summary.contains("0/2"));
    assert!(summary.contains("a"));
    assert!(summary.contains("b"));
}

#[test]
fn rev_summary_parts_set_the_verdict_word_apart() {
    let summary = format_rev_summary("abcdef123456789", None, &vec![miss_result("hello")]);
    assert_eq!(summary.head, "  Rev abcdef123456: 0/1 cached \u{2014} ");
    assert!(!summary.all_cached);
    assert_eq!(summary.tail, ": hello");
    let summary = format_rev_summary("abc", None, &vec![cached_result("hello")]);
    assert_eq!(summary.head, "  Rev abc: 1/1 ");
    assert!(summary.all_cached);
    assert_eq!(summary.tail, "");
}

#[test]
fn rev_summary_exact_text() {
    let mut rejected = miss_result("kernel");
    rejected.cached = true;
    rejected.version = Some("7.0.9".into());
    rejected.version_rejected_by = vec!["target '< 7.0.8' did not match".into()];
    let results = vec![cached_result("hello"), rejected];
    let summary = format_rev_summary("abcdef123456789", Some(-3), &results).text();
    assert_eq!(
        summary,
        "  Rev abcdef123456 (eval -3): 2/2 all cached"
    );
    let results = vec![miss_result("hello")];
    assert_eq!(
        format_rev_summary("abcdef123456789", Some(7), &results).text(),
        "  Rev abcdef123456 (eval 7): 0/1 cached \u{2014} miss: hello"
    );
}

#[test]
fn test_warn_never_cached_warns_for_missing_pkg() {
    let cfg = test_cfg();
    let results = vec![cached_result("hello"), miss_result("hello")];
    let warned = never_cached(&cfg, &results);
    assert!(warned.iter().any(|p| p.contains("blender")));
    assert!(!warned.iter().any(|p| p.contains("hello")));
}

#[test]
fn test_warn_never_cached_no_warning_when_all_cached() {
    let cfg = test_cfg();
    let results = vec![cached_result("hello"), cached_result("blender")];
    assert!(never_cached(&cfg, &results).is_empty());
}

#[test]
fn test_warn_never_cached_empty_results() {
    let cfg = test_cfg();
    assert!(never_cached(&cfg, &vec![]).is_empty());
}

#[test]
fn version_warnings_are_listed_once() {
    let mut a = miss_result("kernel");
    a.version_error = Some("no version".into());
    let b = a.duplicate();
    let mut c = cached_result("zfs");
    c.version_rejected_by = vec!["x".into()];
    let warnings = version_warnings(&vec![a, b, c]);
    assert_eq!(
        warnings,
        vec![
            "kernel version check failed: no version".to_string(),
            "zfs version unknown rejected by x".to_string(),
        ]
    );
}

#[test]
fn short_rev_keeps_twelve_characters() {
    assert_eq!(short_rev_text("abcdef1234567890"), "abcdef123456");
    assert_eq!(short_rev_text("abc"), "abc");
    // Twelve bytes, not twelve characters.
    assert_eq!(short_rev_text("\u{e9}\u{e9}\u{e9}\u{e9}\u{e9}\u{e9}\u{e9}\u{e9}\u{e9}"), "\u{e9}\u{e9}\u{e9}\u{e9}\u{e9}\u{e9}");
}

#[test]
fn config_header_lists_the_pin() {
    let mut cfg = test_cfg();
    cfg.wish_packages = vec!["zfs".into()];
    let lines = config_header(&cfg);
    assert_eq!(
        lines,
        vec![
            "nix-cache-pin: test".to_string(),
            "  input: nixpkgs | hydra: https://hydra.nixos.org | attr:  | arch: x86_64-linux".to_string(),
            "  packages: hello, blender".to_string(),
            "  wish packages: zfs".to_string(),
            String::new(),
        ]
    );
}
