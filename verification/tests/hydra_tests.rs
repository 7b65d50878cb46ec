use nix_cache_pin::config::PinConfig;
use nix_cache_pin::hydra::{
    accept_chunk, build_hydra_job_url, build_not_on_hydra, build_on_hydra, extract_eval_rev, jobset_evals_url,
    parse_bounded_eval, HydraEval, HydraStatus, EVAL_RESPONSE_MAX_BYTES,
};
use nix_cache_pin::textmap::TextMap;

fn cfg(hydra_rev_input: &str, jobset: &str, pattern: &str, attr_prefix: &str) -> PinConfig {
    PinConfig {
        name: "test".into(),
        packages: vec!["hello".into()],
        wish_packages: vec![],
        consumer_flake_ref: None,
        consumer_targets: TextMap::new(),
        input_name: "nixpkgs".into(),
        attr_prefix: attr_prefix.into(),
        python_packages: None,
        caches: vec!["https://cache.nixos.org".into()],
        hydra_jobset: jobset.into(),
        hydra_url: "https://hydra.nixos.org".into(),
        hydra_job_pattern: pattern.into(),
        hydra_rev_input: hydra_rev_input.into(),
        depth: 15,
        branch: "nixpkgs-unstable".into(),
        branch_fallbacks: vec![],
        flake_ref: "github:NixOS/nixpkgs".into(),
        flake_output: "legacyPackages".into(),
        fail_fast: false,
        arch: "x86_64-linux".into(),
        lock_only: false,
        verify_closure: false,
        version_constraints: TextMap::new(),
        full_attr_prefix: None,
    }
}

fn test_cfg() -> PinConfig {
    cfg("nixpkgs", "nixpkgs/trunk", "{jobset}/{pkg}.{arch}", "")
}

fn inputs(entries: &[(&str, Option<&str>)]) -> TextMap<Option<String>> {
    let mut m = TextMap::new();
    for (k, v) in entries {
        m.insert(k.to_string(), v.map(|s| s.to_string()));
    }
    m
}

#[test]
fn test_build_hydra_job_url() {
    let url = build_hydra_job_url(&test_cfg(), "blender");
    assert_eq!(url, "https://hydra.nixos.org/job/nixpkgs/trunk/blender.x86_64-linux/latest-finished");
}

#[test]
fn test_build_hydra_job_url_full_prefix() {
    let cfg = cfg("nixpkgs", "nixpkgs/trunk", "{jobset}/{fullAttrPrefix}.{pkg}.{arch}", "pkgsRocm");
    let url = build_hydra_job_url(&cfg, "rocblas");
    assert_eq!(url, "https://hydra.nixos.org/job/nixpkgs/trunk/pkgsRocm.rocblas.x86_64-linux/latest-finished");
}

#[test]
fn test_extract_eval_rev_flake() {
    let cfg = cfg("flake", "lantian/nix-cachyos-kernel", "{jobset}/packages.{arch}.{pkg}", "");
    let eval = HydraEval {
        id: 1,
        flake: Some("github:xddxdd/nix-cachyos-kernel/1fc1e3f6d65a3e16898c8a75a951cfc529e71001?narHash=sha256-abc".into()),
        jobsetevalinputs: None,
    };
    assert_eq!(extract_eval_rev(&cfg, &eval), Some("1fc1e3f6d65a3e16898c8a75a951cfc529e71001".into()));
}

#[test]
fn test_extract_eval_rev_named_input() {
    let eval = HydraEval {
        id: 1,
        flake: None,
        jobsetevalinputs: Some(inputs(&[("nixpkgs", Some("abcdef1234567890abcdef1234567890abcdef12"))])),
    };
    assert_eq!(extract_eval_rev(&test_cfg(), &eval), Some("abcdef1234567890abcdef1234567890abcdef12".into()));
}

#[test]
fn test_extract_eval_rev_named_input_missing() {
    let eval = HydraEval { id: 1, flake: None, jobsetevalinputs: Some(inputs(&[("nixpkgs", None)])) };
    assert_eq!(extract_eval_rev(&test_cfg(), &eval), None);
}

#[test]
fn test_extract_eval_rev_missing() {
    let cfg = cfg("nonexistent", "nixpkgs/trunk", "{jobset}/{pkg}.{arch}", "");
    let eval = HydraEval { id: 1, flake: None, jobsetevalinputs: Some(inputs(&[("nixpkgs", Some("abc"))])) };
    assert_eq!(extract_eval_rev(&cfg, &eval), None);
}

#[test]
fn jobset_evals_url_needs_project_and_jobset() {
    assert_eq!(
        jobset_evals_url(&test_cfg(), 15).as_deref(),
        Some("https://hydra.nixos.org/jobset/nixpkgs/trunk/evals?limit=15")
    );
    let single = cfg("nixpkgs", "trunk", "{pkg}", "");
    assert_eq!(jobset_evals_url(&single, 15), None);
}

#[test]
fn bounded_eval_reads_id_and_flake() {
    let body = br#"{"id": 1234, "flake": "github:NixOS/nixpkgs/abc", "jobsetevals": []}"#;
    let eval = parse_bounded_eval(body, 1234).unwrap();
    assert_eq!(eval.id, 1234);
    assert_eq!(eval.flake.as_deref(), Some("github:NixOS/nixpkgs/abc"));
    let err = parse_bounded_eval(br#"{"flake": "x"}"#, 77).unwrap_err();
    assert_eq!(err.message(), "config error: eval id not found in truncated response for eval 77");
    let err = parse_bounded_eval(&[0xff, 0xfe], 1).unwrap_err();
    assert_eq!(err.message(), "config error: eval response is not valid UTF-8");
}

#[test]
fn bounded_buffer_stops_at_the_limit() {
    let mut buf = vec![0u8; EVAL_RESPONSE_MAX_BYTES - 2];
    assert!(!accept_chunk(&mut buf, &[1, 2, 3, 4]));
    assert_eq!(buf.len(), EVAL_RESPONSE_MAX_BYTES);
    assert_eq!(&buf[buf.len() - 2..], &[1, 2]);
    let mut small = vec![];
    assert!(accept_chunk(&mut small, &[9]));
    assert_eq!(small, vec![9]);
}

#[test]
fn hydra_build_results() {
    let found = build_on_hydra("hello", None, Some("/nix/store/x".into()));
    assert_eq!(found.status, HydraStatus::OnHydra);
    assert!(found.evals.is_empty());
    let missing = build_not_on_hydra("hello");
    assert_eq!(missing.status, HydraStatus::NotOnHydra);
}
