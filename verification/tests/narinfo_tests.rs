use nix_cache_pin::narinfo::{
    build_attr, build_consumer_eval_ref, build_eval_attr_ref, build_eval_ref, narinfo_references,
    store_path_narinfo_hash, unfinished_result, verify_result, Availability, CacheCheck, CacheProbe, ClosureWalk,
    PackageCheckResult, PackageRun, ProbeOutcome,
};

fn result(pkg: &str, cached: bool) -> PackageCheckResult {
    PackageCheckResult {
        package: pkg.to_string(),
        target: None,
        cached,
        availability: if cached { Availability::Cached } else { Availability::Missing },
        cache: None,
        store_path: Some("/nix/store/hash-pkg".into()),
        error: None,
        version: None,
        version_error: None,
        version_rejected_by: Vec::new(),
    }
}

#[test]
fn test_narinfo_hash_standard_path() {
    let hash = store_path_narinfo_hash("/nix/store/aaaa1234-hello-2.12");
    assert_eq!(hash, "aaaa1234");
}

#[test]
fn test_narinfo_hash_long_hash() {
    let hash = store_path_narinfo_hash("/nix/store/0i1nnqfsc8c39sq0xbmqcfpfzigkbw0z-hello-2.12.1");
    assert_eq!(hash, "0i1nnqfsc8c39sq0xbmqcfpfzigkbw0z");
}

#[test]
fn test_narinfo_hash_no_dash() {
    let hash = store_path_narinfo_hash("/nix/store/nodash");
    assert_eq!(hash, "nodash");
}

#[test]
fn test_narinfo_hash_empty() {
    let hash = store_path_narinfo_hash("");
    assert_eq!(hash, "");
}

#[test]
fn test_narinfo_hash_bare_filename() {
    let hash = store_path_narinfo_hash("abc123-pkg");
    assert_eq!(hash, "abc123");
}

#[test]
fn narinfo_hash_follows_path_file_name() {
    assert_eq!(store_path_narinfo_hash("/nix/store/abc-pkg/"), "abc");
    assert_eq!(store_path_narinfo_hash("/nix/store/abc-pkg/."), "abc");
    assert_eq!(store_path_narinfo_hash("/nix/store/.."), "");
    assert_eq!(store_path_narinfo_hash("/"), "");
}

#[test]
fn test_build_attr_empty_prefix() {
    assert_eq!(build_attr("", "hello"), "hello");
}

#[test]
fn test_build_attr_with_prefix() {
    assert_eq!(build_attr("pkgsRocm", "rocblas"), "pkgsRocm.rocblas");
}

#[test]
fn test_build_attr_python_packages() {
    assert_eq!(build_attr("python313Packages", "torch"), "python313Packages.torch");
}

#[test]
fn test_build_eval_ref_no_prefix() {
    let r = build_eval_ref("github:NixOS/nixpkgs", "abc123", "x86_64-linux", "legacyPackages", "", "hello");
    assert_eq!(r, "github:NixOS/nixpkgs/abc123#legacyPackages.x86_64-linux.hello.outPath");
}

#[test]
fn test_build_eval_ref_with_prefix() {
    let r = build_eval_ref(
        "github:NixOS/nixpkgs",
        "abc123",
        "x86_64-linux",
        "legacyPackages",
        "python313Packages",
        "torch",
    );
    assert_eq!(r, "github:NixOS/nixpkgs/abc123#legacyPackages.x86_64-linux.python313Packages.torch.outPath");
}

#[test]
fn test_build_consumer_eval_ref() {
    assert_eq!(
        build_consumer_eval_ref(".", "cachePinTargets.aarch64.rauthy"),
        ".#cachePinTargets.aarch64.rauthy.outPath"
    );
    assert_eq!(
        build_consumer_eval_ref("flake:#", "packages.aarch64-linux.rauthy"),
        "flake:#packages.aarch64-linux.rauthy.outPath"
    );
}

#[test]
fn test_build_eval_ref_git_https() {
    let r = build_eval_ref("git+https://gitlab.com/foo/bar", "def456", "aarch64-linux", "packages", "", "mypkg");
    assert_eq!(r, "git+https://gitlab.com/foo/bar?rev=def456#packages.aarch64-linux.mypkg.outPath");
}

#[test]
fn eval_attr_ref_names_the_attribute() {
    let r = build_eval_attr_ref("github:NixOS/nixpkgs", "abc", "x86_64-linux", "legacyPackages", "pkgs", "hello", "version");
    assert_eq!(r, "github:NixOS/nixpkgs/abc#legacyPackages.x86_64-linux.pkgs.hello.version");
}

#[test]
fn probe_finds_the_first_cache_with_the_path() {
    let mut probe = CacheProbe::new();
    assert!(probe.record("https://a", ProbeOutcome::NotFound).is_none());
    let found = probe.record("https://b", ProbeOutcome::Found).unwrap();
    assert_eq!(found.availability, Availability::Cached);
    assert_eq!(found.cache.as_deref(), Some("https://b"));
    assert!(found.error.is_none());
}

#[test]
fn probe_reports_missing_only_when_every_cache_answered() {
    let mut probe = CacheProbe::new();
    assert!(probe.record("https://a", ProbeOutcome::NotFound).is_none());
    let check = probe.finish(true);
    assert_eq!(check.availability, Availability::Missing);

    let probe = CacheProbe::new();
    let check = probe.finish(false);
    assert_eq!(check.availability, Availability::Unknown);
    assert_eq!(check.error.as_deref(), Some("no binary caches configured"));
}

#[test]
fn probe_failures_make_the_lookup_unknown() {
    let mut probe = CacheProbe::new();
    assert!(probe.record("https://a", ProbeOutcome::Status("500 Internal Server Error".into())).is_none());
    assert!(probe.record("https://b", ProbeOutcome::Failed("timed out".into())).is_none());
    let check = probe.finish(true);
    assert_eq!(check.availability, Availability::Unknown);
    assert_eq!(check.cache.as_deref(), Some("https://a"));
    assert_eq!(
        check.error.as_deref(),
        Some("https://a returned HTTP 500 Internal Server Error; https://b: timed out")
    );
}

#[test]
fn narinfo_references_are_hashes() {
    let body = "StorePath: /nix/store/aaa-x\nReferences: bbb-libc ccc-zlib-1.3\nDeriver: ddd.drv\n";
    assert_eq!(narinfo_references(body), vec!["bbb".to_string(), "ccc".to_string()]);
    assert!(narinfo_references("StorePath: /nix/store/aaa-x\n").is_empty());
    assert!(narinfo_references("References: \n").is_empty());
}

#[test]
fn closure_walk_hands_out_each_hash_once() {
    let mut walk = ClosureWalk::new("/nix/store/aaa-root");
    assert_eq!(walk.next().as_deref(), Some("aaa"));
    let cached = CacheCheck { availability: Availability::Cached, cache: Some("https://a".into()), error: None };
    assert!(walk.record(cached, vec!["bbb".into(), "aaa".into()]).is_none());
    assert_eq!(walk.next().as_deref(), Some("bbb"));
    let cached = CacheCheck { availability: Availability::Cached, cache: Some("https://b".into()), error: None };
    assert!(walk.record(cached, vec!["aaa".into()]).is_none());
    assert_eq!(walk.next(), None);
    let done = walk.finish();
    assert_eq!(done.availability, Availability::Cached);
    assert_eq!(done.cache.as_deref(), Some("https://a"));
}

#[test]
fn closure_walk_stops_at_the_first_miss() {
    let mut walk = ClosureWalk::new("/nix/store/aaa-root");
    assert_eq!(walk.next().as_deref(), Some("aaa"));
    let missing = CacheCheck { availability: Availability::Missing, cache: None, error: None };
    let end = walk.record(missing, vec![]).unwrap();
    assert_eq!(end.availability, Availability::Missing);
}

#[test]
fn verify_result_needs_every_package_accepted() {
    let all = verify_result("rev", vec![result("a", true), result("b", true)]);
    assert!(all.all_cached);
    let partial = verify_result("rev", vec![result("a", true), result("b", false)]);
    assert!(!partial.all_cached);
    let none = verify_result("rev", vec![]);
    assert!(!none.all_cached);
}

#[test]
fn failure_prefers_errors_then_versions() {
    let mut r = result("kernel", true);
    assert_eq!(r.failure(), None);
    assert!(r.accepted());
    r.version = Some("7.0.9".into());
    r.version_rejected_by = vec!["a".into(), "b".into()];
    assert_eq!(r.failure().as_deref(), Some("version 7.0.9 rejected by a; b"));
    assert!(!r.accepted());
    r.version_error = Some("bad".into());
    assert_eq!(r.failure().as_deref(), Some("bad"));
    r.error = Some("down".into());
    assert_eq!(r.failure().as_deref(), Some("down"));
}

#[test]
fn unfinished_check_is_unknown() {
    let r = unfinished_result("hello".into(), "panicked");
    assert_eq!(r.availability, Availability::Unknown);
    assert_eq!(r.error.as_deref(), Some("task join error: panicked"));
    assert_eq!(Availability::Unknown.as_str(), "unknown");
}

#[test]
fn fail_fast_run_stops_at_the_first_miss() {
    let packages: Vec<String> = vec!["a".into(), "b".into(), "c".into()];
    let mut run = PackageRun::new(packages.clone(), true);
    assert_eq!(run.next().as_deref(), Some("a"));
    run.record(result("a", true));
    assert_eq!(run.next().as_deref(), Some("b"));
    run.record(result("b", false));
    assert_eq!(run.next(), None);
    let verified = run.finish("rev");
    assert_eq!(verified.results.len(), 2);
    assert!(!verified.all_cached);

    let mut run = PackageRun::new(packages, false);
    while let Some(pkg) = run.next() {
        run.record(result(&pkg, pkg != "b"));
    }
    let verified = run.finish("rev");
    assert_eq!(verified.results.len(), 3);
    assert!(!verified.all_cached);
}

#[test]
fn failed_store_path_evaluation_finishes_the_package() {
    let error = nix_cache_pin::error::Error::NixEval { package: "hello".into(), stderr: "boom".into() };
    let result = nix_cache_pin::narinfo::after_store_path_eval("hello", &Some("x86".into()), Err(error)).unwrap_err();
    assert_eq!(result.package, "hello");
    assert_eq!(result.target.as_deref(), Some("x86"));
    assert!(!result.cached);
    assert_eq!(result.availability, Availability::Unknown);
    assert!(result.store_path.is_none());
    assert!(result.cache.is_none());
    assert_eq!(result.error.as_deref(), Some("nix eval failed for hello: boom"));
    assert!(result.version.is_none());
    assert!(result.version_error.is_none());
    assert!(result.version_rejected_by.is_empty());
    let path = nix_cache_pin::narinfo::after_store_path_eval("hello", &None, Ok("/nix/store/abc-hello".into())).unwrap();
    assert_eq!(path, "/nix/store/abc-hello");
}
