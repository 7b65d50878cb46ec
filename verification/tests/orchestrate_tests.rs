use nix_cache_pin::config::PinConfig;
use nix_cache_pin::ext::RevisionOrder;
use nix_cache_pin::hydra::{build_not_on_hydra, build_on_hydra, HydraEval};
use nix_cache_pin::narinfo::{Availability, PackageCheckResult};
use nix_cache_pin::orchestrate::{candidate_evals, wishes_built_on_hydra, wishes_cached_at, SearchAction, SearchEvent, TargetSearch};
use nix_cache_pin::textmap::TextMap;

fn cfg(fail_fast: bool) -> PinConfig {
    PinConfig {
        name: "test".into(),
        packages: vec!["hello".into()],
        wish_packages: vec![],
        consumer_flake_ref: None,
        consumer_targets: TextMap::new(),
        input_name: "nixpkgs".into(),
        attr_prefix: "".into(),
        python_packages: None,
        caches: vec![],
        hydra_jobset: "nixpkgs/trunk".into(),
        hydra_url: "https://hydra.nixos.org".into(),
        hydra_job_pattern: "{jobset}/{pkg}".into(),
        hydra_rev_input: "flake".into(),
        depth: 3,
        branch: "main".into(),
        branch_fallbacks: vec![],
        flake_ref: "github:NixOS/nixpkgs".into(),
        flake_output: "legacyPackages".into(),
        fail_fast,
        arch: "x86_64-linux".into(),
        lock_only: false,
        verify_closure: false,
        version_constraints: TextMap::new(),
        full_attr_prefix: None,
    }
}

fn eval_at(rev: &str) -> HydraEval {
    HydraEval { id: 1, flake: Some(format!("github:NixOS/nixpkgs/{rev}")), jobsetevalinputs: None }
}

const REV_A: &str = "aaaaaaaaaaaaaaaaaaaaaaaaaaaaaaaaaaaaaaaa";
const REV_B: &str = "bbbbbbbbbbbbbbbbbbbbbbbbbbbbbbbbbbbbbbbb";

#[test]
fn common_evaluations_newest_first() {
    assert_eq!(candidate_evals(&vec![vec![5, 3, 1], vec![3, 5, 2]]), Some(vec![5, 3]));
    assert_eq!(candidate_evals(&vec![vec![4, 2]]), Some(vec![4, 2]));
    assert_eq!(candidate_evals(&vec![vec![9, 8], vec![7], vec![]]), Some(vec![7]));
    assert_eq!(candidate_evals(&vec![vec![], vec![]]), None);
}

#[test]
fn search_verifies_a_newer_hydra_revision() {
    let hydra = vec![build_on_hydra("hello", Some(vec![10, 9]), None)];
    let (mut s, a) = TargetSearch::start(TargetSearch::clear_wishes(cfg(false), Some(REV_A.into()), &vec![]).unwrap(), &hydra).unwrap();
    assert!(matches!(a, SearchAction::FetchEval(10)));
    let a = s.on_event(SearchEvent::EvalFetched(Some(eval_at(REV_B))));
    match a {
        SearchAction::Compare { current, candidate } => {
            assert_eq!(current, REV_A);
            assert_eq!(candidate, REV_B);
        },
        _ => panic!("expected a comparison"),
    }
    let a = s.on_event(SearchEvent::Compared(Ok(RevisionOrder::Newer)));
    assert!(matches!(a, SearchAction::Verify(ref r) if r == REV_B));
    let a = s.on_event(SearchEvent::Verified(true));
    assert!(matches!(a, SearchAction::Finish(Ok(Some(ref r))) if r == REV_B));
}

#[test]
fn search_skips_older_candidates_and_falls_back() {
    let hydra = vec![build_on_hydra("hello", Some(vec![10]), None)];
    let (mut s, _) = TargetSearch::start(TargetSearch::clear_wishes(cfg(false), Some(REV_A.into()), &vec![]).unwrap(), &hydra).unwrap();
    let _ = s.on_event(SearchEvent::EvalFetched(Some(eval_at(REV_B))));
    let a = s.on_event(SearchEvent::Compared(Ok(RevisionOrder::Older)));
    assert!(matches!(a, SearchAction::ListJobsetEvals));
    let a = s.on_event(SearchEvent::JobsetEvals(vec![10, 11]));
    assert!(matches!(a, SearchAction::FetchEval(11)));
    let a = s.on_event(SearchEvent::EvalFetched(None));
    assert!(matches!(a, SearchAction::ListCommits { ref repo, ref branch } if repo == "NixOS/nixpkgs" && branch == "main"));
    let a = s.on_event(SearchEvent::Commits(Ok(vec![REV_A.into()])));
    assert!(matches!(a, SearchAction::Verify(ref r) if r == REV_A));
    let a = s.on_event(SearchEvent::Verified(false));
    assert!(matches!(a, SearchAction::Finish(Ok(None))));
}

#[test]
fn search_refuses_divergent_history_and_stops_on_fail_fast() {
    let hydra = vec![build_not_on_hydra("hello")];
    let (mut s, a) = TargetSearch::start(TargetSearch::clear_wishes(cfg(true), Some(REV_A.into()), &vec![]).unwrap(), &hydra).unwrap();
    assert!(matches!(a, SearchAction::ListCommits { .. }));
    let _ = s.on_event(SearchEvent::Commits(Ok(vec![REV_B.into()])));
    let a = s.on_event(SearchEvent::Compared(Ok(RevisionOrder::Divergent)));
    match a {
        SearchAction::Finish(Err(e)) => assert!(e.message().contains("divergent history")),
        _ => panic!("expected a refusal"),
    }
    let (mut s, _) = TargetSearch::start(TargetSearch::clear_wishes(cfg(true), None, &vec![]).unwrap(), &hydra).unwrap();
    let a = s.on_event(SearchEvent::Commits(Ok(vec![REV_B.into(), REV_A.into()])));
    assert!(matches!(a, SearchAction::Verify(_)));
    let a = s.on_event(SearchEvent::Verified(false));
    match a {
        SearchAction::Finish(Err(e)) => assert_eq!(e.message(), format!("fail-fast: cache miss at rev {REV_B}")),
        _ => panic!("expected fail-fast"),
    }
}

#[test]
fn wish_gates() {
    assert!(wishes_built_on_hydra(&vec![build_not_on_hydra("zfs")]).is_ok());
    let err = wishes_built_on_hydra(&vec![build_on_hydra("zfs", None, None), build_on_hydra("nv", None, None)]).unwrap_err();
    assert_eq!(
        err.message(),
        "wish package(s) are now built (Hydra latest-finished): zfs, nv; move them from wishPackages to packages"
    );
    let cached = PackageCheckResult {
        package: "zfs".into(),
        target: None,
        cached: true,
        availability: Availability::Cached,
        cache: None,
        store_path: None,
        error: None,
        version: None,
        version_error: None,
        version_rejected_by: vec![],
    };
    let err = wishes_cached_at("abcdef1234567890", &vec![cached]).unwrap_err();
    assert!(err.message().contains("configured cache at rev abcdef123456"));
}

#[test]
fn scan_tries_fallback_branches_in_order() {
    let mut c = cfg(false);
    c.branch_fallbacks = vec!["release-a".into(), "release-b".into()];
    let hydra = vec![build_not_on_hydra("hello")];
    let (mut s, a) = TargetSearch::start(TargetSearch::clear_wishes(c, None, &vec![]).unwrap(), &hydra).unwrap();
    assert!(matches!(a, SearchAction::ListCommits { ref branch, .. } if branch == "main"));
    let a = s.on_event(SearchEvent::Commits(Ok(vec![REV_A.into()])));
    assert!(matches!(a, SearchAction::Verify(ref r) if r == REV_A));
    let a = s.on_event(SearchEvent::Verified(false));
    assert!(matches!(a, SearchAction::ListCommits { ref branch, .. } if branch == "release-a"));
    let a = s.on_event(SearchEvent::Commits(Ok(vec![])));
    assert!(matches!(a, SearchAction::ListCommits { ref branch, .. } if branch == "release-b"));
    let a = s.on_event(SearchEvent::Commits(Ok(vec![REV_B.into()])));
    assert!(matches!(a, SearchAction::Verify(ref r) if r == REV_B));
    let a = s.on_event(SearchEvent::Verified(true));
    assert!(matches!(a, SearchAction::Finish(Ok(Some(ref r))) if r == REV_B));
    let (mut s, _) = TargetSearch::start(TargetSearch::clear_wishes(cfg(false), None, &vec![]).unwrap(), &hydra).unwrap();
    let a = s.on_event(SearchEvent::Commits(Ok(vec![])));
    assert!(matches!(a, SearchAction::Finish(Ok(None))));
}

fn wish_result(cached: bool) -> PackageCheckResult {
    PackageCheckResult {
        package: "zfs".into(),
        target: None,
        cached,
        availability: if cached { Availability::Cached } else { Availability::Missing },
        cache: None,
        store_path: None,
        error: None,
        version: None,
        version_error: None,
        version_rejected_by: vec![],
    }
}

#[test]
fn search_is_refused_while_hydra_has_built_a_wish() {
    let mut c = cfg(false);
    c.wish_packages = vec!["zfs".into()];
    let err = match TargetSearch::clear_wishes(c, None, &vec![build_on_hydra("zfs", Some(vec![4]), None)]) {
        Err(e) => e,
        Ok(_) => panic!("expected the wish gate to refuse"),
    };
    assert!(err.message().contains("(Hydra latest-finished): zfs"));
}

#[test]
fn found_revision_passes_the_wish_cache_gate() {
    let mut c = cfg(false);
    c.wish_packages = vec!["zfs".into()];
    let hydra = vec![build_not_on_hydra("hello")];
    let gate = TargetSearch::clear_wishes(c.duplicate(), None, &vec![build_not_on_hydra("zfs")]).unwrap();
    let (mut s, _) = TargetSearch::start(gate, &hydra).unwrap();
    let _ = s.on_event(SearchEvent::Commits(Ok(vec![REV_A.into()])));
    let a = s.on_event(SearchEvent::Verified(true));
    assert!(matches!(a, SearchAction::CheckWishes(ref r) if r == REV_A));
    let a = s.on_event(SearchEvent::WishesChecked(vec![wish_result(false)]));
    assert!(matches!(a, SearchAction::Finish(Ok(Some(ref r))) if r == REV_A));

    let gate = TargetSearch::clear_wishes(c, None, &vec![]).unwrap();
    let (mut s, _) = TargetSearch::start(gate, &hydra).unwrap();
    let _ = s.on_event(SearchEvent::Commits(Ok(vec![REV_A.into()])));
    let _ = s.on_event(SearchEvent::Verified(true));
    match s.on_event(SearchEvent::WishesChecked(vec![wish_result(true)])) {
        SearchAction::Finish(Err(e)) => assert!(e.message().contains("configured cache at rev aaaaaaaaaaaa): zfs")),
        _ => panic!("expected the wish cache gate to refuse"),
    }
}
