use nix_cache_pin::config::PinConfig;
use nix_cache_pin::error::Error;
use nix_cache_pin::narinfo::{Availability, PackageCheckResult};
use nix_cache_pin::plan::{
    add_relation_diagnostic, add_required_diagnostic, assemble_plan, diagnostic, error_diagnostics, package_evidence,
    push_diagnostic, revision_policy, Compatibility, DiagnosticCode, EvidenceAvailability, HydraAvailability,
    HydraEvidence, PinDraft, PlanState, PolicyDecision, RelationStep, RevisionRelation, SCHEMA_VERSION,
};
use nix_cache_pin::textmap::TextMap;

fn cfg() -> PinConfig {
    PinConfig {
        name: "kernel".into(),
        packages: vec!["kernel".into()],
        wish_packages: vec![],
        consumer_flake_ref: None,
        consumer_targets: TextMap::new(),
        input_name: "nixpkgs".into(),
        attr_prefix: "".into(),
        python_packages: None,
        caches: vec![],
        hydra_jobset: "nixpkgs/trunk".into(),
        hydra_url: "https://hydra.nixos.org".into(),
        hydra_job_pattern: "{jobset}/{pkg}".into(),
        hydra_rev_input: "nixpkgs".into(),
        depth: 5,
        branch: "main".into(),
        branch_fallbacks: vec![],
        flake_ref: "github:NixOS/nixpkgs".into(),
        flake_output: "legacyPackages".into(),
        fail_fast: false,
        arch: "x86_64-linux".into(),
        lock_only: false,
        verify_closure: false,
        version_constraints: TextMap::new(),
        full_attr_prefix: None,
    }
}

fn kernel_result() -> PackageCheckResult {
    PackageCheckResult {
        package: "kernel".to_string(),
        target: Some("packages.x86_64-linux.kernel".to_string()),
        cached: true,
        availability: Availability::Cached,
        cache: Some("https://cache.example.test".to_string()),
        store_path: Some("/nix/store/hash-kernel".to_string()),
        error: None,
        version: Some("7.0.9".to_string()),
        version_error: None,
        version_rejected_by: vec!["target '< 7.0.8' did not match".to_string()],
    }
}

#[test]
fn package_result_maps_incompatibility_and_provenance() {
    let result = kernel_result();
    let evidence = package_evidence("candidate", &result);
    assert_eq!(evidence.compatibility, Compatibility::Incompatible);
    assert_eq!(evidence.availability, EvidenceAvailability::Cached);
    assert_eq!(evidence.provenance.revision, "candidate");
    assert_eq!(evidence.provenance.target, "packages.x86_64-linux.kernel");
}

#[test]
fn evidence_reason_comes_from_the_failure() {
    let evidence = package_evidence("rev", &kernel_result());
    assert_eq!(
        evidence.reason.as_deref(),
        Some("version 7.0.9 rejected by target '< 7.0.8' did not match")
    );
}

#[test]
fn diagnostics_are_kept_once_per_code_and_package() {
    let cfg = cfg();
    let mut ds = Vec::new();
    push_diagnostic(&mut ds, diagnostic(&cfg, DiagnosticCode::NoCandidate, None, "first".into()));
    push_diagnostic(&mut ds, diagnostic(&cfg, DiagnosticCode::NoCandidate, None, "second".into()));
    push_diagnostic(&mut ds, diagnostic(&cfg, DiagnosticCode::NoCandidate, Some("x".into()), "third".into()));
    assert_eq!(ds.len(), 2);
    assert_eq!(ds[0].reason, "first");
    assert!(ds[0].blocking);
    assert_eq!(ds[0].pin, "kernel");
}

#[test]
fn revision_policy_accepts_only_newer_candidates() {
    let p = revision_policy(Some("a".into()), Some("b".into()), Some(RevisionRelation::Newer));
    assert_eq!(p.decision, PolicyDecision::Accept);
    assert_eq!(p.reason, "candidate is newer");
    let p = revision_policy(Some("a".into()), Some("a".into()), Some(RevisionRelation::Equal));
    assert_eq!(p.decision, PolicyDecision::Retain);
    let p = revision_policy(None, Some("b".into()), None);
    assert_eq!(p.decision, PolicyDecision::Block);
    assert_eq!(p.reason, "current or candidate revision is unavailable");
}

#[test]
fn relation_diagnostics_block_older_candidates() {
    let cfg = cfg();
    let mut ds = Vec::new();
    add_relation_diagnostic(&cfg, Some(RevisionRelation::Older), &mut ds);
    add_relation_diagnostic(&cfg, Some(RevisionRelation::Newer), &mut ds);
    assert_eq!(ds.len(), 1);
    assert_eq!(ds[0].code, DiagnosticCode::RevisionOlder);
    assert_eq!(ds[0].reason, "candidate revision is older than the current pin");
}

#[test]
fn required_diagnostics_prefer_incompatibility() {
    let cfg = cfg();
    let mut ds = Vec::new();
    add_required_diagnostic(&cfg, &kernel_result(), &mut ds);
    assert_eq!(ds[0].code, DiagnosticCode::RequiredPackageIncompatible);
    let mut missing = kernel_result();
    missing.version_rejected_by.clear();
    missing.cached = false;
    missing.availability = Availability::Missing;
    let mut ds = Vec::new();
    add_required_diagnostic(&cfg, &missing, &mut ds);
    assert_eq!(ds[0].code, DiagnosticCode::RequiredPackageMissing);
    assert_eq!(ds[0].reason, "required package kernel is missing");
}

#[test]
fn wish_built_errors_name_each_package() {
    let cfg = cfg();
    let ds = error_diagnostics(
        &cfg,
        Error::WishPackagesBuilt { location: "Hydra latest-finished".into(), packages: "zfs, nvidia".into() },
    );
    assert_eq!(ds.len(), 2);
    assert_eq!(ds[1].package.as_deref(), Some("nvidia"));
    assert_eq!(ds[1].reason, "wish package nvidia is available at Hydra latest-finished");
    let ds = error_diagnostics(
        &cfg,
        Error::RevisionPolicy { current: "a".into(), candidate: "b".into(), relation: "divergent history".into() },
    );
    assert_eq!(ds[0].code, DiagnosticCode::RevisionDivergent);
    let ds = error_diagnostics(&cfg, Error::FailFast { rev: "abc".into() });
    assert_eq!(ds[0].code, DiagnosticCode::SearchFailed);
    assert_eq!(ds[0].reason, "fail-fast: cache miss at rev abc");
}

#[test]
fn pin_plan_is_blocked_by_any_diagnostic() {
    let cfg = cfg();
    let mut draft = PinDraft::start(&cfg, vec!["kernel".into()], Ok("a".into()), Ok(Some("b".into())));
    assert!(draft.diagnostics.is_empty());
    assert_eq!(draft.relation_step(), RelationStep::Compare);
    draft.set_relation(&cfg, Ok(Some(RevisionRelation::Newer)));
    assert_eq!(draft.evidence_revision().as_deref(), Some("b"));
    let mut fine = kernel_result();
    fine.version_rejected_by.clear();
    draft.add_required(&cfg, "b", &vec![fine]);
    let ready = draft.finish();
    assert_eq!(ready.state, PlanState::Ready);
    assert_eq!(ready.revision.decision, PolicyDecision::Accept);

    let mut draft = PinDraft::start(&cfg, vec![], Err("no flake.nix".into()), Ok(None));
    assert_eq!(draft.diagnostics.len(), 2);
    assert_eq!(draft.relation_step(), RelationStep::Unavailable);
    draft.set_relation(&cfg, Ok(None));
    let blocked = draft.finish();
    assert_eq!(blocked.state, PlanState::Blocked);

    let plan = assemble_plan(vec![ready, blocked]);
    assert_eq!(plan.schema_version, SCHEMA_VERSION);
    assert!(!plan.is_ready());
    assert_eq!(plan.fail_before_write_failures.len(), 2);
}

#[test]
fn wish_seen_on_hydra_must_be_promoted() {
    let cfg = cfg();
    let mut ds = Vec::new();
    let hydra = HydraEvidence {
        availability: HydraAvailability::Observed,
        url: "u".into(),
        store_path: None,
        reason: None,
    };
    let wish = nix_cache_pin::plan::wish_entry(&cfg, "zfs", hydra, Some("a"), None, &vec![], &vec![], &mut ds);
    assert_eq!(wish.decision, nix_cache_pin::plan::WishDecision::Promote);
    assert_eq!(ds[0].reason, "wish package zfs is now available and must be promoted");
}

#[test]
fn add_wishes_weighs_each_wish_package_in_order() {
    let mut cfg = cfg();
    cfg.wish_packages = vec!["zfs".into(), "zfs".into(), "nvidia".into()];
    let mut draft = PinDraft::start(&cfg, vec!["kernel".into()], Ok("a".into()), Ok(Some("b".into())));
    let before = draft.diagnostics.len();
    let evidence = |availability: HydraAvailability| HydraEvidence {
        availability,
        url: "u".into(),
        store_path: None,
        reason: None,
    };
    let hydra = vec![
        evidence(HydraAvailability::Observed),
        evidence(HydraAvailability::NotObserved),
        evidence(HydraAvailability::NotObserved),
    ];
    draft.add_wishes(&cfg, hydra, &vec![], &vec![]);
    assert_eq!(draft.wishes.len(), 3);
    assert_eq!(draft.wishes[0].package, "zfs");
    assert_eq!(draft.wishes[0].decision, nix_cache_pin::plan::WishDecision::Promote);
    assert_eq!(draft.wishes[1].decision, nix_cache_pin::plan::WishDecision::Promote);
    assert_eq!(draft.wishes[2].package, "nvidia");
    assert_eq!(draft.wishes[2].decision, nix_cache_pin::plan::WishDecision::Block);
    assert_eq!(draft.diagnostics.len(), before + 2);
    assert_eq!(draft.diagnostics[before].code, DiagnosticCode::WishPromotionRequired);
    assert_eq!(draft.diagnostics[before].package.as_deref(), Some("zfs"));
    assert_eq!(draft.diagnostics[before + 1].code, DiagnosticCode::WishEvidenceUnknown);
    assert_eq!(draft.diagnostics[before + 1].package.as_deref(), Some("nvidia"));
    assert!(draft.diagnostics[before + 1].blocking);
    let plan = draft.finish();
    assert_eq!(plan.state, PlanState::Blocked);
}
