//! The read-only plan: for every pin, the revision policy, the evidence for
//! required and wish packages, and the diagnostics that block a write.
use crate::config::{copy_opt, copy_strings, opt_text, PinConfig};
use crate::error::{join2, join3, join4, Error};
use crate::ext::RevisionOrder;
use crate::hydra::{HydraBuildResult, HydraStatus};
use crate::narinfo::{
    availability_word, result_views, spec_failure, Availability, PackageCheckResult, PackageResultView,
};
use crate::text::{copy_string, owned, split_char, split_text, text_eq, texts, trim, trim_text};
use vstd::prelude::*;

verus! {

/// The version of the plan's JSON shape.
pub const SCHEMA_VERSION: u32 = 1;

/// Whether a plan (or one pin of it) may be written.
#[derive(Debug, Clone, Copy, PartialEq, Eq, Structural)]
pub enum PlanState {
    Ready,
    Blocked,
}

/// How the candidate revision relates to the current pin.
#[derive(Debug, Clone, Copy, PartialEq, Eq, Structural)]
pub enum RevisionRelation {
    Equal,
    Newer,
    Older,
    Divergent,
    Unknown,
}

/// The relation that a revision ordering reports.
pub open spec fn relation_of(order: RevisionOrder) -> RevisionRelation {
    match order {
        RevisionOrder::Equal => RevisionRelation::Equal,
        RevisionOrder::Newer => RevisionRelation::Newer,
        RevisionOrder::Older => RevisionRelation::Older,
        RevisionOrder::Divergent => RevisionRelation::Divergent,
        RevisionOrder::Unknown => RevisionRelation::Unknown,
    }
}

impl From<RevisionOrder> for RevisionRelation {
    fn from(value: RevisionOrder) -> (r: Self) {
        match value {
            RevisionOrder::Equal => RevisionRelation::Equal,
            RevisionOrder::Newer => RevisionRelation::Newer,
            RevisionOrder::Older => RevisionRelation::Older,
            RevisionOrder::Divergent => RevisionRelation::Divergent,
            RevisionOrder::Unknown => RevisionRelation::Unknown,
        }
    }
}

impl vstd::std_specs::convert::FromSpecImpl<RevisionOrder> for RevisionRelation {
    open spec fn obeys_from_spec() -> bool {
        true
    }

    open spec fn from_spec(v: RevisionOrder) -> Self {
        relation_of(v)
    }
}

/// What the revision policy decides for a pin.
#[derive(Debug, Clone, Copy, PartialEq, Eq, Structural)]
pub enum PolicyDecision {
    Accept,
    Retain,
    Block,
}

/// Whether a package's path is in a binary cache.
#[derive(Debug, Clone, Copy, PartialEq, Eq, Structural)]
pub enum EvidenceAvailability {
    Cached,
    Missing,
    Unknown,
}

/// The evidence availability of a cache availability.
pub open spec fn evidence_availability_of(a: Availability) -> EvidenceAvailability {
    match a {
        Availability::Cached => EvidenceAvailability::Cached,
        Availability::Missing => EvidenceAvailability::Missing,
        Availability::Unknown => EvidenceAvailability::Unknown,
    }
}

impl From<Availability> for EvidenceAvailability {
    fn from(value: Availability) -> (r: Self) {
        match value {
            Availability::Cached => EvidenceAvailability::Cached,
            Availability::Missing => EvidenceAvailability::Missing,
            Availability::Unknown => EvidenceAvailability::Unknown,
        }
    }
}

impl vstd::std_specs::convert::FromSpecImpl<Availability> for EvidenceAvailability {
    open spec fn obeys_from_spec() -> bool {
        true
    }

    open spec fn from_spec(v: Availability) -> Self {
        evidence_availability_of(v)
    }
}

/// Whether a package's version satisfies its gates.
#[derive(Debug, Clone, Copy, PartialEq, Eq, Structural)]
pub enum Compatibility {
    Compatible,
    Incompatible,
    Unknown,
}

/// Whether Hydra has built a package.
#[derive(Debug, Clone, Copy, PartialEq, Eq, Structural)]
pub enum HydraAvailability {
    Observed,
    NotObserved,
    Unknown,
}

/// What becomes of a wish package.
#[derive(Debug, Clone, Copy, PartialEq, Eq, Structural)]
pub enum WishDecision {
    Keep,
    Promote,
    Block,
}

/// The kinds of findings that block a write.
#[derive(Debug, Clone, Copy, PartialEq, Eq, Structural)]
pub enum DiagnosticCode {
    CurrentRevisionUnavailable,
    SearchFailed,
    NoCandidate,
    RevisionOlder,
    RevisionDivergent,
    RevisionUnknown,
    RequiredPackageMissing,
    RequiredPackageUnknown,
    RequiredPackageIncompatible,
    WishPromotionRequired,
    WishEvidenceUnknown,
}

/// A finding about one pin, optionally about one of its packages.
#[derive(Debug)]
pub struct Diagnostic {
    pub code: DiagnosticCode,
    pub reason: String,
    pub pin: String,
    pub package: Option<String>,
    pub blocking: bool,
}

/// The content of a diagnostic.
pub struct DiagnosticView {
    pub code: DiagnosticCode,
    pub reason: Seq<char>,
    pub pin: Seq<char>,
    pub package: Option<Seq<char>>,
    pub blocking: bool,
}

impl View for Diagnostic {
    type V = DiagnosticView;

    open spec fn view(&self) -> DiagnosticView {
        DiagnosticView { code: self.code, reason: self.reason@, pin: self.pin@, package: opt_text(self.package), blocking: self.blocking }
    }
}

/// The views of a list of diagnostics.
pub open spec fn diag_views(v: Seq<Diagnostic>) -> Seq<DiagnosticView> {
    v.map_values(|d: Diagnostic| d@)
}

/// A blocking diagnostic of a pin.
pub open spec fn diag(pin: Seq<char>, code: DiagnosticCode, package: Option<Seq<char>>, reason: Seq<char>) -> DiagnosticView {
    DiagnosticView { code, reason, pin, package, blocking: true }
}

/// Creates a blocking diagnostic for a pin.
pub fn diagnostic(cfg: &PinConfig, code: DiagnosticCode, package: Option<String>, reason: String) -> (r: Diagnostic)
    ensures
        r@ == diag(cfg.name@, code, opt_text(package), reason@),
{
    Diagnostic { code, reason, pin: copy_string(&cfg.name), package, blocking: true }
}

/// The list already has a diagnostic with this code about this package.
pub open spec fn has_diagnostic(ds: Seq<DiagnosticView>, code: DiagnosticCode, package: Option<Seq<char>>) -> bool {
    exists|i: int| 0 <= i < ds.len() && #[trigger] ds[i].code == code && ds[i].package == package
}

/// The list with `d` added unless it already has a diagnostic with the same
/// code about the same package.
pub open spec fn spec_push_diagnostic(ds: Seq<DiagnosticView>, d: DiagnosticView) -> Seq<DiagnosticView> {
    if has_diagnostic(ds, d.code, d.package) {
        ds
    } else {
        ds.push(d)
    }
}

/// Two optional texts are equal.
fn opt_text_eq(a: &Option<String>, b: &Option<String>) -> (r: bool)
    ensures
        r == (opt_text(*a) == opt_text(*b)),
{
    match (a, b) {
        (Some(x), Some(y)) => text_eq(x.as_str(), y.as_str()),
        (None, None) => true,
        _ => false,
    }
}

/// Adds a diagnostic unless one with the same code about the same package
/// is already there.
pub fn push_diagnostic(diagnostics: &mut Vec<Diagnostic>, item: Diagnostic)
    ensures
        diag_views(final(diagnostics)@) == spec_push_diagnostic(diag_views(old(diagnostics)@), item@),
{
    let ghost ds = diag_views(diagnostics@);
    let mut i: usize = 0;
    while i < diagnostics.len()
        invariant
            i <= diagnostics@.len(),
            ds == diag_views(diagnostics@),
            forall|j: int| 0 <= j < i ==> !(#[trigger] ds[j].code == item@.code && ds[j].package == item@.package),
        decreases diagnostics@.len() - i,
    {
        assert(ds[i as int] == diagnostics@[i as int]@);
        if diagnostics[i].code == item.code && opt_text_eq(&diagnostics[i].package, &item.package) {
            assert(ds[i as int].code == item@.code && ds[i as int].package == item@.package);
            assert(has_diagnostic(ds, item@.code, item@.package));
            return;
        }
        i = i + 1;
    }
    diagnostics.push(item);
    assert(diag_views(diagnostics@) =~= ds.push(item@));
}

/// Adding a diagnostic keeps at most one diagnostic per code and package.
pub proof fn lemma_push_diagnostic_unique(ds: Seq<DiagnosticView>, d: DiagnosticView)
    requires
        forall|i: int, j: int| 0 <= i < j < ds.len() ==> !(#[trigger] ds[i].code == #[trigger] ds[j].code && ds[i].package == ds[j].package),
    ensures
        ({
            let r = spec_push_diagnostic(ds, d);
            &&& forall|i: int, j: int| 0 <= i < j < r.len() ==> !(#[trigger] r[i].code == #[trigger] r[j].code && r[i].package == r[j].package)
            &&& has_diagnostic(r, d.code, d.package)
        }),
{
    let r = spec_push_diagnostic(ds, d);
    if !has_diagnostic(ds, d.code, d.package) {
        assert forall|i: int, j: int| 0 <= i < j < r.len() implies !(#[trigger] r[i].code == #[trigger] r[j].code && r[i].package == r[j].package) by {
            if j == ds.len() {
                assert(r[i] == ds[i]);
                assert(r[j] == d);
            } else {
                assert(r[i] == ds[i] && r[j] == ds[j]);
            }
        }
        assert(r[ds.len() as int] == d);
    }
}

/// The revision policy of a pin.
#[derive(Debug)]
pub struct RevisionPolicy {
    pub current: Option<String>,
    pub candidate: Option<String>,
    pub relation: Option<RevisionRelation>,
    pub decision: PolicyDecision,
    pub reason: String,
}

/// The decision and its reason for a revision relation: only a newer
/// candidate is accepted, an equal one keeps the current pin, and anything
/// else blocks.
pub open spec fn spec_policy(relation: Option<RevisionRelation>) -> (PolicyDecision, Seq<char>) {
    match relation {
        Some(RevisionRelation::Newer) => (PolicyDecision::Accept, "candidate is newer"@),
        Some(RevisionRelation::Equal) => (PolicyDecision::Retain, "current pin is acceptable"@),
        Some(RevisionRelation::Older) => (PolicyDecision::Block, "candidate is older"@),
        Some(RevisionRelation::Divergent) => (PolicyDecision::Block, "histories diverge"@),
        Some(RevisionRelation::Unknown) => (PolicyDecision::Block, "revision order is unknown"@),
        None => (PolicyDecision::Block, "current or candidate revision is unavailable"@),
    }
}

/// A pin moves only to a newer candidate, stays when the candidate is its
/// current revision, and is blocked for every other relation, or when the
/// relation is not known.
pub proof fn lemma_policy(relation: Option<RevisionRelation>)
    ensures
        (spec_policy(relation).0 == PolicyDecision::Accept) <==> (relation == Some(RevisionRelation::Newer)),
        (spec_policy(relation).0 == PolicyDecision::Retain) <==> (relation == Some(RevisionRelation::Equal)),
        (spec_policy(relation).0 == PolicyDecision::Block) <==> !(relation == Some(RevisionRelation::Newer)
            || relation == Some(RevisionRelation::Equal)),
{
}

/// Decides the revision policy of a pin.
pub fn revision_policy(current: Option<String>, candidate: Option<String>, relation: Option<RevisionRelation>) -> (r: RevisionPolicy)
    ensures
        opt_text(r.current) == opt_text(current),
        opt_text(r.candidate) == opt_text(candidate),
        r.relation == relation,
        (r.decision, r.reason@) == spec_policy(relation),
{
    let (decision, reason) = match relation {
        Some(RevisionRelation::Newer) => (PolicyDecision::Accept, "candidate is newer"),
        Some(RevisionRelation::Equal) => (PolicyDecision::Retain, "current pin is acceptable"),
        Some(RevisionRelation::Older) => (PolicyDecision::Block, "candidate is older"),
        Some(RevisionRelation::Divergent) => (PolicyDecision::Block, "histories diverge"),
        Some(RevisionRelation::Unknown) => (PolicyDecision::Block, "revision order is unknown"),
        None => (PolicyDecision::Block, "current or candidate revision is unavailable"),
    };
    RevisionPolicy { current, candidate, relation, decision, reason: owned(reason) }
}

/// The diagnostic that a revision relation calls for: older, divergent and
/// unknown orderings each have one.
pub open spec fn relation_diagnostic(relation: Option<RevisionRelation>) -> Option<(DiagnosticCode, Seq<char>)> {
    match relation {
        Some(RevisionRelation::Older) => Some((DiagnosticCode::RevisionOlder, "candidate revision is older than the current pin"@)),
        Some(RevisionRelation::Divergent) => Some((DiagnosticCode::RevisionDivergent, "candidate and current revisions have divergent history"@)),
        Some(RevisionRelation::Unknown) => Some((DiagnosticCode::RevisionUnknown, "candidate revision ordering could not be proven"@)),
        _ => None,
    }
}

/// Adds the diagnostic that a revision relation calls for.
pub fn add_relation_diagnostic(cfg: &PinConfig, relation: Option<RevisionRelation>, diagnostics: &mut Vec<Diagnostic>)
    ensures
        diag_views(final(diagnostics)@) == match relation_diagnostic(relation) {
            Some((code, reason)) => spec_push_diagnostic(diag_views(old(diagnostics)@), diag(cfg.name@, code, None, reason)),
            None => diag_views(old(diagnostics)@),
        },
{
    let item = match relation {
        Some(RevisionRelation::Older) => Some((DiagnosticCode::RevisionOlder, "candidate revision is older than the current pin")),
        Some(RevisionRelation::Divergent) => Some((DiagnosticCode::RevisionDivergent, "candidate and current revisions have divergent history")),
        Some(RevisionRelation::Unknown) => Some((DiagnosticCode::RevisionUnknown, "candidate revision ordering could not be proven")),
        _ => None,
    };
    if let Some((code, reason)) = item {
        push_diagnostic(diagnostics, diagnostic(cfg, code, None, owned(reason)));
    }
}

/// Where a package's evidence comes from.
#[derive(Debug)]
pub struct Provenance {
    pub cache_url: Option<String>,
    pub store_path: Option<String>,
    pub revision: String,
    /// The attribute or consumer target that was evaluated.
    pub target: String,
}

/// The content of a provenance.
pub struct ProvenanceView {
    pub cache_url: Option<Seq<char>>,
    pub store_path: Option<Seq<char>>,
    pub revision: Seq<char>,
    pub target: Seq<char>,
}

/// The evidence for one package at one revision.
#[derive(Debug)]
pub struct PackageEvidence {
    pub package: String,
    pub availability: EvidenceAvailability,
    pub compatibility: Compatibility,
    pub provenance: Provenance,
    pub version: Option<String>,
    pub rejected_by: Vec<String>,
    pub reason: Option<String>,
}

/// The content of a package's evidence.
pub struct EvidenceView {
    pub package: Seq<char>,
    pub availability: EvidenceAvailability,
    pub compatibility: Compatibility,
    pub provenance: ProvenanceView,
    pub version: Option<Seq<char>>,
    pub rejected_by: Seq<Seq<char>>,
    pub reason: Option<Seq<char>>,
}

impl View for PackageEvidence {
    type V = EvidenceView;

    open spec fn view(&self) -> EvidenceView {
        EvidenceView {
            package: self.package@,
            availability: self.availability,
            compatibility: self.compatibility,
            provenance: ProvenanceView {
                cache_url: opt_text(self.provenance.cache_url),
                store_path: opt_text(self.provenance.store_path),
                revision: self.provenance.revision@,
                target: self.provenance.target@,
            },
            version: opt_text(self.version),
            rejected_by: texts(self.rejected_by@),
            reason: opt_text(self.reason),
        }
    }
}

/// A package is incompatible when a version gate rejected it, and of unknown
/// compatibility when it has no store path or its version could not be
/// judged.
pub open spec fn spec_compatibility(r: PackageResultView) -> Compatibility {
    if r.version_rejected_by.len() > 0 {
        Compatibility::Incompatible
    } else if r.store_path is None || r.version_error is Some {
        Compatibility::Unknown
    } else {
        Compatibility::Compatible
    }
}

/// Whether a package's version satisfies its gates.
pub fn compatibility(result: &PackageCheckResult) -> (r: Compatibility)
    ensures
        r == spec_compatibility(result@),
{
    if result.version_rejected_by.len() > 0 {
        Compatibility::Incompatible
    } else if result.store_path.is_none() || result.version_error.is_some() {
        Compatibility::Unknown
    } else {
        Compatibility::Compatible
    }
}

/// The evidence that a package result gives at a revision.
pub open spec fn spec_package_evidence(revision: Seq<char>, r: PackageResultView) -> EvidenceView {
    EvidenceView {
        package: r.package,
        availability: evidence_availability_of(r.availability),
        compatibility: spec_compatibility(r),
        provenance: ProvenanceView {
            cache_url: r.cache,
            store_path: r.store_path,
            revision: revision,
            target: match r.target {
                Some(t) => t,
                None => r.package,
            },
        },
        version: r.version,
        rejected_by: r.version_rejected_by,
        reason: spec_failure(r),
    }
}

/// The evidence that a package result gives at a revision.
pub fn package_evidence(revision: &str, result: &PackageCheckResult) -> (r: PackageEvidence)
    ensures
        r@ == spec_package_evidence(revision@, result@),
{
    let target = match &result.target {
        Some(t) => copy_string(t),
        None => copy_string(&result.package),
    };
    PackageEvidence {
        package: copy_string(&result.package),
        availability: EvidenceAvailability::from(result.availability),
        compatibility: compatibility(result),
        provenance: Provenance {
            cache_url: copy_opt(&result.cache),
            store_path: copy_opt(&result.store_path),
            revision: owned(revision),
            target,
        },
        version: copy_opt(&result.version),
        rejected_by: copy_strings(&result.version_rejected_by),
        reason: result.failure(),
    }
}

/// The diagnostic a required package calls for: incompatible before
/// anything else, then missing or unknown; none for a compatible cached one.
pub open spec fn required_code(r: PackageResultView) -> Option<DiagnosticCode> {
    if spec_compatibility(r) == Compatibility::Incompatible {
        Some(DiagnosticCode::RequiredPackageIncompatible)
    } else {
        match r.availability {
            Availability::Cached => None,
            Availability::Missing => Some(DiagnosticCode::RequiredPackageMissing),
            Availability::Unknown => Some(DiagnosticCode::RequiredPackageUnknown),
        }
    }
}

/// Why a required package blocks: its failure, else its availability.
pub open spec fn required_reason(r: PackageResultView) -> Seq<char> {
    match spec_failure(r) {
        Some(f) => f,
        None => "required package "@ + r.package + " is "@ + availability_word(r.availability),
    }
}

/// Adds the diagnostic that a required package's result calls for.
pub fn add_required_diagnostic(cfg: &PinConfig, result: &PackageCheckResult, diagnostics: &mut Vec<Diagnostic>)
    ensures
        diag_views(final(diagnostics)@) == match required_code(result@) {
            Some(code) => spec_push_diagnostic(
                diag_views(old(diagnostics)@),
                diag(cfg.name@, code, Some(result@.package), required_reason(result@)),
            ),
            None => diag_views(old(diagnostics)@),
        },
{
    let item = if compatibility(result) == Compatibility::Incompatible {
        Some(DiagnosticCode::RequiredPackageIncompatible)
    } else {
        match result.availability {
            Availability::Cached => None,
            Availability::Missing => Some(DiagnosticCode::RequiredPackageMissing),
            Availability::Unknown => Some(DiagnosticCode::RequiredPackageUnknown),
        }
    };
    if let Some(code) = item {
        let reason = match result.failure() {
            Some(f) => f,
            None => join4("required package ", result.package.as_str(), " is ", result.availability.as_str()),
        };
        push_diagnostic(diagnostics, diagnostic(cfg, code, Some(copy_string(&result.package)), reason));
    }
}

/// The diagnostics for wish packages reported as built at `location`, one
/// per comma-separated (trimmed) name.
pub open spec fn wish_built_diagnostics(pin: Seq<char>, location: Seq<char>, pieces: Seq<Seq<char>>) -> Seq<DiagnosticView> {
    pieces.map_values(|p: Seq<char>| diag(
        pin,
        DiagnosticCode::WishPromotionRequired,
        Some(trim(p)),
        "wish package "@ + trim(p) + " is available at "@ + location,
    ))
}

/// The diagnostics that a failed search reports.
pub open spec fn spec_error_diagnostics(pin: Seq<char>, error: Error) -> Seq<DiagnosticView> {
    match error {
        Error::WishPackagesBuilt { location, packages } => wish_built_diagnostics(pin, location@, split_char(packages@, ',')),
        Error::RevisionPolicy { relation, .. } => if relation@ == "divergent history"@ {
            seq![diag(pin, DiagnosticCode::RevisionDivergent, None, relation@)]
        } else {
            seq![diag(pin, DiagnosticCode::RevisionOlder, None, relation@)]
        },
        Error::RevisionOrderUnknown { .. } => seq![diag(pin, DiagnosticCode::RevisionUnknown, None, error.spec_message())],
        _ => seq![diag(pin, DiagnosticCode::SearchFailed, None, error.spec_message())],
    }
}

/// The diagnostics that a failed search reports.
pub fn error_diagnostics(cfg: &PinConfig, error: Error) -> (r: Vec<Diagnostic>)
    ensures
        diag_views(r@) == spec_error_diagnostics(cfg.name@, error),
{
    let ghost e = error;
    let message = error.message();
    match error {
        Error::WishPackagesBuilt { location, packages } => {
            let pieces = split_text(packages.as_str(), ',');
            let ghost ps = texts(pieces@);
            let mut out: Vec<Diagnostic> = Vec::new();
            let mut i: usize = 0;
            while i < pieces.len()
                invariant
                    i <= pieces@.len(),
                    ps == texts(pieces@),
                    diag_views(out@) == wish_built_diagnostics(cfg.name@, location@, ps.subrange(0, i as int)),
                decreases pieces@.len() - i,
            {
                let name = trim_text(pieces[i].as_str());
                let reason = join4("wish package ", name.as_str(), " is available at ", location.as_str());
                let ghost before = diag_views(out@);
                assert(ps[i as int] == pieces@[i as int]@);
                let d = diagnostic(cfg, DiagnosticCode::WishPromotionRequired, Some(name), reason);
                let ghost dv = d@;
                out.push(d);
                assert(diag_views(out@) =~= before.push(dv));
                assert(wish_built_diagnostics(cfg.name@, location@, ps.subrange(0, i + 1))[i as int] == dv);
                assert(diag_views(out@) =~= wish_built_diagnostics(cfg.name@, location@, ps.subrange(0, i + 1)));
                i = i + 1;
            }
            assert(ps.subrange(0, i as int) =~= ps);
            out
        },
        Error::RevisionPolicy { current, candidate, relation } => {
            let code = if text_eq(relation.as_str(), "divergent history") {
                DiagnosticCode::RevisionDivergent
            } else {
                DiagnosticCode::RevisionOlder
            };
            let mut out: Vec<Diagnostic> = Vec::new();
            out.push(diagnostic(cfg, code, None, relation));
            assert(diag_views(out@) =~= spec_error_diagnostics(cfg.name@, e));
            out
        },
        Error::RevisionOrderUnknown { .. } => {
            let mut out: Vec<Diagnostic> = Vec::new();
            out.push(diagnostic(cfg, DiagnosticCode::RevisionUnknown, None, message));
            assert(diag_views(out@) =~= spec_error_diagnostics(cfg.name@, e));
            out
        },
        _ => {
            let mut out: Vec<Diagnostic> = Vec::new();
            out.push(diagnostic(cfg, DiagnosticCode::SearchFailed, None, message));
            assert(diag_views(out@) =~= spec_error_diagnostics(cfg.name@, e));
            out
        },
    }
}

/// The views of a list of package evidence.
pub open spec fn evidence_views(v: Seq<PackageEvidence>) -> Seq<EvidenceView> {
    v.map_values(|e: PackageEvidence| e@)
}

/// What Hydra showed about a wish package.
#[derive(Debug)]
pub struct HydraEvidence {
    pub availability: HydraAvailability,
    pub url: String,
    pub store_path: Option<String>,
    pub reason: Option<String>,
}

/// The evidence gathered for one wish package.
#[derive(Debug)]
pub struct WishEvidence {
    pub package: String,
    pub hydra: HydraEvidence,
    pub current: Option<PackageEvidence>,
    pub candidate: Option<PackageEvidence>,
    pub decision: WishDecision,
    pub reason: Option<DiagnosticCode>,
}

/// The plan for one pin.
#[derive(Debug)]
pub struct PinPlan {
    pub pin: String,
    pub members: Vec<String>,
    pub input: String,
    pub state: PlanState,
    pub revision: RevisionPolicy,
    pub required_packages: Vec<PackageEvidence>,
    pub wishes: Vec<WishEvidence>,
    pub diagnostics: Vec<Diagnostic>,
}

/// The plan for every pin.
#[derive(Debug)]
pub struct CachePinPlan {
    pub schema_version: u32,
    pub state: PlanState,
    pub pins: Vec<PinPlan>,
    /// Every blocking diagnostic of every pin, in order.
    pub fail_before_write_failures: Vec<Diagnostic>,
}

impl CachePinPlan {
    /// Nothing blocks the plan.
    pub fn is_ready(&self) -> (r: bool)
        ensures
            r == (self.state == PlanState::Ready),
    {
        self.state == PlanState::Ready
    }
}

/// The evidence that Hydra's answer gives for a wish package.
pub fn hydra_evidence(result: &HydraBuildResult, url: String) -> (r: HydraEvidence)
    ensures
        r.availability == (if result.error is Some {
            HydraAvailability::Unknown
        } else if result.status == HydraStatus::OnHydra {
            HydraAvailability::Observed
        } else {
            HydraAvailability::NotObserved
        }),
        r.url@ == url@,
        opt_text(r.store_path) == opt_text(result.store_path),
        opt_text(r.reason) == opt_text(result.error),
{
    let availability = if result.error.is_some() {
        HydraAvailability::Unknown
    } else if result.status == HydraStatus::OnHydra {
        HydraAvailability::Observed
    } else {
        HydraAvailability::NotObserved
    };
    HydraEvidence { availability, url, store_path: copy_opt(&result.store_path), reason: copy_opt(&result.error) }
}

/// The first result for a package.
pub open spec fn first_result(rs: Seq<PackageResultView>, package: Seq<char>) -> Option<PackageResultView>
    decreases rs.len(),
{
    if rs.len() == 0 {
        None
    } else if rs[0].package == package {
        Some(rs[0])
    } else {
        first_result(rs.drop_first(), package)
    }
}

/// The evidence for a package at a revision, from the first result for it.
pub open spec fn spec_evidence_for(revision: Option<Seq<char>>, rs: Seq<PackageResultView>, package: Seq<char>) -> Option<EvidenceView> {
    match revision {
        None => None,
        Some(rev) => match first_result(rs, package) {
            Some(r) => Some(spec_package_evidence(rev, r)),
            None => None,
        },
    }
}

/// The view of an optional piece of evidence.
pub open spec fn opt_evidence(o: Option<PackageEvidence>) -> Option<EvidenceView> {
    match o {
        Some(e) => Some(e@),
        None => None,
    }
}

/// Finds the evidence for a package at a revision.
pub fn evidence_for(revision: Option<&str>, results: &Vec<PackageCheckResult>, package: &str) -> (r: Option<PackageEvidence>)
    ensures
        opt_evidence(r) == spec_evidence_for(match revision {
            Some(x) => Some(x@),
            None => None,
        }, result_views(results@), package@),
{
    let rev = match revision {
        Some(x) => x,
        None => {
            return None;
        },
    };
    let ghost rs = result_views(results@);
    let mut i: usize = 0;
    assert(rs.subrange(0, rs.len() as int) =~= rs);
    while i < results.len()
        invariant
            i <= results@.len(),
            rs == result_views(results@),
            revision == Some(rev),
            first_result(rs, package@) == first_result(rs.subrange(i as int, rs.len() as int), package@),
        decreases results@.len() - i,
    {
        let ghost tail = rs.subrange(i as int, rs.len() as int);
        assert(tail[0] == results@[i as int]@);
        assert(tail.drop_first() =~= rs.subrange(i + 1, rs.len() as int));
        if text_eq(results[i].package.as_str(), package) {
            return Some(package_evidence(rev, &results[i]));
        }
        i = i + 1;
    }
    assert(rs.subrange(i as int, rs.len() as int) =~= Seq::<PackageResultView>::empty());
    None
}

/// The evidence shows the package cached.
pub open spec fn shows_cached(e: Option<EvidenceView>) -> bool {
    e matches Some(v) && v.availability == EvidenceAvailability::Cached
}

/// At a known revision, the evidence is missing or inconclusive.
pub open spec fn inconclusive_at(revision_known: bool, e: Option<EvidenceView>) -> bool {
    revision_known && (e is None || e->0.availability == EvidenceAvailability::Unknown)
}

/// What becomes of a wish package: promoted once any source shows it
/// available, blocked while the evidence is inconclusive or there is no
/// current revision, and kept otherwise.
pub open spec fn wish_outcome(
    already_promoted: bool,
    hydra: HydraAvailability,
    current_known: bool,
    current: Option<EvidenceView>,
    candidate_known: bool,
    candidate: Option<EvidenceView>,
) -> (WishDecision, Option<DiagnosticCode>) {
    let observed = already_promoted || hydra == HydraAvailability::Observed || shows_cached(current) || shows_cached(candidate);
    let unknown = hydra == HydraAvailability::Unknown || inconclusive_at(current_known, current) || inconclusive_at(candidate_known, candidate);
    if observed {
        (WishDecision::Promote, Some(DiagnosticCode::WishPromotionRequired))
    } else if unknown || !current_known {
        (WishDecision::Block, Some(DiagnosticCode::WishEvidenceUnknown))
    } else {
        (WishDecision::Keep, None)
    }
}

/// A wish package is promoted exactly when some source shows it available
/// (Hydra observed it, it is cached at the current or at the candidate
/// revision, or its promotion was already asked for); otherwise it blocks
/// while the evidence is inconclusive or no revision is pinned, and is kept
/// only when every source checked shows it missing.
pub proof fn lemma_wish_outcome(
    already_promoted: bool,
    hydra: HydraAvailability,
    current_known: bool,
    current: Option<EvidenceView>,
    candidate_known: bool,
    candidate: Option<EvidenceView>,
)
    ensures
        ({
            let (decision, reason) = wish_outcome(already_promoted, hydra, current_known, current, candidate_known, candidate);
            &&& (decision == WishDecision::Promote) <==> (already_promoted || hydra == HydraAvailability::Observed
                || (current matches Some(e) && e.availability == EvidenceAvailability::Cached)
                || (candidate matches Some(e) && e.availability == EvidenceAvailability::Cached))
            &&& (decision == WishDecision::Promote) <==> (reason == Some(DiagnosticCode::WishPromotionRequired))
            &&& (decision == WishDecision::Block) <==> (reason == Some(DiagnosticCode::WishEvidenceUnknown))
            &&& (decision == WishDecision::Keep) <==> (!already_promoted && current_known && hydra == HydraAvailability::NotObserved
                && (current matches Some(e) && e.availability == EvidenceAvailability::Missing)
                && (candidate_known ==> (candidate matches Some(e) && e.availability == EvidenceAvailability::Missing))
                && (candidate matches Some(e) ==> e.availability != EvidenceAvailability::Cached))
        }),
{
}

/// The message of a wish package's diagnostic.
pub open spec fn wish_message(code: DiagnosticCode, package: Seq<char>) -> Seq<char> {
    if code == DiagnosticCode::WishPromotionRequired {
        "wish package "@ + package + " is now available and must be promoted"@
    } else {
        "wish package "@ + package + " availability is unknown"@
    }
}

/// Weighs the evidence for one wish package, adding the diagnostic its
/// decision calls for.
pub fn wish_entry(
    cfg: &PinConfig,
    package: &str,
    hydra: HydraEvidence,
    current_revision: Option<&str>,
    candidate_revision: Option<&str>,
    current_results: &Vec<PackageCheckResult>,
    candidate_results: &Vec<PackageCheckResult>,
    diagnostics: &mut Vec<Diagnostic>,
) -> (r: WishEvidence)
    ensures
        ({
            let cur = spec_evidence_for(match current_revision { Some(x) => Some(x@), None => None }, result_views(current_results@), package@);
            let cand = spec_evidence_for(match candidate_revision { Some(x) => Some(x@), None => None }, result_views(candidate_results@), package@);
            let outcome = wish_outcome(
                has_diagnostic(diag_views(old(diagnostics)@), DiagnosticCode::WishPromotionRequired, Some(package@)),
                hydra.availability,
                current_revision is Some,
                cur,
                candidate_revision is Some,
                cand,
            );
            &&& r.package@ == package@
            &&& r.hydra == hydra
            &&& opt_evidence(r.current) == cur
            &&& opt_evidence(r.candidate) == cand
            &&& (r.decision, r.reason) == outcome
            &&& diag_views(final(diagnostics)@) == match outcome.1 {
                Some(code) => spec_push_diagnostic(diag_views(old(diagnostics)@), diag(cfg.name@, code, Some(package@), wish_message(code, package@))),
                None => diag_views(old(diagnostics)@),
            }
            &&& (r.decision == WishDecision::Promote) <==> (hydra.availability == HydraAvailability::Observed
                || (cur matches Some(e) && e.availability == EvidenceAvailability::Cached)
                || (cand matches Some(e) && e.availability == EvidenceAvailability::Cached)
                || has_diagnostic(diag_views(old(diagnostics)@), DiagnosticCode::WishPromotionRequired, Some(package@)))
            &&& (r.decision == WishDecision::Promote) <==> (r.reason == Some(DiagnosticCode::WishPromotionRequired))
            &&& r.decision == WishDecision::Keep ==> current_revision is Some && r.reason is None
        }),
{
    let current = evidence_for(current_revision, current_results, package);
    let candidate = evidence_for(candidate_revision, candidate_results, package);
    let ghost ds = diag_views(diagnostics@);
    let mut already = false;
    let mut i: usize = 0;
    while i < diagnostics.len()
        invariant
            i <= diagnostics@.len(),
            ds == diag_views(diagnostics@),
            already == exists|j: int| 0 <= j < i && #[trigger] ds[j].code == DiagnosticCode::WishPromotionRequired
                && ds[j].package == Some(package@),
        decreases diagnostics@.len() - i,
    {
        assert(ds[i as int] == diagnostics@[i as int]@);
        let ghost was = already;
        if diagnostics[i].code == DiagnosticCode::WishPromotionRequired {
            if let Some(p) = &diagnostics[i].package {
                if text_eq(p.as_str(), package) {
                    already = true;
                    assert(ds[i as int].code == DiagnosticCode::WishPromotionRequired && ds[i as int].package == Some(package@));
                }
            }
        }
        proof {
            let hit = ds[i as int].code == DiagnosticCode::WishPromotionRequired && ds[i as int].package == Some(package@);
            assert(already == (was || hit));
            if exists|j: int| 0 <= j < i + 1 && #[trigger] ds[j].code == DiagnosticCode::WishPromotionRequired && ds[j].package == Some(package@) {
                let j = choose|j: int| 0 <= j < i + 1 && #[trigger] ds[j].code == DiagnosticCode::WishPromotionRequired && ds[j].package == Some(package@);
                if j < i {
                    assert(was);
                }
            }
        }
        i = i + 1;
    }
    let cur_cached = match &current {
        Some(e) => e.availability == EvidenceAvailability::Cached,
        None => false,
    };
    let cand_cached = match &candidate {
        Some(e) => e.availability == EvidenceAvailability::Cached,
        None => false,
    };
    let observed = already || hydra.availability == HydraAvailability::Observed || cur_cached || cand_cached;
    let cur_unknown = current_revision.is_some() && match &current {
        Some(e) => e.availability == EvidenceAvailability::Unknown,
        None => true,
    };
    let cand_unknown = candidate_revision.is_some() && match &candidate {
        Some(e) => e.availability == EvidenceAvailability::Unknown,
        None => true,
    };
    let unknown = hydra.availability == HydraAvailability::Unknown || cur_unknown || cand_unknown;
    let (decision, reason) = if observed {
        (WishDecision::Promote, Some(DiagnosticCode::WishPromotionRequired))
    } else if unknown || current_revision.is_none() {
        (WishDecision::Block, Some(DiagnosticCode::WishEvidenceUnknown))
    } else {
        (WishDecision::Keep, None)
    };
    if let Some(code) = reason {
        let message = if code == DiagnosticCode::WishPromotionRequired {
            join3("wish package ", package, " is now available and must be promoted")
        } else {
            join3("wish package ", package, " availability is unknown")
        };
        push_diagnostic(diagnostics, diagnostic(cfg, code, Some(owned(package)), message));
    }
    WishEvidence { package: owned(package), hydra, current, candidate, decision, reason }
}

/// The diagnostics a pin starts with: an unreadable current revision, and
/// a search that found nothing or failed.
pub open spec fn start_diagnostics(pin: Seq<char>, current: Result<Seq<char>, Seq<char>>, target: Result<Option<String>, Error>) -> Seq<DiagnosticView> {
    let first = match current {
        Err(m) => seq![diag(pin, DiagnosticCode::CurrentRevisionUnavailable, None, m)],
        Ok(_) => seq![],
    };
    let second = match target {
        Ok(Some(_)) => seq![],
        Ok(None) => seq![diag(pin, DiagnosticCode::NoCandidate, None, "no revision found with all required packages cached"@)],
        Err(e) => spec_error_diagnostics(pin, e),
    };
    first + second
}

/// Every diagnostic of the list blocks and names the pin.
pub open spec fn owned_by(ds: Seq<DiagnosticView>, pin: Seq<char>) -> bool {
    forall|i: int| 0 <= i < ds.len() ==> (#[trigger] ds[i]).blocking && ds[i].pin == pin
}

/// The diagnostics after the wish entries `es`, in order, each adding the
/// diagnostic its reason calls for.
pub open spec fn wish_diagnostics(ds: Seq<DiagnosticView>, pin: Seq<char>, es: Seq<WishEvidence>) -> Seq<DiagnosticView>
    decreases es.len(),
{
    if es.len() == 0 {
        ds
    } else {
        let prev = wish_diagnostics(ds, pin, es.drop_last());
        let e = es.last();
        match e.reason {
            Some(code) => spec_push_diagnostic(prev, diag(pin, code, Some(e.package@), wish_message(code, e.package@))),
            None => prev,
        }
    }
}

proof fn lemma_wish_diagnostics_has(ds: Seq<DiagnosticView>, pin: Seq<char>, es: Seq<WishEvidence>)
    ensures
        forall|j: int| 0 <= j < es.len() && (#[trigger] es[j]).reason is Some ==> has_diagnostic(
            wish_diagnostics(ds, pin, es),
            es[j].reason->0,
            Some(es[j].package@),
        ),
    decreases es.len(),
{
    if es.len() > 0 {
        let front = es.drop_last();
        lemma_wish_diagnostics_has(ds, pin, front);
        let prev = wish_diagnostics(ds, pin, front);
        let e = es.last();
        assert forall|j: int| 0 <= j < es.len() && (#[trigger] es[j]).reason is Some implies has_diagnostic(
            wish_diagnostics(ds, pin, es),
            es[j].reason->0,
            Some(es[j].package@),
        ) by {
            if let Some(code) = e.reason {
                lemma_has_after_push(prev, diag(pin, code, Some(e.package@), wish_message(code, e.package@)), es[j].reason->0, Some(es[j].package@));
            }
            if j < es.len() - 1 {
                assert(es[j] == front[j]);
            }
        }
    }
}

/// A promotion of the package was asked for before: by a diagnostic
/// already in the list, or by an earlier entry of the batch.
pub open spec fn earlier_promotion(ds: Seq<DiagnosticView>, entries: Seq<WishEvidence>, package: Seq<char>) -> bool {
    has_diagnostic(ds, DiagnosticCode::WishPromotionRequired, Some(package)) || exists|j: int|
        0 <= j < entries.len() && (#[trigger] entries[j]).package@ == package && entries[j].decision == WishDecision::Promote
}

proof fn lemma_has_after_push(ds: Seq<DiagnosticView>, d: DiagnosticView, code: DiagnosticCode, package: Option<Seq<char>>)
    ensures
        has_diagnostic(spec_push_diagnostic(ds, d), code, package) == (has_diagnostic(ds, code, package) || (d.code == code
            && d.package == package)),
{
    if !has_diagnostic(ds, d.code, d.package) {
        let r = ds.push(d);
        if has_diagnostic(ds, code, package) {
            let i = choose|i: int| 0 <= i < ds.len() && #[trigger] ds[i].code == code && ds[i].package == package;
            assert(r[i] == ds[i]);
        }
        if d.code == code && d.package == package {
            assert(r[ds.len() as int] == d);
        }
        if has_diagnostic(r, code, package) {
            let i = choose|i: int| 0 <= i < r.len() && #[trigger] r[i].code == code && r[i].package == package;
            if i < ds.len() {
                assert(r[i] == ds[i]);
            }
        }
    }
}

proof fn lemma_push_owned(ds: Seq<DiagnosticView>, d: DiagnosticView, pin: Seq<char>)
    requires
        owned_by(ds, pin),
        d.blocking,
        d.pin == pin,
    ensures
        owned_by(spec_push_diagnostic(ds, d), pin),
{
    if !has_diagnostic(ds, d.code, d.package) {
        let r = ds.push(d);
        assert forall|i: int| 0 <= i < r.len() implies (#[trigger] r[i]).blocking && r[i].pin == pin by {
            if i < ds.len() {
                assert(r[i] == ds[i]);
            }
        }
    }
}

proof fn lemma_start_owned(pin: Seq<char>, current: Result<Seq<char>, Seq<char>>, target: Result<Option<String>, Error>)
    ensures
        owned_by(start_diagnostics(pin, current, target), pin),
{
    let first = match current {
        Err(m) => seq![diag(pin, DiagnosticCode::CurrentRevisionUnavailable, None, m)],
        Ok(_) => seq![],
    };
    let second = match target {
        Ok(Some(_)) => seq![],
        Ok(None) => seq![diag(pin, DiagnosticCode::NoCandidate, None, "no revision found with all required packages cached"@)],
        Err(e) => spec_error_diagnostics(pin, e),
    };
    assert(owned_by(first, pin));
    assert(owned_by(second, pin));
    let all = first + second;
    assert forall|i: int| 0 <= i < all.len() implies (#[trigger] all[i]).blocking && all[i].pin == pin by {
        if i < first.len() {
            assert(all[i] == first[i]);
        } else {
            assert(all[i] == second[i - first.len()]);
        }
    }
}

proof fn lemma_required_owned(ds: Seq<DiagnosticView>, pin: Seq<char>, rs: Seq<PackageResultView>)
    requires
        owned_by(ds, pin),
    ensures
        owned_by(required_diagnostics(ds, pin, rs), pin),
    decreases rs.len(),
{
    if rs.len() > 0 {
        lemma_required_owned(ds, pin, rs.drop_last());
        if let Some(code) = required_code(rs.last()) {
            lemma_push_owned(required_diagnostics(ds, pin, rs.drop_last()), diag(pin, code, Some(rs.last().package), required_reason(rs.last())), pin);
        }
    }
}

/// When every diagnostic blocks, a plan blocks exactly when it has one.
proof fn lemma_owned_blocking(ds: Seq<DiagnosticView>, pin: Seq<char>)
    requires
        owned_by(ds, pin),
    ensures
        any_blocking(ds) <==> ds.len() > 0,
{
    if ds.len() > 0 {
        assert(ds[0].blocking);
    }
}

/// A pin's plan while its evidence is gathered.
#[derive(Debug)]
pub struct PinDraft {
    pub pin: String,
    pub members: Vec<String>,
    pub input: String,
    pub current: Option<String>,
    pub candidate: Option<String>,
    pub relation: Option<RevisionRelation>,
    pub required_packages: Vec<PackageEvidence>,
    pub wishes: Vec<WishEvidence>,
    pub diagnostics: Vec<Diagnostic>,
}

/// Whether the current and candidate revisions must be compared.
#[derive(Debug, Clone, Copy, PartialEq, Eq, Structural)]
pub enum RelationStep {
    /// One of them is unavailable: no relation.
    Unavailable,
    /// They are the same revision.
    Equal,
    /// The source must be asked how they relate.
    Compare,
}

/// The evidence for required packages at a revision, in order.
pub open spec fn required_evidence(revision: Seq<char>, rs: Seq<PackageResultView>) -> Seq<EvidenceView> {
    rs.map_values(|r: PackageResultView| spec_package_evidence(revision, r))
}

/// The diagnostics after each required package's result was weighed.
pub open spec fn required_diagnostics(ds: Seq<DiagnosticView>, pin: Seq<char>, rs: Seq<PackageResultView>) -> Seq<DiagnosticView>
    decreases rs.len(),
{
    if rs.len() == 0 {
        ds
    } else {
        let before = required_diagnostics(ds, pin, rs.drop_last());
        match required_code(rs.last()) {
            Some(code) => spec_push_diagnostic(before, diag(pin, code, Some(rs.last().package), required_reason(rs.last()))),
            None => before,
        }
    }
}

/// A list of diagnostics holds a blocking one.
pub open spec fn any_blocking(ds: Seq<DiagnosticView>) -> bool {
    exists|i: int| 0 <= i < ds.len() && #[trigger] ds[i].blocking
}

/// Whether any diagnostic of the list blocks.
fn has_blocking(ds: &Vec<Diagnostic>) -> (r: bool)
    ensures
        r == any_blocking(diag_views(ds@)),
{
    let ghost v = diag_views(ds@);
    let mut i: usize = 0;
    while i < ds.len()
        invariant
            i <= ds@.len(),
            v == diag_views(ds@),
            forall|j: int| 0 <= j < i ==> !(#[trigger] v[j]).blocking,
        decreases ds@.len() - i,
    {
        assert(v[i as int] == ds@[i as int]@);
        if ds[i].blocking {
            assert(v[i as int].blocking);
            return true;
        }
        i = i + 1;
    }
    false
}

impl PinDraft {
    /// Starts a pin's plan from its current revision (or why it could not be
    /// read) and the search's outcome.
    pub fn start(cfg: &PinConfig, members: Vec<String>, current: Result<String, String>, target: Result<Option<String>, Error>) -> (r: Self)
        ensures
            r.pin@ == cfg.name@,
            r.input@ == cfg.input_name@,
            texts(r.members@) == texts(members@),
            opt_text(r.current) == match current {
                Ok(c) => Some(c@),
                Err(_) => None,
            },
            opt_text(r.candidate) == match target {
                Ok(Some(c)) => Some(c@),
                _ => None,
            },
            r.relation is None,
            r.required_packages@.len() == 0,
            r.wishes@.len() == 0,
            diag_views(r.diagnostics@) == start_diagnostics(cfg.name@, match current {
                Ok(c) => Ok(c@),
                Err(m) => Err(m@),
            }, target),
            owned_by(diag_views(r.diagnostics@), r.pin@),
    {
        let ghost t = target;
        let ghost c = current;
        let mut diagnostics: Vec<Diagnostic> = Vec::new();
        let current = match current {
            Ok(revision) => Some(revision),
            Err(message) => {
                diagnostics.push(diagnostic(cfg, DiagnosticCode::CurrentRevisionUnavailable, None, message));
                None
            },
        };
        let ghost first = diag_views(diagnostics@);
        let candidate = match target {
            Ok(Some(revision)) => Some(revision),
            Ok(None) => {
                diagnostics.push(diagnostic(cfg, DiagnosticCode::NoCandidate, None, owned("no revision found with all required packages cached")));
                None
            },
            Err(error) => {
                let mut more = error_diagnostics(cfg, error);
                let ghost added = diag_views(more@);
                diagnostics.append(&mut more);
                assert(diag_views(diagnostics@) =~= first + added);
                None
            },
        };
        assert(diag_views(diagnostics@) =~= start_diagnostics(cfg.name@, match c {
            Ok(x) => Ok(x@),
            Err(m) => Err(m@),
        }, t));
        proof {
            lemma_start_owned(cfg.name@, match c {
                Ok(x) => Ok(x@),
                Err(m) => Err(m@),
            }, t);
        }
        PinDraft {
            pin: copy_string(&cfg.name),
            members,
            input: copy_string(&cfg.input_name),
            current,
            candidate,
            relation: None,
            required_packages: Vec::new(),
            wishes: Vec::new(),
            diagnostics,
        }
    }

    /// Whether the current and candidate revisions must be compared.
    pub fn relation_step(&self) -> (r: RelationStep)
        ensures
            r == match (opt_text(self.current), opt_text(self.candidate)) {
                (Some(a), Some(b)) => if a == b { RelationStep::Equal } else { RelationStep::Compare },
                _ => RelationStep::Unavailable,
            },
    {
        match (&self.current, &self.candidate) {
            (Some(a), Some(b)) => if text_eq(a.as_str(), b.as_str()) {
                RelationStep::Equal
            } else {
                RelationStep::Compare
            },
            _ => RelationStep::Unavailable,
        }
    }

    /// Records how the revisions relate (or why the comparison failed) and
    /// the diagnostic the relation calls for.
    pub fn set_relation(&mut self, cfg: &PinConfig, outcome: Result<Option<RevisionRelation>, String>)
        ensures
            final(self).relation == match outcome {
                Ok(r) => r,
                Err(_) => None,
            },
            ({
                let after_outcome = match outcome {
                    Ok(_) => diag_views(old(self).diagnostics@),
                    Err(m) => diag_views(old(self).diagnostics@).push(diag(cfg.name@, DiagnosticCode::SearchFailed, None, m@)),
                };
                diag_views(final(self).diagnostics@) == match relation_diagnostic(final(self).relation) {
                    Some((code, reason)) => spec_push_diagnostic(after_outcome, diag(cfg.name@, code, None, reason)),
                    None => after_outcome,
                }
            }),
            final(self).pin == old(self).pin,
            final(self).members == old(self).members,
            final(self).input == old(self).input,
            final(self).current == old(self).current,
            final(self).candidate == old(self).candidate,
            final(self).required_packages == old(self).required_packages,
            final(self).wishes == old(self).wishes,
            owned_by(diag_views(old(self).diagnostics@), old(self).pin@) && cfg.name@ == old(self).pin@
                ==> owned_by(diag_views(final(self).diagnostics@), final(self).pin@),
    {
        let ghost owned = owned_by(diag_views(self.diagnostics@), self.pin@) && cfg.name@ == self.pin@;
        let relation = match outcome {
            Ok(r) => r,
            Err(message) => {
                let ghost before = diag_views(self.diagnostics@);
                let d = diagnostic(cfg, DiagnosticCode::SearchFailed, None, message);
                let ghost dv = d@;
                self.diagnostics.push(d);
                assert(diag_views(self.diagnostics@) =~= before.push(dv));
                proof {
                    if owned {
                        lemma_push_owned(before, dv, self.pin@);
                        assert(spec_push_diagnostic(before, dv) == before.push(dv) || spec_push_diagnostic(before, dv) == before);
                        assert forall|i: int| 0 <= i < before.push(dv).len() implies (#[trigger] before.push(dv)[i]).blocking
                            && before.push(dv)[i].pin == self.pin@ by {
                            if i < before.len() {
                                assert(before.push(dv)[i] == before[i]);
                            }
                        }
                    }
                }
                None
            },
        };
        self.relation = relation;
        let ghost mid = diag_views(self.diagnostics@);
        add_relation_diagnostic(cfg, relation, &mut self.diagnostics);
        proof {
            if owned {
                if let Some((code, reason)) = relation_diagnostic(relation) {
                    lemma_push_owned(mid, diag(cfg.name@, code, None, reason), self.pin@);
                }
            }
        }
    }

    /// The revision whose evidence is gathered: the candidate, else the
    /// current pin.
    pub fn evidence_revision(&self) -> (r: Option<String>)
        ensures
            opt_text(r) == match opt_text(self.candidate) {
                Some(c) => Some(c),
                None => opt_text(self.current),
            },
    {
        match &self.candidate {
            Some(c) => Some(copy_string(c)),
            None => copy_opt(&self.current),
        }
    }

    /// Weighs the required packages' results at a revision.
    pub fn add_required(&mut self, cfg: &PinConfig, revision: &str, results: &Vec<PackageCheckResult>)
        ensures
            evidence_views(final(self).required_packages@)
                == evidence_views(old(self).required_packages@) + required_evidence(revision@, result_views(results@)),
            diag_views(final(self).diagnostics@)
                == required_diagnostics(diag_views(old(self).diagnostics@), cfg.name@, result_views(results@)),
            final(self).pin == old(self).pin,
            final(self).members == old(self).members,
            final(self).input == old(self).input,
            final(self).current == old(self).current,
            final(self).candidate == old(self).candidate,
            final(self).relation == old(self).relation,
            final(self).wishes == old(self).wishes,
            owned_by(diag_views(old(self).diagnostics@), old(self).pin@) && cfg.name@ == old(self).pin@
                ==> owned_by(diag_views(final(self).diagnostics@), final(self).pin@),
    {
        let ghost rs = result_views(results@);
        let ghost ev0 = evidence_views(self.required_packages@);
        let ghost ds0 = diag_views(self.diagnostics@);
        let mut i: usize = 0;
        while i < results.len()
            invariant
                i <= results@.len(),
                rs == result_views(results@),
                evidence_views(self.required_packages@) == ev0 + required_evidence(revision@, rs.subrange(0, i as int)),
                diag_views(self.diagnostics@) == required_diagnostics(ds0, cfg.name@, rs.subrange(0, i as int)),
                self.pin == old(self).pin,
                self.members == old(self).members,
                self.input == old(self).input,
                self.current == old(self).current,
                self.candidate == old(self).candidate,
                self.relation == old(self).relation,
                self.wishes == old(self).wishes,
            decreases results@.len() - i,
        {
            assert(rs.subrange(0, i + 1).drop_last() =~= rs.subrange(0, i as int));
            assert(rs.subrange(0, i + 1).last() == results@[i as int]@);
            add_required_diagnostic(cfg, &results[i], &mut self.diagnostics);
            let ghost before = evidence_views(self.required_packages@);
            let e = package_evidence(revision, &results[i]);
            let ghost ev = e@;
            self.required_packages.push(e);
            assert(evidence_views(self.required_packages@) =~= before.push(ev));
            assert(required_evidence(revision@, rs.subrange(0, i + 1)) =~= required_evidence(revision@, rs.subrange(0, i as int)).push(ev));
            i = i + 1;
        }
        assert(rs.subrange(0, i as int) =~= rs);
        proof {
            if owned_by(ds0, self.pin@) && cfg.name@ == self.pin@ {
                lemma_required_owned(ds0, cfg.name@, rs);
            }
        }
    }

    /// Weighs every wish package of `cfg` in order: `hydra` holds what Hydra
    /// showed for each (in the same order), and the results are the wish
    /// packages' checks at the current and candidate revisions. A wish is
    /// promoted exactly when its diagnostic asks for promotion, always when
    /// Hydra has built it, and kept only with a known current revision.
    pub fn add_wishes(
        &mut self,
        cfg: &PinConfig,
        hydra: Vec<HydraEvidence>,
        current_results: &Vec<PackageCheckResult>,
        candidate_results: &Vec<PackageCheckResult>,
    )
        requires
            hydra@.len() == cfg.wish_packages@.len(),
        ensures
            final(self).wishes@.len() == old(self).wishes@.len() + cfg.wish_packages@.len(),
            forall|j: int| 0 <= j < old(self).wishes@.len() ==> #[trigger] final(self).wishes@[j] == old(self).wishes@[j],
            forall|j: int| old(self).wishes@.len() <= j < final(self).wishes@.len() ==> {
                let e = #[trigger] final(self).wishes@[j];
                let k = j - old(self).wishes@.len();
                &&& e.package@ == cfg.wish_packages@[k]@
                &&& e.hydra == hydra@[k]
                &&& (e.decision == WishDecision::Promote) <==> (e.reason == Some(DiagnosticCode::WishPromotionRequired))
                &&& (hydra@[k].availability == HydraAvailability::Observed ==> e.decision == WishDecision::Promote)
                &&& (e.decision == WishDecision::Keep ==> old(self).current is Some)
                &&& opt_evidence(e.current) == spec_evidence_for(opt_text(old(self).current), result_views(current_results@), e.package@)
                &&& opt_evidence(e.candidate) == spec_evidence_for(opt_text(old(self).candidate), result_views(candidate_results@), e.package@)
                &&& (e.decision, e.reason) == wish_outcome(
                    earlier_promotion(diag_views(old(self).diagnostics@), final(self).wishes@.subrange(old(self).wishes@.len() as int, j), e.package@),
                    hydra@[k].availability,
                    old(self).current is Some,
                    opt_evidence(e.current),
                    old(self).candidate is Some,
                    opt_evidence(e.candidate),
                )
            },
            cfg.wish_packages@.len() == 0 ==> final(self).diagnostics == old(self).diagnostics,
            diag_views(final(self).diagnostics@) == wish_diagnostics(
                diag_views(old(self).diagnostics@),
                cfg.name@,
                final(self).wishes@.subrange(old(self).wishes@.len() as int, final(self).wishes@.len() as int),
            ),
            forall|j: int| old(self).wishes@.len() <= j < final(self).wishes@.len() && (#[trigger] final(self).wishes@[j]).reason
                is Some ==> has_diagnostic(
                diag_views(final(self).diagnostics@),
                final(self).wishes@[j].reason->0,
                Some(final(self).wishes@[j].package@),
            ),
            owned_by(diag_views(old(self).diagnostics@), old(self).pin@) && cfg.name@ == old(self).pin@
                ==> owned_by(diag_views(final(self).diagnostics@), final(self).pin@),
            final(self).pin == old(self).pin,
            final(self).members == old(self).members,
            final(self).input == old(self).input,
            final(self).current == old(self).current,
            final(self).candidate == old(self).candidate,
            final(self).relation == old(self).relation,
            final(self).required_packages == old(self).required_packages,
    {
        let ghost hs = hydra@;
        let ghost w0 = self.wishes@;
        let ghost owned = owned_by(diag_views(self.diagnostics@), self.pin@) && cfg.name@ == self.pin@;
        let mut hydra = hydra;
        let n = cfg.wish_packages.len();
        let mut i: usize = 0;
        assert(hs.subrange(0, hs.len() as int) =~= hs);
        while i < n
            invariant
                n == cfg.wish_packages@.len(),
                i <= n,
                hs.len() == n,
                hydra@ == hs.subrange(i as int, n as int),
                self.wishes@.len() == w0.len() + i,
                forall|j: int| 0 <= j < w0.len() ==> #[trigger] self.wishes@[j] == w0[j],
                forall|j: int| w0.len() <= j < self.wishes@.len() ==> {
                    let e = #[trigger] self.wishes@[j];
                    let k = j - w0.len();
                    &&& e.package@ == cfg.wish_packages@[k]@
                    &&& e.hydra == hs[k]
                    &&& (e.decision == WishDecision::Promote) <==> (e.reason == Some(DiagnosticCode::WishPromotionRequired))
                    &&& (hs[k].availability == HydraAvailability::Observed ==> e.decision == WishDecision::Promote)
                    &&& (e.decision == WishDecision::Keep ==> old(self).current is Some)
                    &&& opt_evidence(e.current) == spec_evidence_for(opt_text(old(self).current), result_views(current_results@), e.package@)
                    &&& opt_evidence(e.candidate) == spec_evidence_for(opt_text(old(self).candidate), result_views(candidate_results@), e.package@)
                    &&& (e.decision, e.reason) == wish_outcome(
                        earlier_promotion(diag_views(old(self).diagnostics@), self.wishes@.subrange(w0.len() as int, j), e.package@),
                        hs[k].availability,
                        old(self).current is Some,
                        opt_evidence(e.current),
                        old(self).candidate is Some,
                        opt_evidence(e.candidate),
                    )
                },
                forall|p: Seq<char>| #[trigger] has_diagnostic(diag_views(self.diagnostics@), DiagnosticCode::WishPromotionRequired, Some(p))
                    == earlier_promotion(diag_views(old(self).diagnostics@), self.wishes@.subrange(w0.len() as int, self.wishes@.len() as int), p),
                i == 0 ==> self.diagnostics == old(self).diagnostics,
                diag_views(self.diagnostics@) == wish_diagnostics(
                    diag_views(old(self).diagnostics@),
                    cfg.name@,
                    self.wishes@.subrange(w0.len() as int, self.wishes@.len() as int),
                ),
                owned == (owned_by(diag_views(old(self).diagnostics@), old(self).pin@) && cfg.name@ == old(self).pin@),
                owned ==> owned_by(diag_views(self.diagnostics@), self.pin@),
                self.pin == old(self).pin,
                self.members == old(self).members,
                self.input == old(self).input,
                self.current == old(self).current,
                self.candidate == old(self).candidate,
                self.relation == old(self).relation,
                self.required_packages == old(self).required_packages,
            decreases n - i,
        {
            let h = hydra.remove(0);
            assert(h == hs[i as int]);
            assert(hydra@ =~= hs.subrange(i + 1, n as int));
            let current: Option<&str> = match &self.current {
                Some(c) => Some(c.as_str()),
                None => None,
            };
            let candidate: Option<&str> = match &self.candidate {
                Some(c) => Some(c.as_str()),
                None => None,
            };
            let ghost before = diag_views(self.diagnostics@);
            let wish = wish_entry(cfg, cfg.wish_packages[i].as_str(), h, current, candidate, current_results, candidate_results, &mut self.diagnostics);
            proof {
                if owned {
                    if let Some(code) = wish.reason {
                        lemma_push_owned(before, diag(cfg.name@, code, Some(cfg.wish_packages@[i as int]@), wish_message(code, cfg.wish_packages@[i as int]@)), self.pin@);
                    }
                }
            }
            let ghost prev = self.wishes@;
            self.wishes.push(wish);
            proof {
                let pkg = cfg.wish_packages@[i as int]@;
                let sub_prev = prev.subrange(w0.len() as int, prev.len() as int);
                let sub_now = self.wishes@.subrange(w0.len() as int, self.wishes@.len() as int);
                assert(sub_now =~= sub_prev.push(wish));
                assert(sub_now.drop_last() =~= sub_prev);
                assert(sub_now.last() == wish);
                assert forall|j: int| w0.len() <= j < prev.len() implies self.wishes@.subrange(w0.len() as int, j)
                    =~= prev.subrange(w0.len() as int, j) by {}
                assert(self.wishes@.subrange(w0.len() as int, prev.len() as int) =~= sub_prev);
                assert forall|p: Seq<char>| #[trigger] has_diagnostic(diag_views(self.diagnostics@), DiagnosticCode::WishPromotionRequired, Some(p))
                    == earlier_promotion(diag_views(old(self).diagnostics@), sub_now, p) by {
                    if let Some(code) = wish.reason {
                        lemma_has_after_push(before, diag(cfg.name@, code, Some(pkg), wish_message(code, pkg)), DiagnosticCode::WishPromotionRequired, Some(p));
                    }
                    assert(has_diagnostic(before, DiagnosticCode::WishPromotionRequired, Some(p))
                        == earlier_promotion(diag_views(old(self).diagnostics@), sub_prev, p));
                    if earlier_promotion(diag_views(old(self).diagnostics@), sub_now, p) && !has_diagnostic(diag_views(old(self).diagnostics@), DiagnosticCode::WishPromotionRequired, Some(p)) {
                        let j = choose|j: int| 0 <= j < sub_now.len() && (#[trigger] sub_now[j]).package@ == p && sub_now[j].decision == WishDecision::Promote;
                        if j < sub_prev.len() {
                            assert(sub_prev[j] == sub_now[j]);
                        }
                    }
                    if earlier_promotion(diag_views(old(self).diagnostics@), sub_prev, p) && !has_diagnostic(diag_views(old(self).diagnostics@), DiagnosticCode::WishPromotionRequired, Some(p)) {
                        let j = choose|j: int| 0 <= j < sub_prev.len() && (#[trigger] sub_prev[j]).package@ == p && sub_prev[j].decision == WishDecision::Promote;
                        assert(sub_prev[j] == sub_now[j]);
                    }
                    if wish.decision == WishDecision::Promote && pkg == p {
                        assert(sub_now[sub_prev.len() as int] == wish);
                    }
                }
            }
            i = i + 1;
        }
        proof {
            let sub = self.wishes@.subrange(w0.len() as int, self.wishes@.len() as int);
            lemma_wish_diagnostics_has(diag_views(old(self).diagnostics@), cfg.name@, sub);
            assert forall|j: int| w0.len() <= j < self.wishes@.len() && (#[trigger] self.wishes@[j]).reason is Some implies has_diagnostic(
                diag_views(self.diagnostics@),
                self.wishes@[j].reason->0,
                Some(self.wishes@[j].package@),
            ) by {
                assert(sub[j - w0.len()] == self.wishes@[j]);
            }
        }
    }

    /// The finished plan of the pin: blocked exactly when a diagnostic
    /// blocks.
    pub fn finish(self) -> (r: PinPlan)
        ensures
            r.pin == self.pin,
            r.members == self.members,
            r.input == self.input,
            r.required_packages == self.required_packages,
            r.wishes == self.wishes,
            r.diagnostics == self.diagnostics,
            opt_text(r.revision.current) == opt_text(self.current),
            opt_text(r.revision.candidate) == opt_text(self.candidate),
            r.revision.relation == self.relation,
            (r.revision.decision, r.revision.reason@) == spec_policy(self.relation),
            (r.state == PlanState::Blocked) == any_blocking(diag_views(self.diagnostics@)),
            owned_by(diag_views(self.diagnostics@), self.pin@) ==> ((r.state == PlanState::Blocked) <==> r.diagnostics@.len() > 0),
            r.revision.decision == PolicyDecision::Accept ==> r.revision.relation == Some(RevisionRelation::Newer),
    {
        proof {
            if owned_by(diag_views(self.diagnostics@), self.pin@) {
                lemma_owned_blocking(diag_views(self.diagnostics@), self.pin@);
            }
        }
        let blocked = has_blocking(&self.diagnostics);
        let revision = revision_policy(self.current, self.candidate, self.relation);
        PinPlan {
            pin: self.pin,
            members: self.members,
            input: self.input,
            state: if blocked { PlanState::Blocked } else { PlanState::Ready },
            revision,
            required_packages: self.required_packages,
            wishes: self.wishes,
            diagnostics: self.diagnostics,
        }
    }
}

/// The blocking diagnostics of a list, in order.
pub open spec fn blocking_of(ds: Seq<DiagnosticView>) -> Seq<DiagnosticView>
    decreases ds.len(),
{
    if ds.len() == 0 {
        seq![]
    } else if ds.last().blocking {
        blocking_of(ds.drop_last()).push(ds.last())
    } else {
        blocking_of(ds.drop_last())
    }
}

/// The blocking diagnostics of every pin, pin by pin.
pub open spec fn plan_failures(pins: Seq<PinPlan>) -> Seq<DiagnosticView>
    decreases pins.len(),
{
    if pins.len() == 0 {
        seq![]
    } else {
        plan_failures(pins.drop_last()) + blocking_of(diag_views(pins.last().diagnostics@))
    }
}

/// An independent copy of a diagnostic.
fn copy_diagnostic(d: &Diagnostic) -> (r: Diagnostic)
    ensures
        r@ == d@,
{
    Diagnostic { code: d.code, reason: copy_string(&d.reason), pin: copy_string(&d.pin), package: copy_opt(&d.package), blocking: d.blocking }
}

/// Puts the pins' plans together: every blocking diagnostic must be
/// resolved before any write, and the plan is ready only when there is none.
pub fn assemble_plan(pins: Vec<PinPlan>) -> (r: CachePinPlan)
    ensures
        r.schema_version == SCHEMA_VERSION,
        r.pins == pins,
        diag_views(r.fail_before_write_failures@) == plan_failures(pins@),
        (r.state == PlanState::Ready) == (plan_failures(pins@).len() == 0),
{
    let mut failures: Vec<Diagnostic> = Vec::new();
    let mut i: usize = 0;
    while i < pins.len()
        invariant
            i <= pins@.len(),
            diag_views(failures@) == plan_failures(pins@.subrange(0, i as int)),
        decreases pins@.len() - i,
    {
        assert(pins@.subrange(0, i + 1).drop_last() =~= pins@.subrange(0, i as int));
        let ds = &pins[i].diagnostics;
        let ghost dv = diag_views(ds@);
        let ghost start = diag_views(failures@);
        let mut k: usize = 0;
        while k < ds.len()
            invariant
                k <= ds@.len(),
                dv == diag_views(ds@),
                diag_views(failures@) == start + blocking_of(dv.subrange(0, k as int)),
            decreases ds@.len() - k,
        {
            assert(dv.subrange(0, k + 1).drop_last() =~= dv.subrange(0, k as int));
            assert(dv.subrange(0, k + 1).last() == ds@[k as int]@);
            if ds[k].blocking {
                let ghost before = diag_views(failures@);
                let d = copy_diagnostic(&ds[k]);
                failures.push(d);
                assert(diag_views(failures@) =~= before.push(ds@[k as int]@));
            }
            k = k + 1;
        }
        assert(dv.subrange(0, k as int) =~= dv);
        i = i + 1;
    }
    assert(pins@.subrange(0, i as int) =~= pins@);
    let ready = failures.len() == 0;
    CachePinPlan {
        schema_version: SCHEMA_VERSION,
        state: if ready { PlanState::Ready } else { PlanState::Blocked },
        pins,
        fail_before_write_failures: failures,
    }
}

/// A plan's failures are exactly the pins' blocking diagnostics: it has
/// none precisely when no pin has a blocking diagnostic.
pub proof fn lemma_plan_failures_empty(pins: Seq<PinPlan>)
    ensures
        (plan_failures(pins).len() == 0) == (forall|i: int| 0 <= i < pins.len()
            ==> !any_blocking(diag_views(#[trigger] pins[i].diagnostics@))),
    decreases pins.len(),
{
    if pins.len() > 0 {
        lemma_plan_failures_empty(pins.drop_last());
        lemma_blocking_of_empty(diag_views(pins.last().diagnostics@));
        if forall|i: int| 0 <= i < pins.len() ==> !any_blocking(diag_views(#[trigger] pins[i].diagnostics@)) {
            assert forall|i: int| 0 <= i < pins.drop_last().len() implies !any_blocking(diag_views(#[trigger] pins.drop_last()[i].diagnostics@)) by {
                assert(pins.drop_last()[i] == pins[i]);
            }
            assert(!any_blocking(diag_views(pins[pins.len() - 1].diagnostics@)));
        } else {
            let i = choose|i: int| 0 <= i < pins.len() && any_blocking(diag_views(#[trigger] pins[i].diagnostics@));
            if i < pins.len() - 1 {
                assert(pins.drop_last()[i] == pins[i]);
            }
        }
    }
}

proof fn lemma_blocking_of_empty(ds: Seq<DiagnosticView>)
    ensures
        (blocking_of(ds).len() == 0) == !any_blocking(ds),
    decreases ds.len(),
{
    if ds.len() > 0 {
        lemma_blocking_of_empty(ds.drop_last());
        if any_blocking(ds.drop_last()) {
            let i = choose|i: int| 0 <= i < ds.drop_last().len() && #[trigger] ds.drop_last()[i].blocking;
            assert(ds[i].blocking);
        }
        if any_blocking(ds) {
            let i = choose|i: int| 0 <= i < ds.len() && #[trigger] ds[i].blocking;
            if i < ds.len() - 1 {
                assert(ds.drop_last()[i].blocking);
            }
        }
        if ds.last().blocking {
            assert(ds[ds.len() - 1].blocking);
        }
    }
}

} // verus!
