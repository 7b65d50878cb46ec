//! The search for the newest revision at which every required package is
//! cached: Hydra's common evaluations first, then the jobset's evaluation
//! history, then the source branch's recent commits. The search is a state
//! machine: it names the next outside step, and is told what that step found.
use crate::config::{opt_text, ConfigView, PinConfig};
use crate::error::{join2, Error};
use crate::ext::RevisionOrder;
use crate::flakeref::{extract_github_repo, spec_github_repo};
use crate::hydra::{extract_eval_rev, spec_extract_eval_rev, HydraBuildResult, HydraEval, HydraStatus};
use crate::narinfo::{result_views, PackageCheckResult, PackageResultView};
use crate::report::short_rev;
use crate::text::{copy_string, join, join_strings, owned, text_eq, texts};
use crate::textmap::{lookup, store, TextMap};
use vstd::prelude::*;

verus! {

/// Where a target search stands.
#[derive(Debug, Clone, Copy, PartialEq, Eq, Structural)]
pub enum SearchPhase {
    /// Trying the evaluations that built every package Hydra has.
    Hydra,
    /// Trying the jobset's evaluation history.
    Broad,
    /// Trying the source branch's recent commits.
    Scan,
    /// Finished.
    Done,
}

/// What a search waits to be told.
#[derive(Debug, Clone, Copy, PartialEq, Eq, Structural)]
pub enum Awaiting {
    Eval,
    Comparison,
    Verification,
    JobsetEvals,
    Commits,
    /// Told whether a wish package is cached at the found revision.
    WishCache,
    Nothing,
}

/// The next outside step of a search.
#[derive(Debug)]
pub enum SearchAction {
    /// Fetch this Hydra evaluation.
    FetchEval(i64),
    /// Ask how the candidate relates to the current pin on the source branch.
    Compare { current: String, candidate: String },
    /// Verify the required packages at this revision.
    Verify(String),
    /// List the jobset's recent evaluations.
    ListJobsetEvals,
    /// List the recent commits of a branch of a GitHub `owner/repo`.
    ListCommits { repo: String, branch: String },
    /// Check the wish packages in the caches at the revision found.
    CheckWishes(String),
    /// The search is over.
    Finish(Result<Option<String>, Error>),
}

/// What an outside step found.
#[derive(Debug)]
pub enum SearchEvent {
    /// The evaluation, or none when it could not be fetched.
    EvalFetched(Option<HydraEval>),
    Compared(Result<RevisionOrder, Error>),
    /// Whether every required package is accepted at the revision.
    Verified(bool),
    /// The ids of the jobset's recent evaluations.
    JobsetEvals(Vec<i64>),
    Commits(Result<Vec<String>, Error>),
    /// The wish packages' checks at the revision found.
    WishesChecked(Vec<PackageCheckResult>),
}

/// How a search ends.
pub enum Outcome {
    Found(Seq<char>),
    NotFound,
    /// An outside step failed with this error.
    Passed(Error),
    /// A revision missed a package and the search stops at the first miss.
    FailFast(Seq<char>),
    /// The candidate's history diverges from the current pin's.
    Divergent(Seq<char>, Seq<char>),
    /// How the candidate relates to the current pin is unknown.
    OrderUnknown(Seq<char>, Seq<char>),
    /// Wish packages already available there, as the error names them:
    /// where, and which.
    WishesBuilt(Seq<char>, Seq<char>),
}

/// The content of a search step.
pub enum ActionView {
    FetchEval(i64),
    Compare(Seq<char>, Seq<char>),
    Verify(Seq<char>),
    ListJobsetEvals,
    ListCommits(Seq<char>, Seq<char>),
    CheckWishes(Seq<char>),
    Finish(Outcome),
}

/// The search's end result is the outcome.
pub open spec fn finish_matches(r: Result<Option<String>, Error>, o: Outcome) -> bool {
    match o {
        Outcome::Found(x) => r matches Ok(Some(v)) && v@ == x,
        Outcome::NotFound => r matches Ok(None),
        Outcome::Passed(e) => r == Err::<Option<String>, Error>(e),
        Outcome::FailFast(x) => r matches Err(Error::FailFast { rev }) && rev@ == x,
        Outcome::Divergent(c, d) => r matches Err(Error::RevisionPolicy { current, candidate, relation })
            && current@ == c && candidate@ == d && relation@ == "divergent history"@,
        Outcome::OrderUnknown(c, d) => r matches Err(Error::RevisionOrderUnknown { current, candidate })
            && current@ == c && candidate@ == d,
        Outcome::WishesBuilt(l, p) => r matches Err(Error::WishPackagesBuilt { location, packages })
            && location@ == l && packages@ == p,
    }
}

/// The step is the one described.
pub open spec fn action_matches(a: SearchAction, v: ActionView) -> bool {
    match v {
        ActionView::FetchEval(id) => a == SearchAction::FetchEval(id),
        ActionView::Compare(c, d) => a matches SearchAction::Compare { current, candidate } && current@ == c && candidate@ == d,
        ActionView::Verify(r) => a matches SearchAction::Verify(x) && x@ == r,
        ActionView::ListJobsetEvals => a matches SearchAction::ListJobsetEvals,
        ActionView::ListCommits(r, b) => a matches SearchAction::ListCommits { repo, branch } && repo@ == r && branch@ == b,
        ActionView::CheckWishes(r) => a matches SearchAction::CheckWishes(x) && x@ == r,
        ActionView::Finish(o) => a matches SearchAction::Finish(res) && finish_matches(res, o),
    }
}

/// A search in progress.
#[derive(Debug)]
pub struct TargetSearch {
    pub cfg: PinConfig,
    /// The revision currently pinned; no candidate older than it is tried.
    pub current: Option<String>,
    pub phase: SearchPhase,
    pub awaiting: Awaiting,
    /// The evaluations to try (Hydra and broad phases).
    pub evals: Vec<i64>,
    /// The commits to try (scan phase).
    pub commits: Vec<String>,
    /// The position of the evaluation or commit being tried.
    pub next: usize,
    /// Evaluations already tried before the broad phase.
    pub skip: Vec<i64>,
    /// Revisions already tried in the broad phase.
    pub seen: TextMap<()>,
    /// The revision being compared or verified.
    pub pending: Option<String>,
    /// The branch the scan lists: 0 for the configured branch, `k` for the
    /// `k`-th fallback branch.
    pub branch: usize,
}

/// The content of a search in progress.
pub struct SearchView {
    pub cfg: ConfigView,
    pub current: Option<Seq<char>>,
    pub phase: SearchPhase,
    pub awaiting: Awaiting,
    pub evals: Seq<i64>,
    pub commits: Seq<Seq<char>>,
    pub next: int,
    pub skip: Seq<i64>,
    pub seen: Seq<(Seq<char>, ())>,
    pub pending: Option<Seq<char>>,
    pub branch: nat,
}

impl View for TargetSearch {
    type V = SearchView;

    open spec fn view(&self) -> SearchView {
        SearchView {
            cfg: self.cfg@,
            current: opt_text(self.current),
            phase: self.phase,
            awaiting: self.awaiting,
            evals: self.evals@,
            commits: texts(self.commits@),
            next: self.next as int,
            skip: self.skip@,
            seen: self.seen@,
            pending: opt_text(self.pending),
            branch: self.branch as nat,
        }
    }
}

/// How much of the current list is left to try.
pub open spec fn remaining(s: SearchView) -> nat {
    let len = if s.phase == SearchPhase::Scan { s.commits.len() as int } else { s.evals.len() as int };
    if len > s.next { (len - s.next) as nat } else { 0 }
}

/// The search after it finished with an outcome.
pub open spec fn spec_finish(s: SearchView, o: Outcome) -> (SearchView, ActionView) {
    (SearchView { phase: SearchPhase::Done, awaiting: Awaiting::Nothing, ..s }, ActionView::Finish(o))
}

/// The branch that the scan lists: the configured branch, then each
/// fallback branch in order.
pub open spec fn scan_branch(c: ConfigView, k: nat) -> Seq<char> {
    if k == 0 {
        c.branch
    } else {
        c.branch_fallbacks[k - 1]
    }
}

/// Falling back to a branch's commits: only a `github:` source can list
/// them, and another source ends the search without a revision.
pub open spec fn spec_begin_scan(s: SearchView) -> (SearchView, ActionView) {
    match spec_github_repo(s.cfg.flake_ref) {
        None => spec_finish(s, Outcome::NotFound),
        Some(repo) => (SearchView { awaiting: Awaiting::Commits, ..s }, ActionView::ListCommits(repo, scan_branch(s.cfg, s.branch))),
    }
}

/// The next step from the current position: fetch the next evaluation
/// (skipping, in the broad phase, those tried already), consider the next
/// commit, or move to the next phase when the list is exhausted.
pub open spec fn spec_advance(s: SearchView) -> (SearchView, ActionView)
    decreases remaining(s), 1int,
{
    match s.phase {
        SearchPhase::Hydra => if s.next < s.evals.len() {
            (SearchView { awaiting: Awaiting::Eval, ..s }, ActionView::FetchEval(s.evals[s.next]))
        } else {
            (SearchView { awaiting: Awaiting::JobsetEvals, ..s }, ActionView::ListJobsetEvals)
        },
        SearchPhase::Broad => if 0 <= s.next < s.evals.len() {
            if s.skip.contains(s.evals[s.next]) {
                spec_advance(SearchView { next: s.next + 1, ..s })
            } else {
                (SearchView { awaiting: Awaiting::Eval, ..s }, ActionView::FetchEval(s.evals[s.next]))
            }
        } else {
            spec_begin_scan(s)
        },
        SearchPhase::Scan => if 0 <= s.next < s.commits.len() {
            spec_consider(s, s.commits[s.next])
        } else if s.branch < s.cfg.branch_fallbacks.len() {
            spec_begin_scan(SearchView { branch: s.branch + 1, ..s })
        } else {
            spec_finish(s, Outcome::NotFound)
        },
        SearchPhase::Done => spec_finish(s, Outcome::NotFound),
    }
}

/// Considering a candidate revision: in the broad phase a revision is tried
/// once; a candidate equal to the current pin, or any candidate when there is
/// no current pin, is verified at once; any other is first compared.
pub open spec fn spec_consider(s: SearchView, rev: Seq<char>) -> (SearchView, ActionView)
    decreases remaining(s), 0int,
{
    if s.phase == SearchPhase::Broad && lookup(s.seen, rev) is Some {
        if 0 <= s.next < s.evals.len() {
            spec_advance(SearchView { next: s.next + 1, ..s })
        } else {
            spec_finish(s, Outcome::NotFound)
        }
    } else {
        let seen = if s.phase == SearchPhase::Broad { store(s.seen, rev, ()) } else { s.seen };
        let t = SearchView { seen, pending: Some(rev), ..s };
        match s.current {
            None => (SearchView { awaiting: Awaiting::Verification, ..t }, ActionView::Verify(rev)),
            Some(cur) => if cur == rev {
                (SearchView { awaiting: Awaiting::Verification, ..t }, ActionView::Verify(rev))
            } else {
                (SearchView { awaiting: Awaiting::Comparison, ..t }, ActionView::Compare(cur, rev))
            },
        }
    }
}

/// Moving past the entry being tried.
pub open spec fn spec_skip(s: SearchView) -> (SearchView, ActionView) {
    if 0 <= s.next < (if s.phase == SearchPhase::Scan { s.commits.len() as int } else { s.evals.len() as int }) {
        spec_advance(SearchView { next: s.next + 1, pending: None, ..s })
    } else {
        spec_finish(s, Outcome::NotFound)
    }
}

/// The scan's branch is one the configuration names.
pub open spec fn branch_ok(s: SearchView) -> bool {
    s.branch <= s.cfg.branch_fallbacks.len()
}

/// The event is the one the search waits for (and the scan's branch is
/// one the configuration names).
pub open spec fn expected(s: SearchView, e: SearchEvent) -> bool {
    &&& branch_ok(s)
    &&& match e {
        SearchEvent::EvalFetched(_) => s.awaiting == Awaiting::Eval,
        SearchEvent::Compared(_) => s.awaiting == Awaiting::Comparison && s.pending is Some && s.current is Some,
        SearchEvent::Verified(_) => s.awaiting == Awaiting::Verification && s.pending is Some,
        SearchEvent::JobsetEvals(_) => s.awaiting == Awaiting::JobsetEvals,
        SearchEvent::Commits(_) => s.awaiting == Awaiting::Commits,
        SearchEvent::WishesChecked(_) => s.awaiting == Awaiting::WishCache && s.pending is Some,
    }
}

/// What the search does with an event.
pub open spec fn spec_on_event(s: SearchView, e: SearchEvent) -> (SearchView, ActionView) {
    match e {
        SearchEvent::EvalFetched(None) => spec_skip(s),
        SearchEvent::EvalFetched(Some(eval)) => match spec_extract_eval_rev(s.cfg, eval) {
            None => spec_skip(s),
            Some(rev) => spec_consider(s, rev),
        },
        SearchEvent::Compared(Err(err)) => spec_finish(s, Outcome::Passed(err)),
        SearchEvent::Compared(Ok(order)) => match order {
            RevisionOrder::Newer | RevisionOrder::Equal => (
                SearchView { awaiting: Awaiting::Verification, ..s },
                ActionView::Verify(s.pending->0),
            ),
            RevisionOrder::Older => spec_skip(s),
            RevisionOrder::Divergent => spec_finish(s, Outcome::Divergent(s.current->0, s.pending->0)),
            RevisionOrder::Unknown => spec_finish(s, Outcome::OrderUnknown(s.current->0, s.pending->0)),
        },
        SearchEvent::Verified(all_cached) => if all_cached {
            if s.cfg.wish_packages.len() == 0 {
                spec_finish(s, Outcome::Found(s.pending->0))
            } else {
                (SearchView { awaiting: Awaiting::WishCache, ..s }, ActionView::CheckWishes(s.pending->0))
            }
        } else if s.cfg.fail_fast {
            spec_finish(s, Outcome::FailFast(s.pending->0))
        } else {
            spec_skip(s)
        },
        SearchEvent::JobsetEvals(ids) => if ids@.len() == 0 {
            spec_begin_scan(s)
        } else {
            spec_advance(SearchView {
                phase: SearchPhase::Broad,
                evals: ids@,
                next: 0,
                skip: s.evals,
                seen: seq![],
                pending: None,
                ..s
            })
        },
        SearchEvent::Commits(Err(err)) => spec_finish(s, Outcome::Passed(err)),
        SearchEvent::Commits(Ok(cs)) => spec_advance(SearchView {
            phase: SearchPhase::Scan,
            commits: texts(cs@),
            next: 0,
            pending: None,
            ..s
        }),
        SearchEvent::WishesChecked(rs) => {
            let built = cached_packages(result_views(rs@));
            if built.len() == 0 {
                spec_finish(s, Outcome::Found(s.pending->0))
            } else {
                spec_finish(s, Outcome::WishesBuilt("configured cache at rev "@ + short_rev(s.pending->0), join(built, ", "@)))
            }
        },
    }
}

/// Moving on from a position verifies no revision but the current pin
/// without asking first.
proof fn lemma_advance_verifies_current(s: SearchView)
    ensures
        spec_advance(s).1 matches ActionView::Verify(r) ==> (s.current is None || s.current == Some(r)),
        !(spec_advance(s).1 matches ActionView::Finish(Outcome::Found(_))),
        !(spec_advance(s).1 matches ActionView::Finish(Outcome::FailFast(_))),
        spec_advance(s).0.awaiting == Awaiting::Verification ==> spec_advance(s).1 == ActionView::Verify(spec_advance(s).0.pending->0),
        spec_advance(s).0.awaiting != Awaiting::WishCache,
        !(spec_advance(s).1 is CheckWishes),
    decreases remaining(s), 1int,
{
    match s.phase {
        SearchPhase::Broad => {
            if 0 <= s.next < s.evals.len() && s.skip.contains(s.evals[s.next]) {
                lemma_advance_verifies_current(SearchView { next: s.next + 1, ..s });
            }
        },
        SearchPhase::Scan => {
            if 0 <= s.next < s.commits.len() {
                lemma_consider_verifies_current(s, s.commits[s.next]);
            }
        },
        _ => {},
    }
}

/// Considering a candidate verifies it at once only when it is the current
/// pin (or there is none).
proof fn lemma_consider_verifies_current(s: SearchView, rev: Seq<char>)
    ensures
        spec_consider(s, rev).1 matches ActionView::Verify(r) ==> (s.current is None || s.current == Some(r)),
        !(spec_consider(s, rev).1 matches ActionView::Finish(Outcome::Found(_))),
        !(spec_consider(s, rev).1 matches ActionView::Finish(Outcome::FailFast(_))),
        spec_consider(s, rev).0.awaiting == Awaiting::Verification ==> spec_consider(s, rev).1 == ActionView::Verify(spec_consider(s, rev).0.pending->0),
        spec_consider(s, rev).0.awaiting != Awaiting::WishCache,
        !(spec_consider(s, rev).1 is CheckWishes),
    decreases remaining(s), 0int,
{
    if s.phase == SearchPhase::Broad && lookup(s.seen, rev) is Some {
        if 0 <= s.next < s.evals.len() {
            lemma_advance_verifies_current(SearchView { next: s.next + 1, ..s });
        }
    }
}

/// The revision policy of a search: with a current pin, a candidate's
/// packages are verified only when the candidate is the current pin itself,
/// or right after the source reported it newer than or equal to the current
/// pin; an older candidate is skipped, and divergent or unordered history
/// ends the search with an error, so the search never proposes a revision
/// behind the current pin or of unproven order. A revision is found only
/// at the pending candidate: right after its packages were verified when
/// there are no wish packages, and otherwise right after the wish packages
/// were found cached nowhere at it, which is asked only right after its
/// packages were verified. (Stated of the events the search waits for.)
pub proof fn lemma_search_verifies_only_ordered(s: SearchView, e: SearchEvent)
    requires
        s.current is Some,
        expected(s, e),
    ensures
        spec_on_event(s, e).1 matches ActionView::Verify(r) ==> (s.current == Some(r) || (e matches SearchEvent::Compared(Ok(o))
            && (o == RevisionOrder::Newer || o == RevisionOrder::Equal) && s.pending == Some(r))),
        e matches SearchEvent::Compared(Ok(RevisionOrder::Divergent)) ==> (spec_on_event(s, e).1 matches ActionView::Finish(o)
            && o == Outcome::Divergent(s.current->0, s.pending->0)),
        e matches SearchEvent::Compared(Ok(RevisionOrder::Unknown)) ==> (spec_on_event(s, e).1 matches ActionView::Finish(o)
            && o == Outcome::OrderUnknown(s.current->0, s.pending->0)),
        spec_on_event(s, e).1 matches ActionView::Finish(Outcome::Found(r)) ==> s.pending == Some(r) && ((e
            == SearchEvent::Verified(true) && s.cfg.wish_packages.len() == 0) || (e matches SearchEvent::WishesChecked(rs)
            && cached_packages(result_views(rs@)).len() == 0)),
        spec_on_event(s, e).1 matches ActionView::CheckWishes(r) ==> e == SearchEvent::Verified(true) && s.pending == Some(r)
            && spec_on_event(s, e).0.pending == Some(r),
        spec_on_event(s, e).0.awaiting == Awaiting::Verification ==> spec_on_event(s, e).1 == ActionView::Verify(spec_on_event(s, e).0.pending->0),
        spec_on_event(s, e).0.awaiting == Awaiting::WishCache ==> spec_on_event(s, e).1 == ActionView::CheckWishes(spec_on_event(s, e).0.pending->0),
{
    let skipped = SearchView { next: s.next + 1, pending: None, ..s };
    lemma_advance_verifies_current(skipped);
    match e {
        SearchEvent::EvalFetched(Some(eval)) => {
            match spec_extract_eval_rev(s.cfg, eval) {
                Some(rev) => lemma_consider_verifies_current(s, rev),
                None => {},
            }
        },
        SearchEvent::JobsetEvals(ids) => {
            lemma_advance_verifies_current(SearchView {
                phase: SearchPhase::Broad,
                evals: ids@,
                next: 0,
                skip: s.evals,
                seen: seq![],
                pending: None,
                ..s
            });
        },
        SearchEvent::Commits(Ok(cs)) => {
            lemma_advance_verifies_current(SearchView {
                phase: SearchPhase::Scan,
                commits: texts(cs@),
                next: 0,
                pending: None,
                ..s
            });
        },
        _ => {},
    }
}

/// A candidate that the source reports newer than, or equal to, the current
/// pin is verified next, and nothing else is asked first: an equal
/// revision is accepted exactly as a newer one.
pub proof fn lemma_ordered_candidate_is_verified(s: SearchView, o: RevisionOrder)
    requires
        expected(s, SearchEvent::Compared(Ok(o))),
        o == RevisionOrder::Newer || o == RevisionOrder::Equal,
    ensures
        spec_on_event(s, SearchEvent::Compared(Ok(o))).1 == ActionView::Verify(s.pending->0),
        spec_on_event(s, SearchEvent::Compared(Ok(o))).0.awaiting == Awaiting::Verification,
        spec_on_event(s, SearchEvent::Compared(Ok(o))).0.pending == s.pending,
        spec_on_event(s, SearchEvent::Compared(Ok(RevisionOrder::Newer)))
            == spec_on_event(s, SearchEvent::Compared(Ok(RevisionOrder::Equal))),
{
}

/// How each report ends or continues the search: a failed comparison or
/// commit listing ends it with that error; a revision whose packages are all
/// accepted is found (after the wish packages are checked there, when there
/// are any); a miss ends the search under fail-fast and otherwise moves on;
/// a wish package cached at the found revision refuses it; an empty jobset
/// history goes to the commit scan.
pub proof fn lemma_event_outcomes(s: SearchView, e: SearchEvent)
    requires
        expected(s, e),
    ensures
        e matches SearchEvent::Compared(Err(err)) ==> spec_on_event(s, e).1 == ActionView::Finish(Outcome::Passed(err)),
        e matches SearchEvent::Commits(Err(err)) ==> spec_on_event(s, e).1 == ActionView::Finish(Outcome::Passed(err)),
        e == SearchEvent::Verified(true) && s.cfg.wish_packages.len() == 0 ==> spec_on_event(s, e).1 == ActionView::Finish(
            Outcome::Found(s.pending->0),
        ),
        e == SearchEvent::Verified(true) && s.cfg.wish_packages.len() > 0 ==> spec_on_event(s, e).1 == ActionView::CheckWishes(
            s.pending->0,
        ),
        e == SearchEvent::Verified(false) && s.cfg.fail_fast ==> spec_on_event(s, e).1 == ActionView::Finish(
            Outcome::FailFast(s.pending->0),
        ),
        e == SearchEvent::Verified(false) && !s.cfg.fail_fast ==> !(spec_on_event(s, e).1 matches ActionView::Finish(Outcome::FailFast(_)))
            && !(spec_on_event(s, e).1 matches ActionView::Finish(Outcome::Found(_))),
        e matches SearchEvent::WishesChecked(rs) ==> (spec_on_event(s, e).1 == ActionView::Finish(Outcome::Found(s.pending->0))
            <==> cached_packages(result_views(rs@)).len() == 0),
        match e {
            SearchEvent::WishesChecked(rs) => cached_packages(result_views(rs@)).len() > 0 ==> (spec_on_event(s, e).1
                matches ActionView::Finish(Outcome::WishesBuilt(_, packages)) && packages == join(cached_packages(result_views(rs@)), ", "@)),
            _ => true,
        },
        e matches SearchEvent::JobsetEvals(ids) && ids@.len() == 0 ==> (spec_on_event(s, e).1 is ListCommits
            || spec_on_event(s, e).1 == ActionView::Finish(Outcome::NotFound)),
{
    let skipped = SearchView { next: s.next + 1, pending: None, ..s };
    lemma_advance_verifies_current(skipped);
}

/// A candidate not tried before is verified at once when there is no
/// current pin or it is the current pin itself, and otherwise compared with
/// the current pin first; in the broad phase a revision already tried is
/// never tried again. After the jobset's history is listed, the broad phase
/// starts over it, keeping the evaluations already tried aside.
pub proof fn lemma_consider_outcomes(s: SearchView, rev: Seq<char>)
    ensures
        !(s.phase == SearchPhase::Broad && lookup(s.seen, rev) is Some) ==> {
            &&& (s.current is None || s.current == Some(rev)) ==> spec_consider(s, rev).1 == ActionView::Verify(rev)
            &&& (s.current matches Some(c) && c != rev) ==> spec_consider(s, rev).1 == ActionView::Compare(s.current->0, rev)
            &&& spec_consider(s, rev).0.pending == Some(rev)
        },
        s.phase == SearchPhase::Broad && lookup(s.seen, rev) is Some ==> !(spec_consider(s, rev).1 == ActionView::Verify(rev))
            || (s.current is None || s.current == Some(rev)),
        s.phase == SearchPhase::Broad && lookup(s.seen, rev) is None ==> lookup(spec_consider(s, rev).0.seen, rev) is Some,
{
    if s.phase == SearchPhase::Broad && lookup(s.seen, rev) is Some {
        if 0 <= s.next < s.evals.len() {
            lemma_advance_verifies_current(SearchView { next: s.next + 1, ..s });
        }
    } else if s.phase == SearchPhase::Broad {
        crate::textmap::lemma_store_contains(s.seen, rev, ());
        lemma_key_found(store(s.seen, rev, ()), rev);
    }
}

proof fn lemma_key_found(m: Seq<(Seq<char>, ())>, k: Seq<char>)
    requires
        crate::textmap::has_key(m, k),
    ensures
        lookup(m, k) is Some,
    decreases m.len(),
{
    if m.last().0 != k {
        let j = choose|j: int| 0 <= j < m.len() && #[trigger] m[j].0 == k;
        assert(m.drop_last()[j].0 == k);
        lemma_key_found(m.drop_last(), k);
    }
}

/// After the jobset's history is listed, the search turns to it (skipping
/// the evaluations already tried) or, when it is empty, to the commit scan.
pub proof fn lemma_history_listed(s: SearchView, ids: Vec<i64>)
    requires
        expected(s, SearchEvent::JobsetEvals(ids)),
    ensures
        ids@.len() > 0 ==> {
            let t = spec_on_event(s, SearchEvent::JobsetEvals(ids)).0;
            &&& (t.phase == SearchPhase::Broad && t.skip == s.evals && t.evals == ids@) || t.phase == SearchPhase::Scan
                || t.phase == SearchPhase::Done
        },
        ids@.len() > 0 ==> (spec_on_event(s, SearchEvent::JobsetEvals(ids)).1 matches ActionView::FetchEval(id) ==> !s.evals.contains(id)
            && ids@.contains(id)),
{
    if ids@.len() > 0 {
        let b = SearchView { phase: SearchPhase::Broad, evals: ids@, next: 0, skip: s.evals, seen: seq![], pending: None, ..s };
        lemma_advance_order(b);
        lemma_advance_fetches_listed(b);
    }
}

proof fn lemma_advance_fetches_listed(s: SearchView)
    requires
        s.phase == SearchPhase::Broad,
        0 <= s.next,
    ensures
        spec_advance(s).1 matches ActionView::FetchEval(id) ==> s.evals.subrange(s.next, s.evals.len() as int).contains(id),
        spec_advance(s).0.phase == SearchPhase::Broad ==> spec_advance(s).0.skip == s.skip && spec_advance(s).0.evals == s.evals,
        spec_advance(s).0.phase == SearchPhase::Broad || spec_advance(s).0.phase == SearchPhase::Scan
            || spec_advance(s).0.phase == SearchPhase::Done,
    decreases remaining(s),
{
    if 0 <= s.next < s.evals.len() {
        if s.skip.contains(s.evals[s.next]) {
            let t = SearchView { next: s.next + 1, ..s };
            lemma_advance_fetches_listed(t);
            if let ActionView::FetchEval(id) = spec_advance(s).1 {
                let k = choose|k: int| 0 <= k < t.evals.subrange(t.next, t.evals.len() as int).len()
                    && t.evals.subrange(t.next, t.evals.len() as int)[k] == id;
                assert(s.evals.subrange(s.next, s.evals.len() as int)[k + 1] == id);
            }
        } else {
            assert(s.evals.subrange(s.next, s.evals.len() as int)[0] == s.evals[s.next]);
        }
    }
}

/// Moving on: the Hydra phase fetches its evaluations in order and then
/// lists the jobset's history; the broad phase never fetches an evaluation
/// already tried; the scan considers its commits in order and, once they
/// are exhausted, lists the next fallback branch, and ends without a
/// revision after the last.
pub proof fn lemma_advance_order(s: SearchView)
    ensures
        s.phase == SearchPhase::Hydra && 0 <= s.next < s.evals.len() ==> spec_advance(s).1 == ActionView::FetchEval(s.evals[s.next]),
        s.phase == SearchPhase::Hydra && !(s.next < s.evals.len()) ==> spec_advance(s).1 == ActionView::ListJobsetEvals,
        s.phase == SearchPhase::Broad ==> (spec_advance(s).1 matches ActionView::FetchEval(id) ==> !s.skip.contains(id)),
        s.phase == SearchPhase::Scan && !(0 <= s.next < s.commits.len()) && s.branch < s.cfg.branch_fallbacks.len()
            && spec_github_repo(s.cfg.flake_ref) is Some ==> spec_advance(s).1 == ActionView::ListCommits(
            spec_github_repo(s.cfg.flake_ref)->0,
            s.cfg.branch_fallbacks[s.branch as int],
        ),
        s.phase == SearchPhase::Scan && !(0 <= s.next < s.commits.len()) && s.branch >= s.cfg.branch_fallbacks.len()
            ==> spec_advance(s).1 == ActionView::Finish(Outcome::NotFound),
    decreases remaining(s),
{
    if s.phase == SearchPhase::Broad && 0 <= s.next < s.evals.len() && s.skip.contains(s.evals[s.next]) {
        lemma_advance_order(SearchView { next: s.next + 1, ..s });
    }
}

/// The search after the first `n` of the events.
pub open spec fn run_state(s: SearchView, es: Seq<SearchEvent>, n: nat) -> SearchView
    decreases n,
{
    if n == 0 || n > es.len() {
        s
    } else {
        spec_on_event(run_state(s, es, (n - 1) as nat), es[n - 1]).0
    }
}

/// The step the search asks for after the `n`-th event.
pub open spec fn run_action(s: SearchView, es: Seq<SearchEvent>, n: nat) -> ActionView {
    spec_on_event(run_state(s, es, (n - 1) as nat), es[n - 1]).1
}

proof fn lemma_run_keeps_settings(s: SearchView, es: Seq<SearchEvent>, n: nat)
    ensures
        run_state(s, es, n).current == s.current,
        run_state(s, es, n).cfg == s.cfg,
    decreases n,
{
    if n > 0 && n <= es.len() {
        lemma_run_keeps_settings(s, es, (n - 1) as nat);
        lemma_on_event_keeps_settings(run_state(s, es, (n - 1) as nat), es[n - 1]);
    }
}

/// The verification of a revision was allowed: it is the current pin, or
/// the event before the request reported it newer than or equal to the
/// current pin while it was the pending candidate.
pub open spec fn verify_allowed(s: SearchView, es: Seq<SearchEvent>, k: int, r: Seq<char>) -> bool {
    s.current == Some(r) || (k >= 1 && (es[k - 1] matches SearchEvent::Compared(Ok(o)) && (o == RevisionOrder::Newer
        || o == RevisionOrder::Equal)) && run_state(s, es, (k - 1) as nat).pending == Some(r))
}

proof fn lemma_verify_request(s: SearchView, es: Seq<SearchEvent>, k: int)
    requires
        s.current is Some,
        s.awaiting != Awaiting::Verification,
        0 <= k < es.len(),
        forall|i: int| 0 <= i < es.len() ==> expected(#[trigger] run_state(s, es, i as nat), es[i]),
        es[k] == SearchEvent::Verified(true),
    ensures
        k >= 1,
        run_action(s, es, k as nat) == ActionView::Verify(run_state(s, es, k as nat).pending->0),
        verify_allowed(s, es, k, run_state(s, es, k as nat).pending->0),
{
    assert(expected(run_state(s, es, k as nat), es[k]));
    if k == 0 {
        assert(run_state(s, es, 0) == s);
    } else {
        let before = run_state(s, es, (k - 1) as nat);
        assert(expected(run_state(s, es, (k - 1) as nat), es[k - 1]));
        lemma_run_keeps_settings(s, es, (k - 1) as nat);
        lemma_search_verifies_only_ordered(before, es[k - 1]);
    }
}

/// Over a whole search, from a start that waits neither for a verification
/// nor for the wish packages' check: when it ends with a found revision,
/// its packages were all accepted at it, right after a request to verify it
/// that was allowed (it is the current pin, or the source had just reported
/// it newer than or equal to the current pin); and when there are wish
/// packages, they were then checked at it and found cached nowhere.
pub proof fn lemma_search_run_finds_only_verified(s: SearchView, es: Seq<SearchEvent>)
    requires
        s.current is Some,
        s.awaiting != Awaiting::Verification,
        s.awaiting != Awaiting::WishCache,
        es.len() > 0,
        forall|i: int| 0 <= i < es.len() ==> expected(#[trigger] run_state(s, es, i as nat), es[i]),
    ensures
        run_action(s, es, es.len()) matches ActionView::Finish(Outcome::Found(r)) ==> {
            let n = es.len() as int;
            &&& s.cfg.wish_packages.len() == 0 ==> {
                &&& es[n - 1] == SearchEvent::Verified(true)
                &&& run_action(s, es, (n - 1) as nat) == ActionView::Verify(r)
                &&& verify_allowed(s, es, n - 1, r)
            }
            &&& s.cfg.wish_packages.len() > 0 ==> {
                &&& n >= 2
                &&& es[n - 1] matches SearchEvent::WishesChecked(rs) && cached_packages(result_views(rs@)).len() == 0
                &&& run_action(s, es, (n - 1) as nat) == ActionView::CheckWishes(r)
                &&& es[n - 2] == SearchEvent::Verified(true)
                &&& run_action(s, es, (n - 2) as nat) == ActionView::Verify(r)
                &&& verify_allowed(s, es, n - 2, r)
            }
        },
{
    let n = es.len() as int;
    let last = run_state(s, es, (n - 1) as nat);
    assert(expected(run_state(s, es, (n - 1) as nat), es[n - 1]));
    if run_action(s, es, n as nat) matches ActionView::Finish(Outcome::Found(r)) {
        lemma_run_keeps_settings(s, es, (n - 1) as nat);
        lemma_search_verifies_only_ordered(last, es[n - 1]);
        if es[n - 1] == SearchEvent::Verified(true) {
            lemma_verify_request(s, es, n - 1);
        } else {
            assert(last.awaiting == Awaiting::WishCache);
            if n == 1 {
                assert(run_state(s, es, 0) == s);
            } else {
                let before = run_state(s, es, (n - 2) as nat);
                assert(expected(run_state(s, es, (n - 2) as nat), es[n - 2]));
                lemma_run_keeps_settings(s, es, (n - 2) as nat);
                lemma_search_verifies_only_ordered(before, es[n - 2]);
                assert(last == spec_on_event(before, es[n - 2]).0);
                lemma_verify_request(s, es, n - 2);
            }
        }
    }
}

proof fn lemma_on_event_keeps_settings(s: SearchView, e: SearchEvent)
    ensures
        spec_on_event(s, e).0.current == s.current,
        spec_on_event(s, e).0.cfg == s.cfg,
{
    let skipped = SearchView { next: s.next + 1, pending: None, ..s };
    lemma_advance_keeps_settings(skipped);
    match e {
        SearchEvent::EvalFetched(Some(eval)) => {
            match spec_extract_eval_rev(s.cfg, eval) {
                Some(rev) => lemma_consider_keeps_settings(s, rev),
                None => {},
            }
        },
        SearchEvent::JobsetEvals(ids) => {
            lemma_advance_keeps_settings(SearchView {
                phase: SearchPhase::Broad,
                evals: ids@,
                next: 0,
                skip: s.evals,
                seen: seq![],
                pending: None,
                ..s
            });
        },
        SearchEvent::Commits(Ok(cs)) => {
            lemma_advance_keeps_settings(SearchView {
                phase: SearchPhase::Scan,
                commits: texts(cs@),
                next: 0,
                pending: None,
                ..s
            });
        },
        _ => {},
    }
}

proof fn lemma_advance_keeps_settings(s: SearchView)
    ensures
        spec_advance(s).0.current == s.current,
        spec_advance(s).0.cfg == s.cfg,
    decreases remaining(s), 1int,
{
    match s.phase {
        SearchPhase::Broad => {
            if 0 <= s.next < s.evals.len() && s.skip.contains(s.evals[s.next]) {
                lemma_advance_keeps_settings(SearchView { next: s.next + 1, ..s });
            }
        },
        SearchPhase::Scan => {
            if 0 <= s.next < s.commits.len() {
                lemma_consider_keeps_settings(s, s.commits[s.next]);
            }
        },
        _ => {},
    }
}

proof fn lemma_consider_keeps_settings(s: SearchView, rev: Seq<char>)
    ensures
        spec_consider(s, rev).0.current == s.current,
        spec_consider(s, rev).0.cfg == s.cfg,
    decreases remaining(s), 0int,
{
    if s.phase == SearchPhase::Broad && lookup(s.seen, rev) is Some {
        if 0 <= s.next < s.evals.len() {
            lemma_advance_keeps_settings(SearchView { next: s.next + 1, ..s });
        }
    }
}

impl TargetSearch {
    /// Ends the search.
    fn finish_with(&mut self, r: Result<Option<String>, Error>) -> (a: SearchAction)
        ensures
            final(self)@ == (SearchView { phase: SearchPhase::Done, awaiting: Awaiting::Nothing, ..old(self)@ }),
            a == SearchAction::Finish(r),
    {
        self.phase = SearchPhase::Done;
        self.awaiting = Awaiting::Nothing;
        SearchAction::Finish(r)
    }

    fn begin_scan(&mut self) -> (a: SearchAction)
        requires
            branch_ok(old(self)@),
        ensures
            final(self)@ == spec_begin_scan(old(self)@).0,
            action_matches(a, spec_begin_scan(old(self)@).1),
            branch_ok(final(self)@),
    {
        match extract_github_repo(self.cfg.flake_ref.as_str()) {
            None => self.finish_with(Ok(None)),
            Some(repo) => {
                self.awaiting = Awaiting::Commits;
                let branch = if self.branch == 0 {
                    copy_string(&self.cfg.branch)
                } else {
                    copy_string(&self.cfg.branch_fallbacks[self.branch - 1])
                };
                SearchAction::ListCommits { repo, branch }
            },
        }
    }

    fn advance(&mut self) -> (a: SearchAction)
        requires
            branch_ok(old(self)@),
        ensures
            final(self)@ == spec_advance(old(self)@).0,
            action_matches(a, spec_advance(old(self)@).1),
            branch_ok(final(self)@),
        decreases remaining(old(self)@), 1int,
    {
        loop
            invariant
                spec_advance(self@) == spec_advance(old(self)@),
                remaining(self@) <= remaining(old(self)@),
                branch_ok(self@),
            decreases remaining(self@),
        {
            match self.phase {
                SearchPhase::Hydra => {
                    if self.next < self.evals.len() {
                        self.awaiting = Awaiting::Eval;
                        return SearchAction::FetchEval(self.evals[self.next]);
                    }
                    self.awaiting = Awaiting::JobsetEvals;
                    return SearchAction::ListJobsetEvals;
                },
                SearchPhase::Broad => {
                    if self.next < self.evals.len() {
                        let id = self.evals[self.next];
                        let mut skipped = false;
                        let mut k: usize = 0;
                        while k < self.skip.len()
                            invariant
                                k <= self.skip@.len(),
                                skipped == exists|j: int| 0 <= j < k && self.skip@[j] == id,
                            decreases self.skip@.len() - k,
                        {
                            if self.skip[k] == id {
                                skipped = true;
                            }
                            k = k + 1;
                        }
                        if skipped {
                            self.next = self.next + 1;
                            continue;
                        }
                        self.awaiting = Awaiting::Eval;
                        return SearchAction::FetchEval(id);
                    }
                    return self.begin_scan();
                },
                SearchPhase::Scan => {
                    if self.next < self.commits.len() {
                        let rev = copy_string(&self.commits[self.next]);
                        assert(rev@ == self@.commits[self@.next]);
                        return self.consider(rev);
                    }
                    if self.branch < self.cfg.branch_fallbacks.len() {
                        self.branch = self.branch + 1;
                        return self.begin_scan();
                    }
                    return self.finish_with(Ok(None));
                },
                SearchPhase::Done => {
                    return self.finish_with(Ok(None));
                },
            }
        }
    }

    fn consider(&mut self, rev: String) -> (a: SearchAction)
        requires
            branch_ok(old(self)@),
        ensures
            final(self)@ == spec_consider(old(self)@, rev@).0,
            action_matches(a, spec_consider(old(self)@, rev@).1),
            branch_ok(final(self)@),
        decreases remaining(old(self)@), 0int,
    {
        if self.phase == SearchPhase::Broad && self.seen.get(rev.as_str()).is_some() {
            if self.next < self.evals.len() {
                self.next = self.next + 1;
                return self.advance();
            }
            return self.finish_with(Ok(None));
        }
        if self.phase == SearchPhase::Broad {
            self.seen.insert(copy_string(&rev), ());
        }
        self.pending = Some(copy_string(&rev));
        match &self.current {
            None => {
                self.awaiting = Awaiting::Verification;
                SearchAction::Verify(rev)
            },
            Some(cur) => {
                if text_eq(cur.as_str(), rev.as_str()) {
                    self.awaiting = Awaiting::Verification;
                    SearchAction::Verify(rev)
                } else {
                    let current = copy_string(cur);
                    self.awaiting = Awaiting::Comparison;
                    SearchAction::Compare { current, candidate: rev }
                }
            },
        }
    }

    fn skip_entry(&mut self) -> (a: SearchAction)
        requires
            branch_ok(old(self)@),
        ensures
            final(self)@ == spec_skip(old(self)@).0,
            action_matches(a, spec_skip(old(self)@).1),
            branch_ok(final(self)@),
    {
        let len = if self.phase == SearchPhase::Scan { self.commits.len() } else { self.evals.len() };
        if self.next < len {
            self.next = self.next + 1;
            self.pending = None;
            self.advance()
        } else {
            self.finish_with(Ok(None))
        }
    }

    /// Takes what the last outside step found and names the next one.
    pub fn on_event(&mut self, event: SearchEvent) -> (a: SearchAction)
        requires
            expected(old(self)@, event),
        ensures
            final(self)@ == spec_on_event(old(self)@, event).0,
            action_matches(a, spec_on_event(old(self)@, event).1),
            branch_ok(final(self)@),
            (event matches SearchEvent::Compared(Ok(o)) && (o == RevisionOrder::Newer || o == RevisionOrder::Equal)) ==> (a matches SearchAction::Verify(x)
                && old(self)@.pending == Some(x@) && final(self)@.awaiting == Awaiting::Verification),
    {
        match event {
            SearchEvent::EvalFetched(None) => self.skip_entry(),
            SearchEvent::EvalFetched(Some(eval)) => match extract_eval_rev(&self.cfg, &eval) {
                None => self.skip_entry(),
                Some(rev) => self.consider(rev),
            },
            SearchEvent::Compared(Err(err)) => self.finish_with(Err(err)),
            SearchEvent::Compared(Ok(order)) => {
                let candidate = match &self.pending {
                    Some(p) => copy_string(p),
                    None => String::new(),
                };
                let current = match &self.current {
                    Some(c) => copy_string(c),
                    None => String::new(),
                };
                match order {
                    RevisionOrder::Newer | RevisionOrder::Equal => {
                        self.awaiting = Awaiting::Verification;
                        SearchAction::Verify(candidate)
                    },
                    RevisionOrder::Older => self.skip_entry(),
                    RevisionOrder::Divergent => self.finish_with(Err(Error::RevisionPolicy {
                        current,
                        candidate,
                        relation: owned("divergent history"),
                    })),
                    RevisionOrder::Unknown => self.finish_with(Err(Error::RevisionOrderUnknown { current, candidate })),
                }
            },
            SearchEvent::Verified(all_cached) => {
                let rev = match &self.pending {
                    Some(p) => copy_string(p),
                    None => String::new(),
                };
                if all_cached {
                    if self.cfg.wish_packages.len() == 0 {
                        self.finish_with(Ok(Some(rev)))
                    } else {
                        self.awaiting = Awaiting::WishCache;
                        SearchAction::CheckWishes(rev)
                    }
                } else if self.cfg.fail_fast {
                    self.finish_with(Err(Error::FailFast { rev }))
                } else {
                    self.skip_entry()
                }
            },
            SearchEvent::JobsetEvals(ids) => {
                if ids.len() == 0 {
                    self.begin_scan()
                } else {
                    let mut tried: Vec<i64> = Vec::new();
                    std::mem::swap(&mut tried, &mut self.evals);
                    self.skip = tried;
                    self.evals = ids;
                    self.phase = SearchPhase::Broad;
                    self.next = 0;
                    self.seen = TextMap::new();
                    self.pending = None;
                    self.advance()
                }
            },
            SearchEvent::Commits(Err(err)) => self.finish_with(Err(err)),
            SearchEvent::Commits(Ok(cs)) => {
                self.commits = cs;
                self.phase = SearchPhase::Scan;
                self.next = 0;
                self.pending = None;
                self.advance()
            },
            SearchEvent::WishesChecked(rs) => {
                let rev = match &self.pending {
                    Some(p) => copy_string(p),
                    None => String::new(),
                };
                match wishes_cached_at(rev.as_str(), &rs) {
                    Ok(()) => self.finish_with(Ok(Some(rev))),
                    Err(e) => self.finish_with(Err(e)),
                }
            },
        }
    }
}

/// Every list holds the evaluation.
pub open spec fn in_all(ls: Seq<Seq<i64>>, x: i64) -> bool {
    forall|k: int| 0 <= k < ls.len() ==> #[trigger] ls[k].contains(x)
}

/// Strictly decreasing: newest evaluation first, each once.
pub open spec fn strictly_decreasing(v: Seq<i64>) -> bool {
    forall|i: int, j: int| 0 <= i < j < v.len() ==> #[trigger] v[i] > #[trigger] v[j]
}

/// The evaluations common to the packages: a single package's list as it
/// is, else the evaluations in every list.
pub open spec fn no_common_evals(ls: Seq<Seq<i64>>) -> bool {
    if ls.len() == 1 {
        ls[0].len() == 0
    } else {
        !exists|x: i64| #[trigger] in_all(ls, x)
    }
}

/// `x` is the smallest newest evaluation among the packages that have one.
pub open spec fn is_bottleneck(ls: Seq<Seq<i64>>, x: i64) -> bool {
    &&& exists|b: int| 0 <= b < ls.len() && #[trigger] ls[b].len() > 0 && ls[b][0] == x
    &&& forall|k: int| 0 <= k < ls.len() && #[trigger] ls[k].len() > 0 ==> x <= ls[k][0]
}

/// Inserts an evaluation into a strictly decreasing list, keeping it so.
#[verifier::spinoff_prover]
fn insert_desc(v: &mut Vec<i64>, x: i64)
    requires
        strictly_decreasing(old(v)@),
    ensures
        strictly_decreasing(final(v)@),
        forall|y: i64| final(v)@.contains(y) <==> (old(v)@.contains(y) || y == x),
{
    let mut i: usize = 0;
    while i < v.len() && v[i] > x
        invariant
            v@ == old(v)@,
            i <= v@.len(),
            forall|j: int| 0 <= j < i ==> v@[j] > x,
        decreases v@.len() - i,
    {
        i = i + 1;
    }
    if i < v.len() && v[i] == x {
        assert(v@[i as int] == x);
        return;
    }
    let ghost before = v@;
    assert(before == old(v)@);
    v.insert(i, x);
    assert(v@ =~= before.subrange(0, i as int).push(x) + before.subrange(i as int, before.len() as int));
    assert forall|a: int, b: int| 0 <= a < b < v@.len() implies #[trigger] v@[a] > #[trigger] v@[b] by {
        if b < i {
        } else if a < i && b == i {
        } else if a < i {
            assert(v@[b] == before[b - 1]);
            assert(before[i as int] < x);
            if b - 1 > i {
                assert(before[i as int] > before[b - 1]);
            }
        } else if a == i {
            assert(v@[b] == before[b - 1]);
            assert(before[i as int] < x);
            if b - 1 > i {
                assert(before[i as int] > before[b - 1]);
            }
        } else {
            assert(v@[a] == before[a - 1] && v@[b] == before[b - 1]);
        }
    }
    assert forall|y: i64| v@.contains(y) <==> (before.contains(y) || y == x) by {
        if v@.contains(y) {
            let j = choose|j: int| 0 <= j < v@.len() && v@[j] == y;
            if j < i {
                assert(before[j] == y);
            } else if j > i {
                assert(before[j - 1] == y);
            }
        }
        if before.contains(y) {
            let j = choose|j: int| 0 <= j < before.len() && before[j] == y;
            if j < i {
                assert(v@[j] == y);
            } else {
                assert(v@[j + 1] == y);
            }
        }
        if y == x {
            assert(v@[i as int] == x);
        }
    }
    assert(forall|y: i64| v@.contains(y) <==> (old(v)@.contains(y) || y == x));
}

/// The evaluations to try first: those common to every package Hydra has
/// built (newest first), else the newest evaluation of the package that
/// lags furthest behind. None when no package has an evaluation at all.
pub fn candidate_evals(lists: &Vec<Vec<i64>>) -> (r: Option<Vec<i64>>)
    requires
        lists@.len() > 0,
    ensures
        ({
            let ls = lists@.map_values(|v: Vec<i64>| v@);
            &&& !no_common_evals(ls) ==> (r matches Some(v) && (ls.len() == 1 ==> v@ == ls[0]) && (ls.len() > 1
                ==> strictly_decreasing(v@) && forall|x: i64| v@.contains(x) <==> #[trigger] in_all(ls, x)))
            &&& no_common_evals(ls) ==> match r {
                Some(v) => v@.len() == 1 && is_bottleneck(ls, v@[0]),
                None => forall|k: int| 0 <= k < ls.len() ==> #[trigger] ls[k].len() == 0,
            }
        }),
{
    let ghost ls = lists@.map_values(|v: Vec<i64>| v@);
    if lists.len() == 1 {
        if lists[0].len() > 0 {
            let mut copy: Vec<i64> = Vec::new();
            let mut i: usize = 0;
            while i < lists[0].len()
                invariant
                    lists@.len() == 1,
                    i <= lists@[0]@.len(),
                    copy@ == lists@[0]@.subrange(0, i as int),
                decreases lists@[0]@.len() - i,
            {
                copy.push(lists[0][i]);
                assert(copy@ =~= lists@[0]@.subrange(0, i + 1));
                i = i + 1;
            }
            assert(copy@ =~= lists@[0]@);
            assert(ls[0] == lists@[0]@);
            return Some(copy);
        }
        assert(ls[0] == lists@[0]@);
    } else {
        let mut common: Vec<i64> = Vec::new();
        let first = &lists[0];
        let mut i: usize = 0;
        while i < first.len()
            invariant
                lists@.len() > 1,
                ls == lists@.map_values(|v: Vec<i64>| v@),
                first@ == ls[0],
                i <= first@.len(),
                strictly_decreasing(common@),
                forall|x: i64| common@.contains(x) <==> (in_all(ls, x) && exists|j: int| 0 <= j < i && first@[j] == x),
            decreases first@.len() - i,
        {
            let x = first[i];
            let mut everywhere = true;
            let mut k: usize = 1;
            assert(ls[0].contains(x)) by {
                assert(ls[0][i as int] == x);
            }
            while k < lists.len()
                invariant
                    1 <= k <= lists@.len(),
                    ls == lists@.map_values(|v: Vec<i64>| v@),
                    first@ == ls[0],
                    x == first@[i as int],
                    i < first@.len(),
                    everywhere == forall|m: int| 0 <= m < k ==> #[trigger] ls[m].contains(x),
                decreases lists@.len() - k,
            {
                let other = &lists[k];
                let mut found = false;
                let mut m: usize = 0;
                while m < other.len()
                    invariant
                        m <= other@.len(),
                        found == exists|q: int| 0 <= q < m && other@[q] == x,
                    decreases other@.len() - m,
                {
                    if other[m] == x {
                        found = true;
                    }
                    m = m + 1;
                }
                assert(ls[k as int] == other@);
                proof {
                    if found {
                        let q = choose|q: int| 0 <= q < m && other@[q] == x;
                        assert(ls[k as int].contains(x));
                    } else {
                        assert(!ls[k as int].contains(x));
                    }
                    assert(ls[0].contains(x)) by {
                        assert(ls[0][i as int] == x);
                    }
                }
                if !found {
                    everywhere = false;
                }
                k = k + 1;
            }
            let ghost before_common = common@;
            assert(forall|y: i64| before_common.contains(y) <==> (in_all(ls, y) && exists|j: int| 0 <= j < i && first@[j] == y));
            if everywhere {
                insert_desc(&mut common, x);
            }
            proof {
                assert(everywhere == in_all(ls, x));
                assert(forall|y: i64| common@.contains(y) <==> (before_common.contains(y) || (everywhere && y == x)));
                assert forall|y: i64| common@.contains(y) <==> (in_all(ls, y) && exists|j: int| 0 <= j < i + 1 && first@[j] == y) by {
                    if y == x {
                        assert(first@[i as int] == x);
                    }
                    if exists|j: int| 0 <= j < i + 1 && first@[j] == y {
                        let j = choose|j: int| 0 <= j < i + 1 && first@[j] == y;
                        if j == i {
                            assert(y == x);
                        }
                    }
                }
            }
            i = i + 1;
        }
        proof {
            assert forall|y: i64| common@.contains(y) <==> #[trigger] in_all(ls, y) by {
                if in_all(ls, y) {
                    assert(ls.len() == lists@.len());
                    assert(ls[0].contains(y));
                    let j = choose|j: int| 0 <= j < ls[0].len() && ls[0][j] == y;
                    assert(first@[j] == y);
                }
            }
        }
        if common.len() > 0 {
            assert(ls.len() == lists@.len());
            assert(common@.contains(common@[0]));
            assert(in_all(ls, common@[0]));
            return Some(common);
        }
        proof {
            if exists|x: i64| #[trigger] in_all(ls, x) {
                let x = choose|x: i64| #[trigger] in_all(ls, x);
                assert(common@.contains(x));
            }
        }
    }
    // No common evaluation: take the package that lags furthest behind.
    let mut best: Option<i64> = None;
    let mut k: usize = 0;
    while k < lists.len()
        invariant
            k <= lists@.len(),
            ls == lists@.map_values(|v: Vec<i64>| v@),
            match best {
                None => forall|j: int| 0 <= j < k ==> #[trigger] ls[j].len() == 0,
                Some(x) => (exists|b: int| 0 <= b < k && #[trigger] ls[b].len() > 0 && ls[b][0] == x)
                    && forall|j: int| 0 <= j < k && #[trigger] ls[j].len() > 0 ==> x <= ls[j][0],
            },
        decreases lists@.len() - k,
    {
        assert(ls[k as int] == lists@[k as int]@);
        if lists[k].len() > 0 {
            let head = lists[k][0];
            let replace = match best {
                None => true,
                Some(x) => head < x,
            };
            if replace {
                best = Some(head);
            }
        }
        k = k + 1;
    }
    match best {
        None => None,
        Some(x) => {
            let mut v: Vec<i64> = Vec::new();
            v.push(x);
            Some(v)
        },
    }
}

/// The evaluation lists of the packages Hydra has built, in order.
pub open spec fn on_hydra_evals(rs: Seq<HydraBuildResult>) -> Seq<Seq<i64>>
    decreases rs.len(),
{
    if rs.len() == 0 {
        seq![]
    } else if rs.last().status == HydraStatus::OnHydra {
        on_hydra_evals(rs.drop_last()).push(rs.last().evals@)
    } else {
        on_hydra_evals(rs.drop_last())
    }
}

/// A search that has not started.
pub open spec fn initial_view(cfg: ConfigView, current: Option<Seq<char>>, phase: SearchPhase, evals: Seq<i64>) -> SearchView {
    SearchView {
        cfg,
        current,
        phase,
        awaiting: Awaiting::Nothing,
        evals,
        commits: seq![],
        next: 0,
        skip: seq![],
        seen: seq![],
        pending: None,
        branch: 0,
    }
}

/// Leave to search: Hydra has built none of the wish packages. Only
/// `TargetSearch::clear_wishes` makes one, and a search starts only from one.
pub struct WishGate {
    cfg: PinConfig,
    current: Option<String>,
}

impl WishGate {
    /// The requirement the search is for.
    pub closed spec fn config(&self) -> ConfigView {
        self.cfg@
    }

    /// The revision currently pinned.
    pub closed spec fn pinned(&self) -> Option<Seq<char>> {
        opt_text(self.current)
    }
}

impl TargetSearch {
    /// Clears a search to start, given Hydra's answers for the wish
    /// packages: refused, naming them, when Hydra has built any.
    pub fn clear_wishes(cfg: PinConfig, current: Option<String>, wish_hydra: &Vec<HydraBuildResult>) -> (r: Result<WishGate, Error>)
        ensures
            ({
                let built = built_on_hydra(wish_hydra@);
                &&& built.len() == 0 ==> (r matches Ok(g) && g.config() == cfg@ && g.pinned() == opt_text(current))
                &&& built.len() > 0 ==> (r matches Err(Error::WishPackagesBuilt { location, packages })
                    && location@ == "Hydra latest-finished"@ && packages@ == join(built, ", "@))
            }),
    {
        match wishes_built_on_hydra(wish_hydra) {
            Ok(()) => Ok(WishGate { cfg, current }),
            Err(e) => Err(e),
        }
    }

    /// Starts a cleared search from what Hydra has built: with nothing on
    /// Hydra the search falls back to the source's commits; otherwise it
    /// tries the candidate evaluations. None when packages are on Hydra but
    /// none has an evaluation.
    pub fn start(gate: WishGate, hydra: &Vec<HydraBuildResult>) -> (r: Option<(TargetSearch, SearchAction)>)
        ensures
            r matches Some((s, _)) ==> branch_ok(s@) && s@.awaiting != Awaiting::Verification && s@.awaiting != Awaiting::WishCache,
            ({
                let ls = on_hydra_evals(hydra@);
                if ls.len() == 0 {
                    r matches Some((s, a)) && s@ == spec_begin_scan(initial_view(gate.config(), gate.pinned(), SearchPhase::Scan, seq![])).0
                        && action_matches(a, spec_begin_scan(initial_view(gate.config(), gate.pinned(), SearchPhase::Scan, seq![])).1)
                } else {
                    match r {
                        Some((s, a)) => {
                            &&& s@ == spec_advance(initial_view(gate.config(), gate.pinned(), SearchPhase::Hydra, s@.evals)).0
                            &&& action_matches(a, spec_advance(initial_view(gate.config(), gate.pinned(), SearchPhase::Hydra, s@.evals)).1)
                            &&& !no_common_evals(ls) ==> (ls.len() == 1 ==> s@.evals == ls[0]) && (ls.len() > 1
                                ==> strictly_decreasing(s@.evals) && forall|x: i64| s@.evals.contains(x) <==> #[trigger] in_all(ls, x))
                            &&& no_common_evals(ls) ==> s@.evals.len() == 1 && is_bottleneck(ls, s@.evals[0])
                        },
                        None => no_common_evals(ls) && forall|k: int| 0 <= k < ls.len() ==> #[trigger] ls[k].len() == 0,
                    }
                }
            }),
    {
        let mut lists: Vec<Vec<i64>> = Vec::new();
        let mut i: usize = 0;
        while i < hydra.len()
            invariant
                i <= hydra@.len(),
                lists@.map_values(|v: Vec<i64>| v@) == on_hydra_evals(hydra@.subrange(0, i as int)),
            decreases hydra@.len() - i,
        {
            assert(hydra@.subrange(0, i + 1).drop_last() =~= hydra@.subrange(0, i as int));
            assert(hydra@.subrange(0, i + 1).last() == hydra@[i as int]);
            if hydra[i].status == HydraStatus::OnHydra {
                let ghost before = lists@.map_values(|v: Vec<i64>| v@);
                let mut copy: Vec<i64> = Vec::new();
                let mut k: usize = 0;
                while k < hydra[i].evals.len()
                    invariant
                        i < hydra@.len(),
                        k <= hydra@[i as int].evals@.len(),
                        copy@ == hydra@[i as int].evals@.subrange(0, k as int),
                    decreases hydra@[i as int].evals@.len() - k,
                {
                    copy.push(hydra[i].evals[k]);
                    assert(copy@ =~= hydra@[i as int].evals@.subrange(0, k + 1));
                    k = k + 1;
                }
                assert(copy@ =~= hydra@[i as int].evals@);
                lists.push(copy);
                assert(lists@.map_values(|v: Vec<i64>| v@) =~= before.push(hydra@[i as int].evals@));
            }
            i = i + 1;
        }
        assert(hydra@.subrange(0, i as int) =~= hydra@);
        let WishGate { cfg, current } = gate;
        let mut search = TargetSearch {
            cfg,
            current,
            phase: SearchPhase::Scan,
            awaiting: Awaiting::Nothing,
            evals: Vec::new(),
            commits: Vec::new(),
            next: 0,
            skip: Vec::new(),
            seen: TextMap::new(),
            pending: None,
            branch: 0,
        };
        assert(search@.commits =~= Seq::<Seq<char>>::empty());
        if lists.len() == 0 {
            let a = search.begin_scan();
            return Some((search, a));
        }
        match candidate_evals(&lists) {
            None => None,
            Some(evals) => {
                search.evals = evals;
                search.phase = SearchPhase::Hydra;
                let a = search.advance();
                Some((search, a))
            },
        }
    }
}

/// The wish packages Hydra has built: promoting them is required before any
/// pin moves.
pub fn wishes_built_on_hydra(results: &Vec<HydraBuildResult>) -> (r: Result<(), Error>)
    ensures
        ({
            let built = built_on_hydra(results@);
            &&& built.len() == 0 ==> r is Ok
            &&& built.len() > 0 ==> (r matches Err(Error::WishPackagesBuilt { location, packages })
                && location@ == "Hydra latest-finished"@ && packages@ == join(built, ", "@))
        }),
{
    let mut built: Vec<String> = Vec::new();
    let mut i: usize = 0;
    while i < results.len()
        invariant
            i <= results@.len(),
            texts(built@) == built_on_hydra(results@.subrange(0, i as int)),
        decreases results@.len() - i,
    {
        assert(results@.subrange(0, i + 1).drop_last() =~= results@.subrange(0, i as int));
        assert(results@.subrange(0, i + 1).last() == results@[i as int]);
        if results[i].status == HydraStatus::OnHydra {
            let ghost before = texts(built@);
            built.push(copy_string(&results[i].package));
            assert(texts(built@) =~= before.push(results@[i as int].package@));
        }
        i = i + 1;
    }
    assert(results@.subrange(0, i as int) =~= results@);
    if built.len() == 0 {
        Ok(())
    } else {
        Err(Error::WishPackagesBuilt { location: owned("Hydra latest-finished"), packages: join_strings(&built, ", ") })
    }
}

/// The packages Hydra has built, in order.
pub open spec fn built_on_hydra(rs: Seq<HydraBuildResult>) -> Seq<Seq<char>>
    decreases rs.len(),
{
    if rs.len() == 0 {
        seq![]
    } else if rs.last().status == HydraStatus::OnHydra {
        built_on_hydra(rs.drop_last()).push(rs.last().package@)
    } else {
        built_on_hydra(rs.drop_last())
    }
}

/// The packages cached in the results, in order.
pub open spec fn cached_packages(rs: Seq<PackageResultView>) -> Seq<Seq<char>>
    decreases rs.len(),
{
    if rs.len() == 0 {
        seq![]
    } else if rs.last().cached {
        cached_packages(rs.drop_last()).push(rs.last().package)
    } else {
        cached_packages(rs.drop_last())
    }
}

/// The wish packages already cached at the target revision: promoting them
/// is required before the pin moves.
pub fn wishes_cached_at(rev: &str, results: &Vec<PackageCheckResult>) -> (r: Result<(), Error>)
    ensures
        ({
            let built = cached_packages(result_views(results@));
            &&& built.len() == 0 ==> r is Ok
            &&& built.len() > 0 ==> (r matches Err(Error::WishPackagesBuilt { location, packages })
                && location@ == "configured cache at rev "@ + short_rev(rev@) && packages@ == join(built, ", "@))
        }),
{
    let ghost rs = result_views(results@);
    let mut built: Vec<String> = Vec::new();
    let mut i: usize = 0;
    while i < results.len()
        invariant
            i <= results@.len(),
            rs == result_views(results@),
            texts(built@) == cached_packages(rs.subrange(0, i as int)),
        decreases results@.len() - i,
    {
        assert(rs.subrange(0, i + 1).drop_last() =~= rs.subrange(0, i as int));
        assert(rs.subrange(0, i + 1).last() == results@[i as int]@);
        if results[i].cached {
            let ghost before = texts(built@);
            built.push(copy_string(&results[i].package));
            assert(texts(built@) =~= before.push(results@[i as int]@.package));
        }
        i = i + 1;
    }
    assert(rs.subrange(0, i as int) =~= rs);
    if built.len() == 0 {
        Ok(())
    } else {
        let short = crate::report::short_rev_text(rev);
        Err(Error::WishPackagesBuilt {
            location: join2("configured cache at rev ", short.as_str()),
            packages: join_strings(&built, ", "),
        })
    }
}

} // verus!
