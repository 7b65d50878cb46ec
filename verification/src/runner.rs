//! Pin by pin: the revision-order policy that guards every write, and the
//! steps of moving one pin to its target revision.
use crate::config::{opt_text, ConfigView, PinConfig};
use crate::error::{join2, join3, Error};
use crate::ext::RevisionOrder;
use crate::flakeref::{append_rev, spec_append_rev};
use crate::report::{short_rev, short_rev_text};
use crate::text::{copy_string, owned, text_eq};
use vstd::prelude::*;

verus! {

/// Enforces the monotonic revision policy before a write: a candidate must
/// be the current pin or newer; an older, divergent or unordered candidate
/// is refused, and a failed comparison is passed on.
pub fn revision_order_verdict(current: &str, candidate: &str, order: Result<RevisionOrder, Error>) -> (r: Result<(), Error>)
    ensures
        current@ == candidate@ ==> r is Ok,
        current@ != candidate@ ==> match order {
            Err(e) => r == Err::<(), Error>(e),
            Ok(RevisionOrder::Newer) | Ok(RevisionOrder::Equal) => r is Ok,
            Ok(RevisionOrder::Older) => r matches Err(Error::RevisionPolicy { current: c, candidate: d, relation })
                && c@ == current@ && d@ == candidate@ && relation@ == "candidate is older than current pin"@,
            Ok(RevisionOrder::Divergent) => r matches Err(Error::RevisionPolicy { current: c, candidate: d, relation })
                && c@ == current@ && d@ == candidate@ && relation@ == "divergent history"@,
            Ok(RevisionOrder::Unknown) => r matches Err(Error::RevisionOrderUnknown { current: c, candidate: d })
                && c@ == current@ && d@ == candidate@,
        },
{
    if text_eq(current, candidate) {
        return Ok(());
    }
    match order {
        Err(e) => Err(e),
        Ok(RevisionOrder::Newer) => Ok(()),
        Ok(RevisionOrder::Equal) => Ok(()),
        Ok(RevisionOrder::Older) => Err(Error::RevisionPolicy {
            current: owned(current),
            candidate: owned(candidate),
            relation: owned("candidate is older than current pin"),
        }),
        Ok(RevisionOrder::Divergent) => Err(Error::RevisionPolicy {
            current: owned(current),
            candidate: owned(candidate),
            relation: owned("divergent history"),
        }),
        Ok(RevisionOrder::Unknown) => Err(Error::RevisionOrderUnknown { current: owned(current), candidate: owned(candidate) }),
    }
}

/// What became of one pin.
#[derive(Debug)]
pub struct ApplyOutcome {
    pub name: String,
    pub updated: bool,
    pub from_rev: Option<String>,
    pub to_rev: Option<String>,
    pub error: Option<String>,
}

/// The content of a pin's outcome.
pub struct OutcomeView {
    pub name: Seq<char>,
    pub updated: bool,
    pub from_rev: Option<Seq<char>>,
    pub to_rev: Option<Seq<char>>,
    pub error: Option<Seq<char>>,
}

impl View for ApplyOutcome {
    type V = OutcomeView;

    open spec fn view(&self) -> OutcomeView {
        OutcomeView {
            name: self.name@,
            updated: self.updated,
            from_rev: opt_text(self.from_rev),
            to_rev: opt_text(self.to_rev),
            error: opt_text(self.error),
        }
    }
}

/// The outcome of a pin moving (or not) from `from` to the target.
pub open spec fn outcome(name: Seq<char>, updated: bool, from: Option<Seq<char>>, target: Seq<char>, error: Option<Seq<char>>) -> OutcomeView {
    OutcomeView { name, updated, from_rev: from, to_rev: Some(target), error }
}

fn make_outcome(cfg: &PinConfig, updated: bool, from: Option<&str>, target: &str, error: Option<String>) -> (r: ApplyOutcome)
    ensures
        r@ == outcome(cfg.name@, updated, match from {
            Some(f) => Some(f@),
            None => None,
        }, target@, opt_text(error)),
{
    ApplyOutcome {
        name: copy_string(&cfg.name),
        updated,
        from_rev: match from {
            Some(f) => Some(owned(f)),
            None => None,
        },
        to_rev: Some(owned(target)),
        error,
    }
}

/// The next step of moving a pin to its target revision.
#[derive(Debug)]
pub enum ApplyStep {
    /// Ask how the target relates to this current revision.
    Compare(String),
    /// Rewrite only `flake.lock`, pinning the input to this reference.
    UpdateLockOnly(String),
    /// Rewrite the input's URL in `flake.nix`.
    UpdateFlakeNix,
    /// Run `nix flake lock --update-input`.
    RunFlakeLock,
    /// Done, with this outcome.
    Finish(ApplyOutcome),
}

/// After reading the current revision: a failed read ends the pin, an
/// up-to-date pin is done, anything else is compared first.
pub fn apply_after_current(cfg: &PinConfig, target: &str, current: Result<String, String>) -> (r: ApplyStep)
    ensures
        match current {
            Err(m) => r matches ApplyStep::Finish(o)
                && o@ == outcome(cfg.name@, false, None, target@, Some("failed to read current rev: "@ + m@)),
            Ok(c) => if c@ == target@ {
                r matches ApplyStep::Finish(o) && o@ == outcome(cfg.name@, false, Some(c@), target@, None)
            } else {
                r matches ApplyStep::Compare(x) && x@ == c@
            },
        },
{
    match current {
        Err(m) => ApplyStep::Finish(make_outcome(cfg, false, None, target, Some(join2("failed to read current rev: ", m.as_str())))),
        Ok(c) => {
            if text_eq(c.as_str(), target) {
                ApplyStep::Finish(make_outcome(cfg, false, Some(c.as_str()), target, None))
            } else {
                ApplyStep::Compare(c)
            }
        },
    }
}

/// After the revision-order check: a refusal ends the pin with its message;
/// a dry run changes nothing; a lock-only pin rewrites `flake.lock` unless
/// locking is off; any other pin rewrites `flake.nix`.
pub fn apply_after_check(cfg: &PinConfig, target: &str, current: &str, verdict: Result<(), Error>, dry_run: bool, no_lock: bool) -> (r: ApplyStep)
    ensures
        match verdict {
            Err(e) => r matches ApplyStep::Finish(o)
                && o@ == outcome(cfg.name@, false, Some(current@), target@, Some(e.spec_message())),
            Ok(()) => if dry_run || (cfg.lock_only && no_lock) {
                r matches ApplyStep::Finish(o) && o@ == outcome(cfg.name@, false, Some(current@), target@, None)
            } else if cfg.lock_only {
                r matches ApplyStep::UpdateLockOnly(x) && x@ == spec_append_rev(cfg.flake_ref@, target@)
            } else {
                r matches ApplyStep::UpdateFlakeNix
            },
        },
{
    match verdict {
        Err(e) => ApplyStep::Finish(make_outcome(cfg, false, Some(current), target, Some(e.message()))),
        Ok(()) => {
            if dry_run || (cfg.lock_only && no_lock) {
                ApplyStep::Finish(make_outcome(cfg, false, Some(current), target, None))
            } else if cfg.lock_only {
                ApplyStep::UpdateLockOnly(append_rev(cfg.flake_ref.as_str(), target))
            } else {
                ApplyStep::UpdateFlakeNix
            }
        },
    }
}

/// After rewriting `flake.lock` for a lock-only pin.
pub fn apply_after_lock_update(cfg: &PinConfig, target: &str, current: &str, result: Result<(), String>) -> (r: ApplyOutcome)
    ensures
        r@ == match result {
            Ok(()) => outcome(cfg.name@, true, Some(current@), target@, None),
            Err(m) => outcome(cfg.name@, false, Some(current@), target@, Some("failed to update flake.lock: "@ + m@)),
        },
{
    match result {
        Ok(()) => make_outcome(cfg, true, Some(current), target, None),
        Err(m) => make_outcome(cfg, false, Some(current), target, Some(join2("failed to update flake.lock: ", m.as_str()))),
    }
}

/// After rewriting `flake.nix`: a failure ends the pin; otherwise the lock is
/// refreshed unless locking is off.
pub fn apply_after_flake_nix(cfg: &PinConfig, target: &str, current: &str, result: Result<(), String>, no_lock: bool) -> (r: ApplyStep)
    ensures
        match result {
            Err(m) => r matches ApplyStep::Finish(o)
                && o@ == outcome(cfg.name@, false, Some(current@), target@, Some("failed to update flake.nix: "@ + m@)),
            Ok(()) => if no_lock {
                r matches ApplyStep::Finish(o) && o@ == outcome(cfg.name@, true, Some(current@), target@, None)
            } else {
                r matches ApplyStep::RunFlakeLock
            },
        },
{
    match result {
        Err(m) => ApplyStep::Finish(make_outcome(cfg, false, Some(current), target, Some(join2("failed to update flake.nix: ", m.as_str())))),
        Ok(()) => {
            if no_lock {
                ApplyStep::Finish(make_outcome(cfg, true, Some(current), target, None))
            } else {
                ApplyStep::RunFlakeLock
            }
        },
    }
}

/// After refreshing the lock: `flake.nix` was already rewritten, so the pin
/// counts as updated even when locking failed.
pub fn apply_after_flake_lock(cfg: &PinConfig, target: &str, current: &str, result: Result<(), String>) -> (r: ApplyOutcome)
    ensures
        r@ == match result {
            Ok(()) => outcome(cfg.name@, true, Some(current@), target@, None),
            Err(m) => outcome(cfg.name@, true, Some(current@), target@, Some("flake lock failed: "@ + m@)),
        },
{
    match result {
        Ok(()) => make_outcome(cfg, true, Some(current), target, None),
        Err(m) => make_outcome(cfg, true, Some(current), target, Some(join2("flake lock failed: ", m.as_str()))),
    }
}

/// The line that reports how a pin's search ended, and whether it succeeded.
pub open spec fn spec_find_status(name: Seq<char>, result: Result<Option<String>, Error>) -> (bool, Seq<char>) {
    match result {
        Ok(Some(rev)) => (true, name + ": pinned to "@ + short_rev(rev@)),
        Ok(None) => (false, name + ": no cached revision found"@),
        Err(e) => (false, name + ": "@ + e.spec_message()),
    }
}

/// Reports how a pin's search ended.
pub fn find_status(name: &str, result: &Result<Option<String>, Error>) -> (r: (bool, String))
    ensures
        (r.0, r.1@) == spec_find_status(name@, *result),
{
    match result {
        Ok(Some(rev)) => (true, join3(name, ": pinned to ", short_rev_text(rev.as_str()).as_str())),
        Ok(None) => (false, join2(name, ": no cached revision found")),
        Err(e) => (false, join3(name, ": ", e.message().as_str())),
    }
}

/// The search result recorded for a pin whose search task did not finish.
pub fn unfinished_search(reason: &str) -> (r: Result<Option<String>, Error>)
    ensures
        r matches Err(Error::TaskJoin { task, source }) && task@ == "find_target_rev"@ && source@ == reason@,
{
    Err(Error::TaskJoin { task: owned("find_target_rev"), source: owned(reason) })
}

/// How a pin's search is reported among the failures.
pub open spec fn failure_reason(result: Result<Option<String>, Error>) -> Option<Seq<char>> {
    match result {
        Ok(Some(_)) => None,
        Ok(None) => Some("no revision found with all packages cached"@),
        Err(e) => Some(e.spec_message()),
    }
}

/// The pins whose search found a revision, and the failures of the others
/// (pin name and reason), each in order.
pub open spec fn spec_partition(names: Seq<Seq<char>>, results: Seq<Result<Option<String>, Error>>) -> (Seq<(Seq<char>, Seq<char>)>, Seq<(Seq<char>, Seq<char>)>)
    decreases results.len(),
{
    if results.len() == 0 {
        (seq![], seq![])
    } else {
        let before = spec_partition(names, results.drop_last());
        let name = names[results.len() - 1];
        match results.last() {
            Ok(Some(rev)) => (before.0.push((name, rev@)), before.1),
            _ => (before.0, before.1.push((name, failure_reason(results.last())->0))),
        }
    }
}

/// Fail before write: every pin lands on exactly one side, and no failure is
/// reported exactly when every pin's search found a revision, so writing
/// starts only when all searches succeeded.
pub proof fn lemma_partition_fail_before_write(names: Seq<Seq<char>>, results: Seq<Result<Option<String>, Error>>)
    ensures
        spec_partition(names, results).0.len() + spec_partition(names, results).1.len() == results.len(),
        spec_partition(names, results).1.len() == 0 <==> forall|i: int| 0 <= i < results.len() ==> #[trigger] results[i] matches Ok(Some(_)),
    decreases results.len(),
{
    if results.len() > 0 {
        let before = results.drop_last();
        lemma_partition_fail_before_write(names, before);
        assert forall|i: int| 0 <= i < before.len() implies #[trigger] before[i] == results[i] by {}
        if spec_partition(names, results).1.len() == 0 {
            assert forall|i: int| 0 <= i < results.len() implies #[trigger] results[i] matches Ok(Some(_)) by {
                if i < before.len() {
                    assert(before[i] == results[i]);
                }
            }
        }
        if forall|i: int| 0 <= i < results.len() ==> #[trigger] results[i] matches Ok(Some(_)) {
            assert(results[results.len() - 1] matches Ok(Some(_)));
            assert forall|i: int| 0 <= i < before.len() implies #[trigger] before[i] matches Ok(Some(_)) by {
                assert(before[i] == results[i]);
                assert(results[i] matches Ok(Some(_)));
            }
        }
    }
}

/// Separates the pins whose search found a revision from those that did
/// not; no write may start while any pin failed.
pub fn partition_results(found: Vec<(PinConfig, Result<Option<String>, Error>)>) -> (r: (Vec<(PinConfig, String)>, Vec<(String, String)>))
    ensures
        ({
            let names = found@.map_values(|f: (PinConfig, Result<Option<String>, Error>)| f.0.name@);
            let results = found@.map_values(|f: (PinConfig, Result<Option<String>, Error>)| f.1);
            let p = spec_partition(names, results);
            &&& r.0@.map_values(|s: (PinConfig, String)| (s.0.name@, s.1@)) == p.0
            &&& r.1@.map_values(|f: (String, String)| (f.0@, f.1@)) == p.1
        }),
{
    let ghost names = found@.map_values(|f: (PinConfig, Result<Option<String>, Error>)| f.0.name@);
    let ghost results = found@.map_values(|f: (PinConfig, Result<Option<String>, Error>)| f.1);
    let ghost all = found@;
    let mut successes: Vec<(PinConfig, String)> = Vec::new();
    let mut failures: Vec<(String, String)> = Vec::new();
    let mut found = found;
    let n = found.len();
    let mut i: usize = 0;
    while i < n
        invariant
            n == all.len(),
            i <= n,
            found@ == all.subrange(i as int, n as int),
            names == all.map_values(|f: (PinConfig, Result<Option<String>, Error>)| f.0.name@),
            results == all.map_values(|f: (PinConfig, Result<Option<String>, Error>)| f.1),
            successes@.map_values(|s: (PinConfig, String)| (s.0.name@, s.1@)) == spec_partition(names, results.subrange(0, i as int)).0,
            failures@.map_values(|f: (String, String)| (f.0@, f.1@)) == spec_partition(names, results.subrange(0, i as int)).1,
        decreases n - i,
    {
        assert(results.subrange(0, i + 1).drop_last() =~= results.subrange(0, i as int));
        assert(results.subrange(0, i + 1).last() == all[i as int].1);
        assert(names[i as int] == all[i as int].0.name@);
        let (cfg, result) = found.remove(0);
        assert(found@ =~= all.subrange(i + 1, n as int));
        let ghost s_before = successes@.map_values(|s: (PinConfig, String)| (s.0.name@, s.1@));
        let ghost f_before = failures@.map_values(|f: (String, String)| (f.0@, f.1@));
        match result {
            Ok(Some(rev)) => {
                let ghost item = (cfg.name@, rev@);
                successes.push((cfg, rev));
                assert(successes@.map_values(|s: (PinConfig, String)| (s.0.name@, s.1@)) =~= s_before.push(item));
            },
            Ok(None) => {
                let item = (copy_string(&cfg.name), owned("no revision found with all packages cached"));
                let ghost iv = (item.0@, item.1@);
                failures.push(item);
                assert(failures@.map_values(|f: (String, String)| (f.0@, f.1@)) =~= f_before.push(iv));
            },
            Err(e) => {
                let item = (copy_string(&cfg.name), e.message());
                let ghost iv = (item.0@, item.1@);
                failures.push(item);
                assert(failures@.map_values(|f: (String, String)| (f.0@, f.1@)) =~= f_before.push(iv));
            },
        }
        i = i + 1;
    }
    assert(results.subrange(0, i as int) =~= results);
    (successes, failures)
}

} // verus!
