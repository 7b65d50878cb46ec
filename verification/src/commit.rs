//! Committing staged files as one recoverable step: every existing
//! destination is moved aside first, then each staged file is renamed over
//! its destination; when one of those renames fails, the moved-aside files
//! are put back, latest first, and otherwise they are removed. The renames
//! themselves are the caller's work: this is the sequence of steps, driven
//! by what each rename reported.
use crate::error::Error;
use crate::text::copy_string;
use vstd::prelude::*;

verus! {

/// Where a commit stands.
#[derive(Debug, Clone, Copy, PartialEq, Eq, Structural)]
pub enum CommitPhase {
    /// Moving existing destinations aside.
    BackingUp,
    /// Renaming staged files over their destinations.
    Installing,
    /// Putting moved-aside destinations back after a failed rename.
    RollingBack,
    /// Removing the moved-aside copies after every rename succeeded.
    Cleaning,
    Done,
}

/// The next file operation of a commit.
#[derive(Debug)]
pub enum CommitAction {
    /// Move this destination aside, if it exists.
    BackUp(String),
    /// Rename the staged file over its destination.
    Install { staged: String, destination: String },
    /// Remove the destination and rename its moved-aside copy back.
    Restore { destination: String, backup: String },
    /// Remove a moved-aside copy.
    RemoveBackup(String),
    /// The commit is over.
    Finish(Result<(), Error>),
}

/// What a file operation reported.
#[derive(Debug)]
pub enum CommitEvent {
    /// The destination was moved to this path, or did not exist.
    BackedUp(Result<Option<String>, Error>),
    Installed(Result<(), Error>),
    /// A restore was attempted; its outcome does not change the commit.
    Restored,
    /// A removal was attempted; its outcome does not change the commit.
    Removed,
}

/// The next file operation, as plain values.
pub enum CommitStep {
    BackUp(Seq<char>),
    Install(Seq<char>, Seq<char>),
    Restore(Seq<char>, Seq<char>),
    RemoveBackup(Seq<char>),
    Finish(Result<(), Error>),
}

/// The action is the step described.
pub open spec fn step_matches(a: CommitAction, v: CommitStep) -> bool {
    match v {
        CommitStep::BackUp(d) => a matches CommitAction::BackUp(x) && x@ == d,
        CommitStep::Install(f, d) => a matches CommitAction::Install { staged, destination } && staged@ == f && destination@ == d,
        CommitStep::Restore(d, b) => a matches CommitAction::Restore { destination, backup } && destination@ == d && backup@ == b,
        CommitStep::RemoveBackup(b) => a matches CommitAction::RemoveBackup(x) && x@ == b,
        CommitStep::Finish(r) => a == CommitAction::Finish(r),
    }
}

/// A commit in progress.
#[derive(Debug)]
pub struct CommitRun {
    /// The staged files and their destinations, in commit order.
    pub files: Vec<(String, String)>,
    /// The destinations moved aside so far, with where they went.
    pub backups: Vec<(String, String)>,
    pub phase: CommitPhase,
    /// The file being backed up or installed, the number of copies still
    /// to restore, or the copy being removed.
    pub next: usize,
    /// The error of the rename that failed, while rolling back.
    pub failure: Option<Error>,
}

/// The content of a commit in progress.
pub struct CommitView {
    pub files: Seq<(Seq<char>, Seq<char>)>,
    pub backups: Seq<(Seq<char>, Seq<char>)>,
    pub phase: CommitPhase,
    pub next: nat,
    pub failure: Option<Error>,
}

/// The texts of a list of pairs of strings.
pub open spec fn pair_views(v: Seq<(String, String)>) -> Seq<(Seq<char>, Seq<char>)> {
    v.map_values(|p: (String, String)| (p.0@, p.1@))
}

impl View for CommitRun {
    type V = CommitView;

    open spec fn view(&self) -> CommitView {
        CommitView {
            files: pair_views(self.files@),
            backups: pair_views(self.backups@),
            phase: self.phase,
            next: self.next as nat,
            failure: self.failure,
        }
    }
}

/// Removing the moved-aside copies from the current one on, then finishing.
pub open spec fn spec_clean(s: CommitView) -> (CommitView, CommitStep) {
    if s.next < s.backups.len() {
        (CommitView { phase: CommitPhase::Cleaning, ..s }, CommitStep::RemoveBackup(s.backups[s.next as int].1))
    } else {
        (CommitView { phase: CommitPhase::Done, ..s }, CommitStep::Finish(Ok(())))
    }
}

/// The step that follows from the position the commit has reached.
pub open spec fn spec_continue(s: CommitView) -> (CommitView, CommitStep) {
    match s.phase {
        CommitPhase::BackingUp => if s.next < s.files.len() {
            (s, CommitStep::BackUp(s.files[s.next as int].1))
        } else if s.files.len() > 0 {
            (CommitView { phase: CommitPhase::Installing, next: 0, ..s }, CommitStep::Install(s.files[0].0, s.files[0].1))
        } else {
            spec_clean(CommitView { phase: CommitPhase::Cleaning, next: 0, ..s })
        },
        CommitPhase::Installing => if s.next < s.files.len() {
            (s, CommitStep::Install(s.files[s.next as int].0, s.files[s.next as int].1))
        } else {
            spec_clean(CommitView { phase: CommitPhase::Cleaning, next: 0, ..s })
        },
        CommitPhase::RollingBack => if 0 < s.next <= s.backups.len() {
            (s, CommitStep::Restore(s.backups[s.next - 1].0, s.backups[s.next - 1].1))
        } else {
            (CommitView { phase: CommitPhase::Done, failure: None, ..s }, CommitStep::Finish(Err(s.failure->0)))
        },
        CommitPhase::Cleaning => spec_clean(s),
        CommitPhase::Done => (s, CommitStep::Finish(Ok(()))),
    }
}

/// The event reports on the step the commit is waiting for.
pub open spec fn commit_expects(s: CommitView, e: CommitEvent) -> bool {
    match e {
        CommitEvent::BackedUp(_) => s.phase == CommitPhase::BackingUp && s.next < s.files.len(),
        CommitEvent::Installed(_) => s.phase == CommitPhase::Installing && s.next < s.files.len(),
        CommitEvent::Restored => s.phase == CommitPhase::RollingBack && 0 < s.next <= s.backups.len() && s.failure is Some,
        CommitEvent::Removed => s.phase == CommitPhase::Cleaning && s.next < s.backups.len(),
    }
}

/// What the commit does with a report: a failure to move a destination
/// aside ends it at once with that error; a failed install starts the
/// rollback of every destination moved aside.
pub open spec fn spec_commit_step(s: CommitView, e: CommitEvent) -> (CommitView, CommitStep) {
    match e {
        CommitEvent::BackedUp(Err(err)) => (CommitView { phase: CommitPhase::Done, ..s }, CommitStep::Finish(Err(err))),
        CommitEvent::BackedUp(Ok(None)) => spec_continue(CommitView { next: s.next + 1, ..s }),
        CommitEvent::BackedUp(Ok(Some(b))) => spec_continue(CommitView {
            backups: s.backups.push((s.files[s.next as int].1, b@)),
            next: s.next + 1,
            ..s
        }),
        CommitEvent::Installed(Ok(())) => spec_continue(CommitView { next: s.next + 1, ..s }),
        CommitEvent::Installed(Err(err)) => spec_continue(CommitView {
            phase: CommitPhase::RollingBack,
            next: s.backups.len(),
            failure: Some(err),
            ..s
        }),
        CommitEvent::Restored => spec_continue(CommitView { next: (s.next - 1) as nat, ..s }),
        CommitEvent::Removed => spec_continue(CommitView { next: s.next + 1, ..s }),
    }
}


/// The commit before its first step.
pub open spec fn commit_begin(files: Seq<(Seq<char>, Seq<char>)>) -> CommitView {
    CommitView { files, backups: seq![], phase: CommitPhase::BackingUp, next: 0, failure: None }
}

/// While rolling back, the failure is kept and the count of copies left to
/// restore is within the copies made.
pub open spec fn rollback_ok(s: CommitView) -> bool {
    s.phase == CommitPhase::RollingBack ==> (s.failure is Some && s.next <= s.backups.len())
}

impl CommitRun {
    /// Starts committing `files`, pairs of a staged file and its
    /// destination, in order.
    pub fn start(files: Vec<(String, String)>) -> (r: (CommitRun, CommitAction))
        ensures
            r.0@ == spec_continue(commit_begin(pair_views(files@))).0,
            step_matches(r.1, spec_continue(commit_begin(pair_views(files@))).1),
    {
        let mut run = CommitRun { files, backups: Vec::new(), phase: CommitPhase::BackingUp, next: 0, failure: None };
        assert(pair_views(run.backups@) =~= seq![]);
        assert(run@ == commit_begin(pair_views(run.files@)));
        let a = run.proceed();
        (run, a)
    }

    fn clean(&mut self) -> (a: CommitAction)
        ensures
            final(self)@ == spec_clean(old(self)@).0,
            step_matches(a, spec_clean(old(self)@).1),
    {
        if self.next < self.backups.len() {
            self.phase = CommitPhase::Cleaning;
            assert(pair_views(self.backups@)[self.next as int].1 == self.backups@[self.next as int].1@);
            CommitAction::RemoveBackup(copy_string(&self.backups[self.next].1))
        } else {
            self.phase = CommitPhase::Done;
            CommitAction::Finish(Ok(()))
        }
    }

    fn proceed(&mut self) -> (a: CommitAction)
        requires
            rollback_ok(old(self)@),
        ensures
            final(self)@ == spec_continue(old(self)@).0,
            step_matches(a, spec_continue(old(self)@).1),
    {
        let ghost fv = pair_views(self.files@);
        match self.phase {
            CommitPhase::BackingUp => {
                if self.next < self.files.len() {
                    assert(fv[self.next as int].1 == self.files@[self.next as int].1@);
                    CommitAction::BackUp(copy_string(&self.files[self.next].1))
                } else if self.files.len() > 0 {
                    self.phase = CommitPhase::Installing;
                    self.next = 0;
                    assert(fv[0] == (self.files@[0].0@, self.files@[0].1@));
                    CommitAction::Install { staged: copy_string(&self.files[0].0), destination: copy_string(&self.files[0].1) }
                } else {
                    self.phase = CommitPhase::Cleaning;
                    self.next = 0;
                    self.clean()
                }
            },
            CommitPhase::Installing => {
                if self.next < self.files.len() {
                    assert(fv[self.next as int] == (self.files@[self.next as int].0@, self.files@[self.next as int].1@));
                    CommitAction::Install {
                        staged: copy_string(&self.files[self.next].0),
                        destination: copy_string(&self.files[self.next].1),
                    }
                } else {
                    self.phase = CommitPhase::Cleaning;
                    self.next = 0;
                    self.clean()
                }
            },
            CommitPhase::RollingBack => {
                if 0 < self.next && self.next <= self.backups.len() {
                    let k = self.next - 1;
                    assert(pair_views(self.backups@)[k as int] == (self.backups@[k as int].0@, self.backups@[k as int].1@));
                    CommitAction::Restore { destination: copy_string(&self.backups[k].0), backup: copy_string(&self.backups[k].1) }
                } else {
                    self.phase = CommitPhase::Done;
                    match self.failure.take() {
                        Some(e) => CommitAction::Finish(Err(e)),
                        None => CommitAction::Finish(Ok(())),
                    }
                }
            },
            CommitPhase::Cleaning => self.clean(),
            CommitPhase::Done => CommitAction::Finish(Ok(())),
        }
    }

    /// Takes the report of the last step and gives the next one.
    pub fn on_event(&mut self, event: CommitEvent) -> (a: CommitAction)
        requires
            commit_expects(old(self)@, event),
        ensures
            final(self)@ == spec_commit_step(old(self)@, event).0,
            step_matches(a, spec_commit_step(old(self)@, event).1),
    {
        assert(pair_views(self.files@).len() == self.files@.len());
        assert(pair_views(self.backups@).len() == self.backups@.len());
        let files = self.files.len();
        let backups = self.backups.len();
        // The position lies within the list that the event reports on.
        assert(self.next < files || self.next <= backups);
        match event {
            CommitEvent::BackedUp(Err(err)) => {
                self.phase = CommitPhase::Done;
                CommitAction::Finish(Err(err))
            },
            CommitEvent::BackedUp(Ok(None)) => {
                self.next = self.next + 1;
                self.proceed()
            },
            CommitEvent::BackedUp(Ok(Some(b))) => {
                let ghost before = self.backups@;
                let d = copy_string(&self.files[self.next].1);
                self.backups.push((d, b));
                assert(pair_views(self.backups@) =~= pair_views(before).push((pair_views(self.files@)[self.next as int].1, self.backups@.last().1@)));
                self.next = self.next + 1;
                self.proceed()
            },
            CommitEvent::Installed(Ok(())) => {
                self.next = self.next + 1;
                self.proceed()
            },
            CommitEvent::Installed(Err(err)) => {
                self.phase = CommitPhase::RollingBack;
                self.next = self.backups.len();
                self.failure = Some(err);
                self.proceed()
            },
            CommitEvent::Restored => {
                self.next = self.next - 1;
                self.proceed()
            },
            CommitEvent::Removed => {
                self.next = self.next + 1;
                self.proceed()
            },
        }
    }
}


/// The commit after `j` restores were reported.
pub open spec fn after_restores(s: CommitView, j: nat) -> CommitView
    decreases j,
{
    if j == 0 {
        s
    } else {
        spec_commit_step(after_restores(s, (j - 1) as nat), CommitEvent::Restored).0
    }
}

proof fn lemma_rolling_back(t: CommitView, j: nat)
    requires
        t.phase == CommitPhase::RollingBack,
        t.next == t.backups.len(),
        t.failure is Some,
        j < t.backups.len(),
    ensures
        after_restores(t, j) == (CommitView { next: (t.backups.len() - j) as nat, ..t }),
    decreases j,
{
    if j > 0 {
        lemma_rolling_back(t, (j - 1) as nat);
    }
}

/// A failed install rolls back every destination moved aside, latest
/// first, one restore after another, and the commit then ends with the
/// install's error.
pub proof fn lemma_failed_install_rolls_back(s: CommitView, err: Error)
    requires
        s.phase == CommitPhase::Installing,
        s.next < s.files.len(),
    ensures
        ({
            let (t, first) = spec_commit_step(s, CommitEvent::Installed(Err(err)));
            let k = s.backups.len();
            &&& t.backups == s.backups
            &&& first == if k > 0 {
                CommitStep::Restore(s.backups[k - 1].0, s.backups[k - 1].1)
            } else {
                CommitStep::Finish(Err(err))
            }
            &&& forall|j: nat| 0 < j <= k ==> {
                let u = #[trigger] after_restores(t, (j - 1) as nat);
                &&& commit_expects(u, CommitEvent::Restored)
                &&& spec_commit_step(u, CommitEvent::Restored).1 == if j < k {
                    CommitStep::Restore(s.backups[k - 1 - j].0, s.backups[k - 1 - j].1)
                } else {
                    CommitStep::Finish(Err(err))
                }
            }
        }),
{
    let t = CommitView { phase: CommitPhase::RollingBack, next: s.backups.len(), failure: Some(err), ..s };
    if s.backups.len() > 0 {
        assert(spec_commit_step(s, CommitEvent::Installed(Err(err))).0 == t);
    }
    let k = s.backups.len();
    assert forall|j: nat| 0 < j <= k implies {
        let u = #[trigger] after_restores(t, (j - 1) as nat);
        &&& commit_expects(u, CommitEvent::Restored)
        &&& spec_commit_step(u, CommitEvent::Restored).1 == if j < k {
            CommitStep::Restore(s.backups[k - 1 - j].0, s.backups[k - 1 - j].1)
        } else {
            CommitStep::Finish(Err(err))
        }
    } by {
        lemma_rolling_back(t, (j - 1) as nat);
    }
}

/// The moved-aside copies are removed, and the commit succeeds, only once
/// every staged file is installed: a step leads to clean-up or success only
/// from clean-up, or from the install of the last staged file.
pub proof fn lemma_cleanup_follows_installs(s: CommitView, e: CommitEvent)
    requires
        commit_expects(s, e),
    ensures
        (spec_commit_step(s, e).0.phase == CommitPhase::Cleaning || spec_commit_step(s, e).1 == CommitStep::Finish(Ok(())))
            ==> (s.phase == CommitPhase::Cleaning || (e matches CommitEvent::Installed(Ok(_)) && s.next + 1 == s.files.len())),
{
}


/// The commit after the first `n` reports, and the step it then asks for.
pub open spec fn commit_run(files: Seq<(Seq<char>, Seq<char>)>, es: Seq<CommitEvent>, n: nat) -> (CommitView, CommitStep)
    decreases n,
{
    if n == 0 || n > es.len() {
        spec_continue(commit_begin(files))
    } else {
        spec_commit_step(commit_run(files, es, (n - 1) as nat).0, es[n - 1])
    }
}

/// What a step does to the files, path by path, when the file system does
/// what the report says: a destination moved aside lives on under its new
/// path, an installed staged file replaces its destination, a restore puts
/// the moved-aside copy back in place of the destination, and a removal
/// deletes the copy.
pub open spec fn file_step(fs: Map<Seq<char>, Seq<char>>, a: CommitStep, e: CommitEvent) -> Map<Seq<char>, Seq<char>> {
    match a {
        CommitStep::BackUp(d) => match e {
            CommitEvent::BackedUp(Ok(Some(b))) => fs.remove(d).insert(b@, fs[d]),
            _ => fs,
        },
        CommitStep::Install(f, d) => match e {
            CommitEvent::Installed(Ok(_)) => fs.remove(f).insert(d, fs[f]),
            _ => fs,
        },
        CommitStep::Restore(d, b) => if fs.contains_key(b) {
            fs.remove(d).remove(b).insert(d, fs[b])
        } else {
            fs.remove(d)
        },
        CommitStep::RemoveBackup(b) => fs.remove(b),
        CommitStep::Finish(_) => fs,
    }
}

/// The files after the first `n` reports.
pub open spec fn files_run(fs0: Map<Seq<char>, Seq<char>>, files: Seq<(Seq<char>, Seq<char>)>, es: Seq<CommitEvent>, n: nat) -> Map<
    Seq<char>,
    Seq<char>,
>
    decreases n,
{
    if n == 0 || n > es.len() {
        fs0
    } else {
        file_step(files_run(fs0, files, es, (n - 1) as nat), commit_run(files, es, (n - 1) as nat).1, es[n - 1])
    }
}

/// The path is neither a staged file nor a destination.
pub open spec fn unused_path(files: Seq<(Seq<char>, Seq<char>)>, p: Seq<char>) -> bool {
    forall|j: int| 0 <= j < files.len() ==> (#[trigger] files[j]).0 != p && files[j].1 != p
}

/// The report agrees with the files: a destination is moved aside exactly
/// when it exists, to a path that is free and unused by the commit, and a
/// staged file installed exists.
pub open spec fn truthful(fs: Map<Seq<char>, Seq<char>>, s: CommitView, a: CommitStep, e: CommitEvent) -> bool {
    match (a, e) {
        (CommitStep::BackUp(d), CommitEvent::BackedUp(Ok(None))) => !fs.contains_key(d),
        (CommitStep::BackUp(d), CommitEvent::BackedUp(Ok(Some(b)))) => fs.contains_key(d) && !fs.contains_key(b@) && unused_path(s.files, b@),
        (CommitStep::Install(f, _), CommitEvent::Installed(Ok(_))) => fs.contains_key(f),
        _ => true,
    }
}

/// The destinations are distinct, and no staged file is a destination.
pub open spec fn distinct_paths(files: Seq<(Seq<char>, Seq<char>)>) -> bool {
    &&& forall|i: int, j: int| 0 <= i < files.len() && 0 <= j < files.len() && i != j ==> (#[trigger] files[i]).1 != (#[trigger] files[j]).1
    &&& forall|i: int, j: int| 0 <= i < files.len() && 0 <= j < files.len() ==> (#[trigger] files[i]).0 != (#[trigger] files[j]).1
}

spec fn is_destination(files: Seq<(Seq<char>, Seq<char>)>, p: Seq<char>) -> bool {
    exists|j: int| 0 <= j < files.len() && (#[trigger] files[j]).1 == p
}

spec fn well_placed(s: CommitView) -> bool {
    match s.phase {
        CommitPhase::BackingUp => s.next < s.files.len(),
        CommitPhase::Installing => s.next < s.files.len(),
        CommitPhase::RollingBack => 0 < s.next <= s.backups.len() && s.failure is Some,
        CommitPhase::Cleaning => s.next < s.backups.len(),
        CommitPhase::Done => true,
    }
}

spec fn action_of(s: CommitView) -> CommitStep {
    match s.phase {
        CommitPhase::BackingUp => CommitStep::BackUp(s.files[s.next as int].1),
        CommitPhase::Installing => CommitStep::Install(s.files[s.next as int].0, s.files[s.next as int].1),
        CommitPhase::RollingBack => CommitStep::Restore(s.backups[s.next - 1].0, s.backups[s.next - 1].1),
        CommitPhase::Cleaning => CommitStep::RemoveBackup(s.backups[s.next as int].1),
        CommitPhase::Done => CommitStep::Finish(Ok(())),
    }
}

spec fn copies_ok(fs0: Map<Seq<char>, Seq<char>>, files: Seq<(Seq<char>, Seq<char>)>, s: CommitView) -> bool {
    &&& forall|m: int| 0 <= m < s.backups.len() ==> {
        &&& is_destination(files, (#[trigger] s.backups[m]).0)
        &&& fs0.contains_key(s.backups[m].0)
        &&& unused_path(files, s.backups[m].1)
    }
    &&& forall|m1: int, m2: int| 0 <= m1 < s.backups.len() && 0 <= m2 < s.backups.len() && m1 != m2
        ==> (#[trigger] s.backups[m1]).0 != (#[trigger] s.backups[m2]).0 && s.backups[m1].1 != s.backups[m2].1
}

spec fn live_count(s: CommitView) -> int {
    if s.phase == CommitPhase::RollingBack { s.next as int } else { s.backups.len() as int }
}

spec fn copies_live(fs0: Map<Seq<char>, Seq<char>>, s: CommitView, fs: Map<Seq<char>, Seq<char>>) -> bool {
    forall|m: int| 0 <= m < live_count(s) ==> fs.contains_key((#[trigger] s.backups[m]).1) && fs[s.backups[m].1] == fs0[s.backups[m].0]
}

spec fn restored_from(fs0: Map<Seq<char>, Seq<char>>, s: CommitView, fs: Map<Seq<char>, Seq<char>>, from: int) -> bool {
    forall|m: int| from <= m < s.backups.len() ==> fs.contains_key((#[trigger] s.backups[m]).0) && fs[s.backups[m].0] == fs0[s.backups[m].0]
}

spec fn covered_before(fs0: Map<Seq<char>, Seq<char>>, files: Seq<(Seq<char>, Seq<char>)>, s: CommitView, k: int) -> bool {
    forall|j: int| 0 <= j < k && fs0.contains_key(#[trigger] files[j].1) ==> exists|m: int| 0 <= m < s.backups.len()
        && (#[trigger] s.backups[m]).0 == files[j].1
}

spec fn untouched_from(fs0: Map<Seq<char>, Seq<char>>, files: Seq<(Seq<char>, Seq<char>)>, fs: Map<Seq<char>, Seq<char>>, k: int) -> bool {
    forall|j: int| k <= j < files.len() ==> {
        &&& fs.contains_key(#[trigger] files[j].1) == fs0.contains_key(files[j].1)
        &&& fs0.contains_key(files[j].1) ==> fs[files[j].1] == fs0[files[j].1]
    }
}

spec fn moved_aside(s: CommitView, fs: Map<Seq<char>, Seq<char>>) -> bool {
    forall|m: int| 0 <= m < s.backups.len() ==> !fs.contains_key((#[trigger] s.backups[m]).0)
}

spec fn commit_inv(fs0: Map<Seq<char>, Seq<char>>, files: Seq<(Seq<char>, Seq<char>)>, s: CommitView, fs: Map<Seq<char>, Seq<char>>, a: CommitStep) -> bool {
    &&& s.files == files
    &&& copies_ok(fs0, files, s)
    &&& (s.phase != CommitPhase::Done ==> well_placed(s) && a == action_of(s))
    &&& match s.phase {
        CommitPhase::BackingUp => covered_before(fs0, files, s, s.next as int) && untouched_from(fs0, files, fs, s.next as int)
            && moved_aside(s, fs) && copies_live(fs0, s, fs),
        CommitPhase::Installing => covered_before(fs0, files, s, files.len() as int) && copies_live(fs0, s, fs),
        CommitPhase::RollingBack => covered_before(fs0, files, s, files.len() as int) && copies_live(fs0, s, fs)
            && restored_from(fs0, s, fs, s.next as int),
        CommitPhase::Cleaning => true,
        CommitPhase::Done => a is Finish && (a matches CommitStep::Finish(Err(_)) ==> covered_before(fs0, files, s, files.len() as int)
            && restored_from(fs0, s, fs, 0)),
    }
}


spec fn pre_inv(fs0: Map<Seq<char>, Seq<char>>, files: Seq<(Seq<char>, Seq<char>)>, t: CommitView, fs: Map<Seq<char>, Seq<char>>) -> bool {
    &&& t.files == files
    &&& copies_ok(fs0, files, t)
    &&& match t.phase {
        CommitPhase::BackingUp => t.next <= files.len() && covered_before(fs0, files, t, t.next as int)
            && untouched_from(fs0, files, fs, t.next as int) && moved_aside(t, fs) && copies_live(fs0, t, fs),
        CommitPhase::Installing => t.next <= files.len() && covered_before(fs0, files, t, files.len() as int) && copies_live(fs0, t, fs),
        CommitPhase::RollingBack => t.next <= t.backups.len() && t.failure is Some && covered_before(fs0, files, t, files.len() as int)
            && copies_live(fs0, t, fs) && restored_from(fs0, t, fs, t.next as int),
        CommitPhase::Cleaning => true,
        CommitPhase::Done => false,
    }
}

proof fn lemma_continue_inv(fs0: Map<Seq<char>, Seq<char>>, files: Seq<(Seq<char>, Seq<char>)>, t: CommitView, fs: Map<Seq<char>, Seq<char>>)
    requires
        pre_inv(fs0, files, t, fs),
    ensures
        commit_inv(fs0, files, spec_continue(t).0, fs, spec_continue(t).1),
{
    let (u, a) = spec_continue(t);
    if t.phase == CommitPhase::BackingUp && t.next >= t.files.len() && t.files.len() > 0 {
        assert forall|j: int| 0 <= j < files.len() && fs0.contains_key(#[trigger] files[j].1) implies exists|m: int|
            0 <= m < u.backups.len() && (#[trigger] u.backups[m]).0 == files[j].1 by {
            assert(u.backups == t.backups);
            assert(j < t.next);
            let m = choose|m: int| 0 <= m < t.backups.len() && (#[trigger] t.backups[m]).0 == files[j].1;
            assert(u.backups[m].0 == files[j].1);
        }
    }
}


/// The commit just before it picks its next step from a report.
spec fn step_pre(s: CommitView, e: CommitEvent) -> CommitView {
    match e {
        CommitEvent::BackedUp(Ok(Some(b))) => CommitView {
            backups: s.backups.push((s.files[s.next as int].1, b@)),
            next: s.next + 1,
            ..s
        },
        CommitEvent::Installed(Err(err)) => CommitView {
            phase: CommitPhase::RollingBack,
            next: s.backups.len(),
            failure: Some(err),
            ..s
        },
        CommitEvent::Restored => CommitView { next: (s.next - 1) as nat, ..s },
        _ => CommitView { next: s.next + 1, ..s },
    }
}

proof fn lemma_step_pre(
    fs0: Map<Seq<char>, Seq<char>>,
    files: Seq<(Seq<char>, Seq<char>)>,
    s: CommitView,
    fs: Map<Seq<char>, Seq<char>>,
    a: CommitStep,
    e: CommitEvent,
)
    requires
        distinct_paths(files),
        commit_inv(fs0, files, s, fs, a),
        commit_expects(s, e),
        truthful(fs, s, a, e),
        !(e matches CommitEvent::BackedUp(Err(_))),
    ensures
        pre_inv(fs0, files, step_pre(s, e), file_step(fs, a, e)),
        spec_commit_step(s, e) == spec_continue(step_pre(s, e)),
{
    let fs2 = file_step(fs, a, e);
    match e {
        CommitEvent::BackedUp(Ok(None)) => {
            let t = CommitView { next: s.next + 1, ..s };
            let d = files[s.next as int].1;
            assert(!fs0.contains_key(d));
            assert forall|j: int| 0 <= j < t.next && fs0.contains_key(#[trigger] files[j].1) implies exists|m: int|
                0 <= m < t.backups.len() && (#[trigger] t.backups[m]).0 == files[j].1 by {
                if j < s.next {
                    let m = choose|m: int| 0 <= m < s.backups.len() && (#[trigger] s.backups[m]).0 == files[j].1;
                    assert(t.backups[m].0 == files[j].1);
                }
            }
            assert(t == step_pre(s, e));
        },
        CommitEvent::BackedUp(Ok(Some(bs))) => {
            let b = bs@;
            let k = s.next as int;
            let d = files[k].1;
            let t = CommitView { backups: s.backups.push((d, b)), next: s.next + 1, ..s };
            let n = s.backups.len() as int;
            assert(fs2 == fs.remove(d).insert(b, fs[d]));
            assert(d != b);
            assert(fs0.contains_key(d) && fs[d] == fs0[d]);
            assert(is_destination(files, d));
            assert forall|m: int| 0 <= m < n implies (#[trigger] s.backups[m]).1 != b && s.backups[m].0 != d
                && s.backups[m].1 != d && s.backups[m].0 != b by {
                assert(fs.contains_key(s.backups[m].1));
                assert(!fs.contains_key(s.backups[m].0));
                let j = choose|j: int| 0 <= j < files.len() && (#[trigger] files[j]).1 == s.backups[m].0;
                assert(files[k].1 != s.backups[m].1);
                assert(files[j].1 != b);
            }
            assert forall|m: int| 0 <= m < t.backups.len() implies {
                &&& is_destination(files, (#[trigger] t.backups[m]).0)
                &&& fs0.contains_key(t.backups[m].0)
                &&& unused_path(files, t.backups[m].1)
            } by {
                if m < n {
                    assert(t.backups[m] == s.backups[m]);
                }
            }
            assert forall|m1: int, m2: int| 0 <= m1 < t.backups.len() && 0 <= m2 < t.backups.len() && m1 != m2
                implies (#[trigger] t.backups[m1]).0 != (#[trigger] t.backups[m2]).0 && t.backups[m1].1 != t.backups[m2].1 by {
                if m1 < n {
                    assert(t.backups[m1] == s.backups[m1]);
                }
                if m2 < n {
                    assert(t.backups[m2] == s.backups[m2]);
                }
            }
            assert forall|m: int| 0 <= m < live_count(t) implies fs2.contains_key((#[trigger] t.backups[m]).1)
                && fs2[t.backups[m].1] == fs0[t.backups[m].0] by {
                if m < n {
                    assert(t.backups[m] == s.backups[m]);
                }
            }
            assert forall|m: int| 0 <= m < t.backups.len() implies !fs2.contains_key((#[trigger] t.backups[m]).0) by {
                if m < n {
                    assert(t.backups[m] == s.backups[m]);
                }
            }
            assert forall|j: int| 0 <= j < t.next && fs0.contains_key(#[trigger] files[j].1) implies exists|m: int|
                0 <= m < t.backups.len() && (#[trigger] t.backups[m]).0 == files[j].1 by {
                if j < k {
                    let m = choose|m: int| 0 <= m < s.backups.len() && (#[trigger] s.backups[m]).0 == files[j].1;
                    assert(t.backups[m] == s.backups[m]);
                } else {
                    assert(t.backups[n].0 == files[j].1);
                }
            }
            assert forall|j: int| t.next <= j < files.len() implies {
                &&& fs2.contains_key(#[trigger] files[j].1) == fs0.contains_key(files[j].1)
                &&& fs0.contains_key(files[j].1) ==> fs2[files[j].1] == fs0[files[j].1]
            } by {
                assert(files[j].1 != d);
            }
            assert(t == step_pre(s, e));
        },
        CommitEvent::Installed(Ok(_)) => {
            let f = files[s.next as int].0;
            let d = files[s.next as int].1;
            let t = CommitView { next: s.next + 1, ..s };
            assert(fs2 == fs.remove(f).insert(d, fs[f]));
            assert forall|m: int| 0 <= m < live_count(t) implies fs2.contains_key((#[trigger] t.backups[m]).1)
                && fs2[t.backups[m].1] == fs0[t.backups[m].0] by {
                assert(s.backups[m].1 != f && s.backups[m].1 != d);
            }
            lemma_covered_same(fs0, files, s, t, files.len() as int);
            assert(t == step_pre(s, e));
        },
        CommitEvent::Installed(Err(err)) => {
            let t = CommitView { phase: CommitPhase::RollingBack, next: s.backups.len(), failure: Some(err), ..s };
            assert(t == step_pre(s, e));
        },
        CommitEvent::Restored => {
            let r = s.next as int;
            let d = s.backups[r - 1].0;
            let b = s.backups[r - 1].1;
            let t = CommitView { next: (s.next - 1) as nat, ..s };
            assert(fs.contains_key(b));
            assert(fs2 == fs.remove(d).remove(b).insert(d, fs[b]));
            let j = choose|j: int| 0 <= j < files.len() && (#[trigger] files[j]).1 == d;
            assert(d != b);
            assert forall|m: int| 0 <= m < s.backups.len() && m != r - 1 implies (#[trigger] s.backups[m]).0 != d
                && s.backups[m].0 != b && s.backups[m].1 != d && s.backups[m].1 != b by {
                let jm = choose|jm: int| 0 <= jm < files.len() && (#[trigger] files[jm]).1 == s.backups[m].0;
                assert(files[jm].1 != b);
                assert(files[j].1 != s.backups[m].1);
            }
            assert forall|m: int| 0 <= m < live_count(t) implies fs2.contains_key((#[trigger] t.backups[m]).1)
                && fs2[t.backups[m].1] == fs0[t.backups[m].0] by {}
            assert forall|m: int| t.next <= m < t.backups.len() implies fs2.contains_key((#[trigger] t.backups[m]).0)
                && fs2[t.backups[m].0] == fs0[t.backups[m].0] by {}
            assert(t == step_pre(s, e));
        },
        CommitEvent::Removed => {
            let t = CommitView { next: s.next + 1, ..s };
            assert(t == step_pre(s, e));
        },
        CommitEvent::BackedUp(Err(_)) => {},
    }
}


proof fn lemma_step_inv(
    fs0: Map<Seq<char>, Seq<char>>,
    files: Seq<(Seq<char>, Seq<char>)>,
    s: CommitView,
    fs: Map<Seq<char>, Seq<char>>,
    a: CommitStep,
    e: CommitEvent,
)
    requires
        distinct_paths(files),
        commit_inv(fs0, files, s, fs, a),
        commit_expects(s, e),
        truthful(fs, s, a, e),
        !(e matches CommitEvent::BackedUp(Err(_))),
    ensures
        commit_inv(fs0, files, spec_commit_step(s, e).0, file_step(fs, a, e), spec_commit_step(s, e).1),
{
    lemma_step_pre(fs0, files, s, fs, a, e);
    lemma_continue_inv(fs0, files, step_pre(s, e), file_step(fs, a, e));
}

proof fn lemma_covered_same(fs0: Map<Seq<char>, Seq<char>>, files: Seq<(Seq<char>, Seq<char>)>, s: CommitView, t: CommitView, k: int)
    requires
        t.backups == s.backups,
        covered_before(fs0, files, s, k),
    ensures
        covered_before(fs0, files, t, k),
{
    assert forall|j: int| 0 <= j < k && fs0.contains_key(#[trigger] files[j].1) implies exists|m: int|
        0 <= m < t.backups.len() && (#[trigger] t.backups[m]).0 == files[j].1 by {
        let m = choose|m: int| 0 <= m < s.backups.len() && (#[trigger] s.backups[m]).0 == files[j].1;
        assert(t.backups[m].0 == files[j].1);
    }
}


/// Every report of the run is the one awaited, agrees with the files, and
/// is not a failure to move a destination aside.
pub open spec fn faithful_run(fs0: Map<Seq<char>, Seq<char>>, files: Seq<(Seq<char>, Seq<char>)>, es: Seq<CommitEvent>) -> bool {
    forall|i: int| 0 <= i < es.len() ==> {
        let (s, a) = #[trigger] commit_run(files, es, i as nat);
        &&& commit_expects(s, es[i])
        &&& truthful(files_run(fs0, files, es, i as nat), s, a, es[i])
        &&& !(es[i] matches CommitEvent::BackedUp(Err(_)))
    }
}

proof fn lemma_run_inv(fs0: Map<Seq<char>, Seq<char>>, files: Seq<(Seq<char>, Seq<char>)>, es: Seq<CommitEvent>, n: nat)
    requires
        distinct_paths(files),
        faithful_run(fs0, files, es),
        n <= es.len(),
    ensures
        commit_inv(fs0, files, commit_run(files, es, n).0, files_run(fs0, files, es, n), commit_run(files, es, n).1),
    decreases n,
{
    if n == 0 {
        let t = commit_begin(files);
        assert(untouched_from(fs0, files, fs0, 0));
        lemma_continue_inv(fs0, files, t, fs0);
    } else {
        let k = (n - 1) as nat;
        lemma_run_inv(fs0, files, es, k);
        let (s, a) = commit_run(files, es, k);
        assert(commit_expects(s, es[k as int]));
        lemma_step_inv(fs0, files, s, files_run(fs0, files, es, k), a, es[k as int]);
    }
}

/// A failed commit puts the files back: when the file system does what
/// each report says, a commit that ends in failure (a rename over a
/// destination failed) leaves every destination that existed before it
/// with its old content.
pub proof fn lemma_failed_commit_restores(fs0: Map<Seq<char>, Seq<char>>, files: Seq<(Seq<char>, Seq<char>)>, es: Seq<CommitEvent>)
    requires
        distinct_paths(files),
        faithful_run(fs0, files, es),
        commit_run(files, es, es.len()).1 matches CommitStep::Finish(Err(_)),
    ensures
        forall|j: int| 0 <= j < files.len() && fs0.contains_key(#[trigger] files[j].1) ==> {
            let fs = files_run(fs0, files, es, es.len());
            fs.contains_key(files[j].1) && fs[files[j].1] == fs0[files[j].1]
        },
{
    lemma_run_inv(fs0, files, es, es.len());
    let (s, a) = commit_run(files, es, es.len());
    let fs = files_run(fs0, files, es, es.len());
    assert(s.phase == CommitPhase::Done);
    assert forall|j: int| 0 <= j < files.len() && fs0.contains_key(#[trigger] files[j].1) implies fs.contains_key(files[j].1)
        && fs[files[j].1] == fs0[files[j].1] by {
        let m = choose|m: int| 0 <= m < s.backups.len() && (#[trigger] s.backups[m]).0 == files[j].1;
    }
}


/// No two staged files share a path.
pub open spec fn distinct_staged(files: Seq<(Seq<char>, Seq<char>)>) -> bool {
    forall|i: int, j: int| 0 <= i < files.len() && 0 <= j < files.len() && i != j ==> (#[trigger] files[i]).0 != (#[trigger] files[j]).0
}

spec fn staged_kept(fs0: Map<Seq<char>, Seq<char>>, files: Seq<(Seq<char>, Seq<char>)>, fs: Map<Seq<char>, Seq<char>>, from: int) -> bool {
    forall|j: int| from <= j < files.len() ==> {
        &&& fs.contains_key(#[trigger] files[j].0) == fs0.contains_key(files[j].0)
        &&& fs0.contains_key(files[j].0) ==> fs[files[j].0] == fs0[files[j].0]
    }
}

spec fn installed_upto(fs0: Map<Seq<char>, Seq<char>>, files: Seq<(Seq<char>, Seq<char>)>, fs: Map<Seq<char>, Seq<char>>, k: int) -> bool {
    forall|j: int| 0 <= j < k ==> fs0.contains_key(#[trigger] files[j].0) && fs.contains_key(files[j].1) && fs[files[j].1] == fs0[files[j].0]
}

spec fn copies_gone(s: CommitView, fs: Map<Seq<char>, Seq<char>>, k: int) -> bool {
    forall|m: int| 0 <= m < k && m < s.backups.len() ==> !fs.contains_key((#[trigger] s.backups[m]).1)
}

spec fn success_inv(fs0: Map<Seq<char>, Seq<char>>, files: Seq<(Seq<char>, Seq<char>)>, s: CommitView, fs: Map<Seq<char>, Seq<char>>, a: CommitStep) -> bool {
    match s.phase {
        CommitPhase::BackingUp => staged_kept(fs0, files, fs, 0),
        CommitPhase::Installing => staged_kept(fs0, files, fs, s.next as int) && installed_upto(fs0, files, fs, s.next as int),
        CommitPhase::RollingBack => true,
        CommitPhase::Cleaning => installed_upto(fs0, files, fs, files.len() as int) && copies_gone(s, fs, s.next as int),
        CommitPhase::Done => a matches CommitStep::Finish(Ok(_)) ==> installed_upto(fs0, files, fs, files.len() as int)
            && copies_gone(s, fs, s.backups.len() as int),
    }
}

spec fn success_pre(fs0: Map<Seq<char>, Seq<char>>, files: Seq<(Seq<char>, Seq<char>)>, t: CommitView, fs: Map<Seq<char>, Seq<char>>) -> bool {
    match t.phase {
        CommitPhase::BackingUp => staged_kept(fs0, files, fs, 0),
        CommitPhase::Installing => staged_kept(fs0, files, fs, t.next as int) && installed_upto(fs0, files, fs, t.next as int),
        CommitPhase::RollingBack => true,
        CommitPhase::Cleaning => installed_upto(fs0, files, fs, files.len() as int) && copies_gone(t, fs, t.next as int),
        CommitPhase::Done => false,
    }
}

proof fn lemma_continue_success(fs0: Map<Seq<char>, Seq<char>>, files: Seq<(Seq<char>, Seq<char>)>, t: CommitView, fs: Map<Seq<char>, Seq<char>>)
    requires
        pre_inv(fs0, files, t, fs),
        success_pre(fs0, files, t, fs),
    ensures
        success_inv(fs0, files, spec_continue(t).0, fs, spec_continue(t).1),
{
}

proof fn lemma_step_success(
    fs0: Map<Seq<char>, Seq<char>>,
    files: Seq<(Seq<char>, Seq<char>)>,
    s: CommitView,
    fs: Map<Seq<char>, Seq<char>>,
    a: CommitStep,
    e: CommitEvent,
)
    requires
        distinct_paths(files),
        distinct_staged(files),
        commit_inv(fs0, files, s, fs, a),
        success_inv(fs0, files, s, fs, a),
        commit_expects(s, e),
        truthful(fs, s, a, e),
        !(e matches CommitEvent::BackedUp(Err(_))),
    ensures
        success_inv(fs0, files, spec_commit_step(s, e).0, file_step(fs, a, e), spec_commit_step(s, e).1),
{
    lemma_step_pre(fs0, files, s, fs, a, e);
    let fs2 = file_step(fs, a, e);
    match e {
        CommitEvent::BackedUp(Ok(None)) => {
            let t = CommitView { next: s.next + 1, ..s };
            assert(t == step_pre(s, e));
            lemma_continue_success(fs0, files, t, fs2);
        },
        CommitEvent::BackedUp(Ok(Some(bs))) => {
            let b = bs@;
            let k = s.next as int;
            let d = files[k].1;
            let t = CommitView { backups: s.backups.push((d, b)), next: s.next + 1, ..s };
            assert(fs2 == fs.remove(d).insert(b, fs[d]));
            assert forall|j: int| 0 <= j < files.len() implies {
                &&& fs2.contains_key(#[trigger] files[j].0) == fs0.contains_key(files[j].0)
                &&& fs0.contains_key(files[j].0) ==> fs2[files[j].0] == fs0[files[j].0]
            } by {
                assert(files[j].0 != d);
                assert(files[j].0 != b);
            }
            assert(t == step_pre(s, e));
            lemma_continue_success(fs0, files, t, fs2);
        },
        CommitEvent::Installed(Ok(_)) => {
            let k = s.next as int;
            let f = files[k].0;
            let d = files[k].1;
            let t = CommitView { next: s.next + 1, ..s };
            assert(fs2 == fs.remove(f).insert(d, fs[f]));
            assert forall|j: int| k + 1 <= j < files.len() implies {
                &&& fs2.contains_key(#[trigger] files[j].0) == fs0.contains_key(files[j].0)
                &&& fs0.contains_key(files[j].0) ==> fs2[files[j].0] == fs0[files[j].0]
            } by {
                assert(files[j].0 != f);
                assert(files[j].0 != d);
            }
            assert forall|j: int| 0 <= j < k + 1 implies fs0.contains_key(#[trigger] files[j].0) && fs2.contains_key(files[j].1)
                && fs2[files[j].1] == fs0[files[j].0] by {
                if j < k {
                    assert(files[j].1 != f);
                    assert(files[j].1 != d);
                }
            }
            assert(t == step_pre(s, e));
            lemma_continue_success(fs0, files, t, fs2);
        },
        CommitEvent::Removed => {
            let m0 = s.next as int;
            let b = s.backups[m0].1;
            let t = CommitView { next: s.next + 1, ..s };
            assert(fs2 == fs.remove(b));
            assert(t == step_pre(s, e));
            assert forall|j: int| 0 <= j < files.len() implies fs0.contains_key(#[trigger] files[j].0) && fs2.contains_key(files[j].1)
                && fs2[files[j].1] == fs0[files[j].0] by {
                assert(files[j].1 != b);
            }
            lemma_continue_success(fs0, files, t, fs2);
        },
        _ => {},
    }
}


proof fn lemma_run_success(fs0: Map<Seq<char>, Seq<char>>, files: Seq<(Seq<char>, Seq<char>)>, es: Seq<CommitEvent>, n: nat)
    requires
        distinct_paths(files),
        distinct_staged(files),
        faithful_run(fs0, files, es),
        n <= es.len(),
    ensures
        success_inv(fs0, files, commit_run(files, es, n).0, files_run(fs0, files, es, n), commit_run(files, es, n).1),
    decreases n,
{
    if n == 0 {
        let t = commit_begin(files);
        assert(untouched_from(fs0, files, fs0, 0));
        lemma_continue_success(fs0, files, t, fs0);
    } else {
        let k = (n - 1) as nat;
        lemma_run_inv(fs0, files, es, k);
        lemma_run_success(fs0, files, es, k);
        let (s, a) = commit_run(files, es, k);
        assert(commit_expects(s, es[k as int]));
        lemma_step_success(fs0, files, s, files_run(fs0, files, es, k), a, es[k as int]);
    }
}

/// A successful commit installs every staged file and leaves no copy
/// behind: when the file system does what each report says, a commit that
/// ends in success leaves each destination with its staged file's content,
/// and every destination that was moved aside has its copy removed.
pub proof fn lemma_successful_commit_installs(fs0: Map<Seq<char>, Seq<char>>, files: Seq<(Seq<char>, Seq<char>)>, es: Seq<CommitEvent>)
    requires
        distinct_paths(files),
        distinct_staged(files),
        faithful_run(fs0, files, es),
        commit_run(files, es, es.len()).1 matches CommitStep::Finish(Ok(_)),
    ensures
        ({
            let fs = files_run(fs0, files, es, es.len());
            let backups = commit_run(files, es, es.len()).0.backups;
            &&& forall|j: int| 0 <= j < files.len() ==> fs0.contains_key(#[trigger] files[j].0) && fs.contains_key(files[j].1)
                && fs[files[j].1] == fs0[files[j].0]
            &&& forall|m: int| 0 <= m < backups.len() ==> !fs.contains_key((#[trigger] backups[m]).1)
        }),
{
    lemma_run_inv(fs0, files, es, es.len());
    lemma_run_success(fs0, files, es, es.len());
}

} // verus!
