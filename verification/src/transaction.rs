//! Writing every pin at once: what is staged for each pin, and the order in
//! which staged files replace their destinations.
use crate::config::{opt_text, PinConfig};
use crate::error::{join2, join5, Error};
use crate::flake_update::{replace_rev, spec_replace_rev};
use crate::flakeref::{append_rev, spec_append_rev};
use crate::runner::revision_order_verdict;
use crate::text::{copy_string, decimal, owned, text_eq, texts, u128_text, u64_text};
use vstd::prelude::*;

verus! {

/// The temporary files of a transaction: the staged lock, and the files to
/// remove unless the transaction commits.
#[derive(Debug)]
pub struct TempFiles {
    pub staged_lock: Option<String>,
    pub cleanup: Vec<String>,
}

impl TempFiles {
    /// No temporary files yet.
    pub fn new() -> (r: Self)
        ensures
            r.staged_lock is None,
            r.cleanup@.len() == 0,
    {
        TempFiles { staged_lock: None, cleanup: Vec::new() }
    }

    /// Keeps the temporary files: the transaction committed them.
    pub fn disarm(&mut self)
        ensures
            final(self).cleanup@.len() == 0,
            final(self).staged_lock == old(self).staged_lock,
    {
        self.cleanup.clear();
    }

    /// Records the staged copy of the lock, which is removed unless the
    /// transaction commits.
    pub fn stage_lock(&mut self, path: String)
        ensures
            opt_text(final(self).staged_lock) == Some(path@),
            texts(final(self).cleanup@) == texts(old(self).cleanup@).push(path@),
    {
        let ghost before = texts(self.cleanup@);
        self.cleanup.push(copy_string(&path));
        assert(texts(self.cleanup@) =~= before.push(path@));
        self.staged_lock = Some(path);
    }
}

/// The name of a staging file next to `file_name` (or `flake` when the path
/// has no file name).
pub open spec fn spec_staging_name(file_name: Option<Seq<char>>, kind: Seq<char>, stamp: nat, pid: nat) -> Seq<char> {
    "."@ + (match file_name {
        Some(f) => f,
        None => "flake"@,
    }) + ".cache-pin-"@ + kind + "-"@ + decimal(stamp) + "-"@ + decimal(pid)
}

/// A staging file never takes a destination's name: it is hidden (its name
/// starts with a dot), and it is longer than the name it stands next to.
pub proof fn lemma_staging_name_is_fresh(file_name: Option<Seq<char>>, kind: Seq<char>, stamp: nat, pid: nat, d: Seq<char>)
    ensures
        spec_staging_name(file_name, kind, stamp, pid).len() > 0,
        spec_staging_name(file_name, kind, stamp, pid)[0] == '.',
        (d.len() == 0 || d[0] != '.') ==> spec_staging_name(file_name, kind, stamp, pid) != d,
        file_name matches Some(f) ==> spec_staging_name(file_name, kind, stamp, pid).len() > f.len(),
{
    reveal_strlit(".");
    reveal_strlit(".cache-pin-");
    let n = spec_staging_name(file_name, kind, stamp, pid);
    let name = match file_name {
        Some(f) => f,
        None => "flake"@,
    };
    assert(n == "."@ + name + ".cache-pin-"@ + kind + "-"@ + decimal(stamp) + "-"@ + decimal(pid));
    assert(n[0] == '.');
    if n == d && d.len() > 0 {
        assert(d[0] == '.');
    }
}

/// Names a staging file next to a destination.
pub fn staging_name(file_name: Option<&str>, kind: &str, stamp: u128, pid: u32) -> (r: String)
    ensures
        r@ == spec_staging_name(match file_name {
            Some(f) => Some(f@),
            None => None,
        }, kind@, stamp as nat, pid as nat),
{
    let name = match file_name {
        Some(f) => f,
        None => "flake",
    };
    let head = join5(".", name, ".cache-pin-", kind, "-");
    let r = crate::error::join4(head.as_str(), u128_text(stamp).as_str(), "-", u64_text(pid as u64).as_str());
    assert(r@ =~= spec_staging_name(match file_name {
        Some(f) => Some(f@),
        None => None,
    }, kind@, stamp as nat, pid as nat));
    r
}

/// The revision each pinned input moves to.
pub fn revisions(successes: &Vec<(PinConfig, String)>) -> (r: Vec<(String, String)>)
    ensures
        r@.len() == successes@.len(),
        forall|i: int| 0 <= i < r@.len() ==> (#[trigger] r@[i]).0@ == successes@[i].0.input_name@ && r@[i].1@ == successes@[i].1@,
{
    let mut out: Vec<(String, String)> = Vec::new();
    let mut i: usize = 0;
    while i < successes.len()
        invariant
            i <= successes@.len(),
            out@.len() == i,
            forall|j: int| 0 <= j < i ==> (#[trigger] out@[j]).0@ == successes@[j].0.input_name@ && out@[j].1@ == successes@[j].1@,
        decreases successes@.len() - i,
    {
        out.push((copy_string(&successes[i].0.input_name), copy_string(&successes[i].1)));
        i = i + 1;
    }
    out
}

/// What the transaction does with one pin once its revision order is
/// checked.
#[derive(Debug)]
pub enum PinStaging {
    /// The pin is already at its target revision.
    UpToDate,
    /// Nothing to stage for this pin.
    Nothing,
    /// Re-lock the staged lock with the input pinned to this reference.
    Relock(String),
}

/// The staged files of a transaction.
#[derive(Debug)]
pub struct Transaction {
    pub original_flake_nix: String,
    pub staged_flake_nix: String,
    pub no_lock: bool,
}

impl Transaction {
    /// Starts a transaction on the consuming flake's `flake.nix`.
    pub fn new(original_flake_nix: String, no_lock: bool) -> (r: Self)
        ensures
            r.original_flake_nix@ == original_flake_nix@,
            r.staged_flake_nix@ == original_flake_nix@,
            r.no_lock == no_lock,
    {
        let staged = copy_string(&original_flake_nix);
        Transaction { original_flake_nix, staged_flake_nix: staged, no_lock }
    }

    /// Stages one pin after its revision-order check: a pin already at its
    /// target needs nothing; a refused move aborts the transaction; a
    /// lock-only pin changes only the lock, and nothing without locking; any
    /// other pin has its URL rewritten in the staged `flake.nix`; the lock
    /// is re-locked unless locking is off.
    pub fn stage_pin(&mut self, cfg: &PinConfig, current: &str, target: &str, verdict: Result<(), Error>) -> (r: Result<PinStaging, Error>)
        ensures
            final(self).original_flake_nix == old(self).original_flake_nix,
            final(self).no_lock == old(self).no_lock,
            current@ == target@ ==> (r matches Ok(PinStaging::UpToDate)) && final(self).staged_flake_nix == old(self).staged_flake_nix,
            current@ != target@ ==> match verdict {
                Err(e) => r == Err::<PinStaging, Error>(e) && final(self).staged_flake_nix == old(self).staged_flake_nix,
                Ok(()) => {
                    &&& final(self).staged_flake_nix@ == if cfg.lock_only {
                        old(self).staged_flake_nix@
                    } else {
                        spec_replace_rev(old(self).staged_flake_nix@, cfg.flake_ref@, current@, target@)
                    }
                    &&& if old(self).no_lock {
                        r matches Ok(PinStaging::Nothing)
                    } else {
                        r matches Ok(PinStaging::Relock(x)) && x@ == spec_append_rev(cfg.flake_ref@, target@)
                    }
                },
            },
    {
        if text_eq(current, target) {
            return Ok(PinStaging::UpToDate);
        }
        match verdict {
            Err(e) => Err(e),
            Ok(()) => {
                if !cfg.lock_only {
                    self.staged_flake_nix = replace_rev(self.staged_flake_nix.as_str(), cfg.flake_ref.as_str(), current, target);
                }
                if self.no_lock {
                    Ok(PinStaging::Nothing)
                } else {
                    Ok(PinStaging::Relock(append_rev(cfg.flake_ref.as_str(), target)))
                }
            },
        }
    }

    /// The transaction writes the manifest: only when it locks.
    pub fn writes_manifest(&self) -> (r: bool)
        ensures
            r == !self.no_lock,
    {
        !self.no_lock
    }

    /// The staged `flake.nix` differs from the one read and must be written.
    pub fn flake_nix_changed(&self) -> (r: bool)
        ensures
            r == (self.staged_flake_nix@ != self.original_flake_nix@),
    {
        !text_eq(self.staged_flake_nix.as_str(), self.original_flake_nix.as_str())
    }
}

/// The item, if there is one, as a list.
pub open spec fn optional_item<T>(o: Option<T>) -> Seq<T> {
    match o {
        Some(x) => seq![x],
        None => seq![],
    }
}

/// The staged files and the destinations they replace, in commit order: the
/// staged `flake.nix`, then the staged lock, then the manifest.
pub fn commit_order(flake_nix: Option<(String, String)>, lock: Option<(String, String)>, manifest: Option<(String, String)>) -> (r: Vec<(String, String)>)
    ensures
        r@ == optional_item(flake_nix) + optional_item(lock) + optional_item(manifest),
{
    let ghost a = optional_item(flake_nix);
    let ghost b = optional_item(lock);
    let ghost c = optional_item(manifest);
    let mut out: Vec<(String, String)> = Vec::new();
    if let Some(x) = flake_nix {
        out.push(x);
    }
    if let Some(x) = lock {
        out.push(x);
    }
    if let Some(x) = manifest {
        out.push(x);
    }
    assert(out@ =~= a + b + c);
    out
}

} // verus!
