//! GitHub: listing a branch's commits and ordering two revisions.
use crate::error::{join2, join3, join4, join6, Error};
use crate::ext::RevisionOrder;
use crate::flakeref::{extract_github_repo, spec_github_repo};
use crate::text::{decimal, split_char, split_text, text_eq, texts, trim, trim_text, usize_text};
use vstd::prelude::*;

verus! {

/// The API path that lists a branch's most recent commits.
pub open spec fn spec_commits_path(owner_repo: Seq<char>, branch: Seq<char>, depth: nat) -> Seq<char> {
    "repos/"@ + owner_repo + "/commits?sha="@ + branch + "&per_page="@ + decimal(depth)
}

/// Builds the API path that lists a branch's most recent commits.
pub fn commits_path(owner_repo: &str, branch: &str, depth: usize) -> (r: String)
    ensures
        r@ == spec_commits_path(owner_repo@, branch@, depth as nat),
{
    join6("repos/", owner_repo, "/commits?sha=", branch, "&per_page=", usize_text(depth).as_str())
}

/// The lines of a text as `str::lines` gives them, before trimming: the
/// pieces between newlines, without the empty piece after a final newline.
pub open spec fn text_lines(s: Seq<char>) -> Seq<Seq<char>> {
    let pieces = split_char(s, '\n');
    if pieces.last().len() == 0 {
        pieces.drop_last()
    } else {
        pieces
    }
}

/// The trimmed lines of the listing: one commit per line.
pub open spec fn spec_commit_lines(stdout: Seq<char>) -> Seq<Seq<char>> {
    trimmed_all(text_lines(stdout))
}

/// Every text trimmed.
pub open spec fn trimmed_all(ls: Seq<Seq<char>>) -> Seq<Seq<char>> {
    ls.map_values(|l: Seq<char>| trim(l))
}

/// Reads the commits that the listing printed, one per line.
pub fn commit_lines(stdout: &str) -> (r: Vec<String>)
    ensures
        texts(r@) == spec_commit_lines(stdout@),
{
    let pieces = split_text(stdout, '\n');
    let ghost ps = texts(pieces@);
    proof {
        crate::text::lemma_split_char_nonempty(stdout@, '\n');
    }
    let n = if pieces[pieces.len() - 1].unicode_len() == 0 { pieces.len() - 1 } else { pieces.len() };
    let ghost ls = text_lines(stdout@);
    assert(ls =~= ps.subrange(0, n as int));
    let mut out: Vec<String> = Vec::new();
    let mut i: usize = 0;
    while i < n
        invariant
            i <= n <= pieces@.len(),
            ps == texts(pieces@),
            ls == ps.subrange(0, n as int),
            texts(out@) == trimmed_all(ls.subrange(0, i as int)),
        decreases n - i,
    {
        let ghost before = texts(out@);
        let t = trim_text(pieces[i].as_str());
        assert(ls[i as int] == pieces@[i as int]@);
        out.push(t);
        assert(texts(out@) =~= before.push(trim(ls[i as int])));
        assert(texts(out@) =~= trimmed_all(ls.subrange(0, i + 1)));
        i = i + 1;
    }
    assert(ls.subrange(0, i as int) =~= ls);
    out
}

/// The error a failed commit listing reports.
pub fn list_commits_error(owner_repo: &str, branch: &str, depth: usize, stderr: &str) -> (r: Error)
    ensures
        r matches Error::GitHub(m) && m@ == "failed to list commits for "@ + owner_repo@ + "@"@ + branch@
            + " with depth "@ + decimal(depth as nat) + ": "@ + trim(stderr@),
{
    let head = join4("failed to list commits for ", owner_repo, "@", branch);
    let tail = join4(" with depth ", usize_text(depth).as_str(), ": ", trim_text(stderr).as_str());
    Error::GitHub(join2(head.as_str(), tail.as_str()))
}

/// How to learn the order of two revisions.
#[derive(Debug)]
pub enum ComparePlan {
    /// Known without asking.
    Known(RevisionOrder),
    /// Ask GitHub's compare endpoint at this API path.
    Ask(String),
}

/// The same revision is equal to itself; only a `github:` source can be
/// asked, and any other is of unknown order.
pub fn compare_plan(flake_ref: &str, current: &str, candidate: &str) -> (r: ComparePlan)
    ensures
        current@ == candidate@ ==> (r matches ComparePlan::Known(o) && o == RevisionOrder::Equal),
        current@ != candidate@ ==> match spec_github_repo(flake_ref@) {
            None => (r matches ComparePlan::Known(o) && o == RevisionOrder::Unknown),
            Some(repo) => (r matches ComparePlan::Ask(p) && p@ == "repos/"@ + repo + "/compare/"@ + current@ + "..."@ + candidate@),
        },
{
    if text_eq(current, candidate) {
        return ComparePlan::Known(RevisionOrder::Equal);
    }
    match extract_github_repo(flake_ref) {
        None => ComparePlan::Known(RevisionOrder::Unknown),
        Some(repo) => ComparePlan::Ask(join6("repos/", repo.as_str(), "/compare/", current, "...", candidate)),
    }
}

/// The order that the compare endpoint's status reports; anything it does
/// not recognise is unknown.
pub open spec fn spec_compare_status(stdout: Seq<char>) -> RevisionOrder {
    let s = trim(stdout);
    if s == "identical"@ {
        RevisionOrder::Equal
    } else if s == "ahead"@ {
        RevisionOrder::Newer
    } else if s == "behind"@ {
        RevisionOrder::Older
    } else if s == "diverged"@ {
        RevisionOrder::Divergent
    } else {
        RevisionOrder::Unknown
    }
}

/// Reads the order from the compare endpoint's status.
pub fn compare_status(stdout: &str) -> (r: RevisionOrder)
    ensures
        r == spec_compare_status(stdout@),
{
    let s = trim_text(stdout);
    if text_eq(s.as_str(), "identical") {
        RevisionOrder::Equal
    } else if text_eq(s.as_str(), "ahead") {
        RevisionOrder::Newer
    } else if text_eq(s.as_str(), "behind") {
        RevisionOrder::Older
    } else if text_eq(s.as_str(), "diverged") {
        RevisionOrder::Divergent
    } else {
        RevisionOrder::Unknown
    }
}

} // verus!
