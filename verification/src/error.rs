//! The library's errors and their messages.
use crate::text::owned;
use vstd::prelude::*;

verus! {

/// Everything that can go wrong while searching for, checking or applying a pin.
#[derive(Debug)]
pub enum Error {
    /// An HTTP request failed (the transport's message).
    Http(String),
    /// `nix eval` failed for a package or target.
    NixEval { package: String, stderr: String },
    /// The GitHub API failed.
    GitHub(String),
    /// The configuration is unusable.
    Config(String),
    /// Requirements for one flake input cannot be combined.
    PinMerge { input_name: String, pins: String, reason: String },
    /// `flake.nix` or `flake.lock` could not be read or changed as needed.
    FlakeNix(String),
    /// `flake.nix` does not exist at the given path.
    FlakeNixNotFound(String),
    /// A file system operation failed (the operating system's message).
    Io(String),
    /// A JSON document could not be read or written (the parser's message).
    Json(String),
    /// A required package was missing at a revision and the search was told
    /// to stop at the first miss.
    FailFast { rev: String },
    /// Wish packages are now available and must be promoted.
    WishPackagesBuilt { location: String, packages: String },
    /// The candidate revision is older than, or diverges from, the current pin.
    RevisionPolicy { current: String, candidate: String, relation: String },
    /// The order of the candidate and current revisions could not be proven.
    RevisionOrderUnknown { current: String, candidate: String },
    /// A background task did not finish.
    TaskJoin { task: String, source: String },
}

/// `a` followed by `b`.
pub fn join2(a: &str, b: &str) -> (r: String)
    ensures
        r@ == a@ + b@,
{
    let mut r = owned(a);
    r.append(b);
    r
}

/// The pieces one after the other.
pub fn join3(a: &str, b: &str, c: &str) -> (r: String)
    ensures
        r@ == a@ + b@ + c@,
{
    let mut r = owned(a);
    r.append(b);
    r.append(c);
    r
}

/// The pieces one after the other.
pub fn join4(a: &str, b: &str, c: &str, d: &str) -> (r: String)
    ensures
        r@ == a@ + b@ + c@ + d@,
{
    let mut r = owned(a);
    r.append(b);
    r.append(c);
    r.append(d);
    r
}

/// The pieces one after the other.
pub fn join5(a: &str, b: &str, c: &str, d: &str, e: &str) -> (r: String)
    ensures
        r@ == a@ + b@ + c@ + d@ + e@,
{
    let mut r = owned(a);
    r.append(b);
    r.append(c);
    r.append(d);
    r.append(e);
    r
}

/// The pieces one after the other.
pub fn join6(a: &str, b: &str, c: &str, d: &str, e: &str, f: &str) -> (r: String)
    ensures
        r@ == a@ + b@ + c@ + d@ + e@ + f@,
{
    let mut r = owned(a);
    r.append(b);
    r.append(c);
    r.append(d);
    r.append(e);
    r.append(f);
    r
}

/// The pieces one after the other.
pub fn join7(a: &str, b: &str, c: &str, d: &str, e: &str, f: &str, g: &str) -> (r: String)
    ensures
        r@ == a@ + b@ + c@ + d@ + e@ + f@ + g@,
{
    let mut r = owned(a);
    r.append(b);
    r.append(c);
    r.append(d);
    r.append(e);
    r.append(f);
    r.append(g);
    r
}

impl Error {
    /// The human-readable message of an error.
    pub open spec fn spec_message(&self) -> Seq<char> {
        match self {
            Error::Http(m) => "HTTP request failed: "@ + m@,
            Error::NixEval { package, stderr } => "nix eval failed for "@ + package@ + ": "@ + stderr@,
            Error::GitHub(m) => "GitHub API failed: "@ + m@,
            Error::Config(m) => "config error: "@ + m@,
            Error::PinMerge { input_name, pins, reason } => "cache-pin target '"@ + input_name@
                + "' cannot merge pins "@ + pins@ + ": "@ + reason@,
            Error::FlakeNix(m) => "flake.nix error: "@ + m@,
            Error::FlakeNixNotFound(p) => "flake.nix not found at "@ + p@,
            Error::Io(m) => "IO error: "@ + m@,
            Error::Json(m) => "JSON error: "@ + m@,
            Error::FailFast { rev } => "fail-fast: cache miss at rev "@ + rev@,
            Error::WishPackagesBuilt { location, packages } => "wish package(s) are now built ("@
                + location@ + "): "@ + packages@ + "; move them from wishPackages to packages"@,
            Error::RevisionPolicy { current, candidate, relation } => "revision policy refused candidate "@
                + candidate@ + " for current "@ + current@ + ": "@ + relation@
                + "; use an explicit downgrade override for recovery"@,
            Error::RevisionOrderUnknown { current, candidate } => "revision ordering is unknown for candidate "@
                + candidate@ + " against current "@ + current@
                + "; refusing to update without proof"@,
            Error::TaskJoin { task, source } => task@ + " task failed: "@ + source@,
        }
    }

    /// The human-readable message of an error.
    pub fn message(&self) -> (r: String)
        ensures
            r@ == self.spec_message(),
    {
        match self {
            Error::Http(m) => join2("HTTP request failed: ", m.as_str()),
            Error::NixEval { package, stderr } => join4(
                "nix eval failed for ",
                package.as_str(),
                ": ",
                stderr.as_str(),
            ),
            Error::GitHub(m) => join2("GitHub API failed: ", m.as_str()),
            Error::Config(m) => join2("config error: ", m.as_str()),
            Error::PinMerge { input_name, pins, reason } => join6(
                "cache-pin target '",
                input_name.as_str(),
                "' cannot merge pins ",
                pins.as_str(),
                ": ",
                reason.as_str(),
            ),
            Error::FlakeNix(m) => join2("flake.nix error: ", m.as_str()),
            Error::FlakeNixNotFound(p) => join2("flake.nix not found at ", p.as_str()),
            Error::Io(m) => join2("IO error: ", m.as_str()),
            Error::Json(m) => join2("JSON error: ", m.as_str()),
            Error::FailFast { rev } => join2("fail-fast: cache miss at rev ", rev.as_str()),
            Error::WishPackagesBuilt { location, packages } => join5(
                "wish package(s) are now built (",
                location.as_str(),
                "): ",
                packages.as_str(),
                "; move them from wishPackages to packages",
            ),
            Error::RevisionPolicy { current, candidate, relation } => join7(
                "revision policy refused candidate ",
                candidate.as_str(),
                " for current ",
                current.as_str(),
                ": ",
                relation.as_str(),
                "; use an explicit downgrade override for recovery",
            ),
            Error::RevisionOrderUnknown { current, candidate } => join5(
                "revision ordering is unknown for candidate ",
                candidate.as_str(),
                " against current ",
                current.as_str(),
                "; refusing to update without proof",
            ),
            Error::TaskJoin { task, source } => join3(task.as_str(), " task failed: ", source.as_str()),
        }
    }
}

} // verus!
