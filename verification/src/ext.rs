//! What the library asks of the outside world: revision ordering and
//! attribute evaluation requests.
use vstd::prelude::*;

verus! {

/// Ordering of two revisions on the configured source branch.
#[derive(Debug, Clone, Copy, PartialEq, Eq, Structural)]
pub enum RevisionOrder {
    Equal,
    Newer,
    Older,
    Divergent,
    Unknown,
}

/// The attribute of a package to evaluate at a revision.
#[derive(Debug, Clone, Copy)]
pub struct EvalAttrRequest<'a> {
    pub flake_ref: &'a str,
    pub rev: &'a str,
    pub arch: &'a str,
    pub flake_output: &'a str,
    pub attr_prefix: &'a str,
    pub pkg: &'a str,
    pub attr: &'a str,
}

/// The commands that shell out to `nix` and query GitHub.
#[derive(Debug, Clone, Copy, Default)]
pub struct RealCommands;

} // verus!
