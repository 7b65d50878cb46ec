//! Pin configuration: what to pin, where to look, and the version gates.
use crate::text::{copy_string, owned, texts};
use crate::textmap::{keys_increasing, map_vals, TextMap};
use vstd::prelude::*;

verus! {

/// The character sequence of an optional string.
pub open spec fn opt_text(o: Option<String>) -> Option<Seq<char>> {
    match o {
        Some(s) => Some(s@),
        None => None,
    }
}

/// Copies a list of strings.
pub fn copy_strings(v: &Vec<String>) -> (r: Vec<String>)
    ensures
        texts(r@) == texts(v@),
{
    let mut out: Vec<String> = Vec::new();
    let mut i: usize = 0;
    while i < v.len()
        invariant
            i <= v@.len(),
            texts(out@) == texts(v@.subrange(0, i as int)),
        decreases v@.len() - i,
    {
        out.push(copy_string(&v[i]));
        assert(texts(v@.subrange(0, i + 1)) =~= texts(v@.subrange(0, i as int)).push(v@[i as int]@));
        assert(texts(out@) =~= texts(out@.drop_last()).push(out@.last()@));
        i = i + 1;
    }
    assert(v@.subrange(0, i as int) =~= v@);
    out
}

/// Copies an optional string.
pub fn copy_opt(o: &Option<String>) -> (r: Option<String>)
    ensures
        opt_text(r) == opt_text(*o),
{
    match o {
        Some(s) => Some(copy_string(s)),
        None => None,
    }
}

/// The entries of a text-to-text map, both sides as character sequences.
pub open spec fn text_pairs(m: Seq<(Seq<char>, String)>) -> Seq<(Seq<char>, Seq<char>)> {
    map_vals(m, string_view())
}

/// Viewing a string as its characters.
pub open spec fn string_view() -> spec_fn(String) -> Seq<char> {
    |v: String| v@
}

/// Viewing a version gate as its content.
pub open spec fn constraint_view() -> spec_fn(VersionConstraint) -> ConstraintView {
    |v: VersionConstraint| v@
}

/// Copies a text-to-text map.
pub fn copy_text_map(m: &TextMap<String>) -> (r: TextMap<String>)
    ensures
        text_pairs(r@) == text_pairs(m@),
{
    proof {
        use_type_invariant(m);
    }
    let mut out: Vec<(String, String)> = Vec::new();
    let mut i: usize = 0;
    while i < m.len()
        invariant
            i <= m@.len(),
            keys_increasing(m@),
            out@.len() == i,
            forall|j: int| 0 <= j < i ==> #[trigger] out@[j].0@ == m@[j].0 && out@[j].1@ == m@[j].1@,
        decreases m@.len() - i,
    {
        out.push((copy_string(m.key_at(i)), copy_string(m.value_at(i))));
        i = i + 1;
    }
    let ghost ov = out@.map_values(|e: (String, String)| (e.0@, e.1));
    assert forall|a: int, b: int| 0 <= a < b < ov.len() implies crate::text::text_lt(#[trigger] ov[a].0, #[trigger] ov[b].0) by {
        assert(ov[a].0 == m@[a].0 && ov[b].0 == m@[b].0);
    }
    let r = TextMap::from_ordered(out);
    assert(text_pairs(r@) =~= text_pairs(m@));
    r
}

/// A version gate on one package.
#[derive(Debug)]
pub struct VersionConstraint {
    /// Only versions matching this constraint are accepted.
    pub target: Option<String>,
    /// Versions matching any of these constraints are rejected.
    pub taints: Vec<String>,
    /// The package attribute that holds the version.
    pub version_attr: String,
}

/// The mathematical content of a version gate.
pub struct ConstraintView {
    pub target: Option<Seq<char>>,
    pub taints: Seq<Seq<char>>,
    pub version_attr: Seq<char>,
}

impl View for VersionConstraint {
    type V = ConstraintView;

    open spec fn view(&self) -> ConstraintView {
        ConstraintView {
            target: opt_text(self.target),
            taints: texts(self.taints@),
            version_attr: self.version_attr@,
        }
    }
}

impl VersionConstraint {
    /// An independent copy.
    pub fn duplicate(&self) -> (r: Self)
        ensures
            r@ == self@,
    {
        VersionConstraint {
            target: copy_opt(&self.target),
            taints: copy_strings(&self.taints),
            version_attr: copy_string(&self.version_attr),
        }
    }
}

/// The attribute read for a package's version when none is configured.
pub fn default_version_attr() -> (r: String)
    ensures
        r@ == "version"@,
{
    owned("version")
}

/// The entries of a version-gate map, gates by their content.
pub open spec fn constraint_pairs(m: Seq<(Seq<char>, VersionConstraint)>) -> Seq<(Seq<char>, ConstraintView)> {
    map_vals(m, constraint_view())
}

/// Copies a version-gate map.
pub fn copy_constraint_map(m: &TextMap<VersionConstraint>) -> (r: TextMap<VersionConstraint>)
    ensures
        constraint_pairs(r@) == constraint_pairs(m@),
{
    proof {
        use_type_invariant(m);
    }
    let mut out: Vec<(String, VersionConstraint)> = Vec::new();
    let mut i: usize = 0;
    while i < m.len()
        invariant
            i <= m@.len(),
            keys_increasing(m@),
            out@.len() == i,
            forall|j: int| 0 <= j < i ==> #[trigger] out@[j].0@ == m@[j].0 && out@[j].1@ == m@[j].1@,
        decreases m@.len() - i,
    {
        out.push((copy_string(m.key_at(i)), m.value_at(i).duplicate()));
        i = i + 1;
    }
    let ghost ov = out@.map_values(|e: (String, VersionConstraint)| (e.0@, e.1));
    assert forall|a: int, b: int| 0 <= a < b < ov.len() implies crate::text::text_lt(#[trigger] ov[a].0, #[trigger] ov[b].0) by {
        assert(ov[a].0 == m@[a].0 && ov[b].0 == m@[b].0);
    }
    let r = TextMap::from_ordered(out);
    assert(constraint_pairs(r@) =~= constraint_pairs(m@));
    r
}

/// One pin requirement: a flake input to move to a revision at which the
/// listed packages are in the binary caches.
#[derive(Debug)]
pub struct PinConfig {
    pub name: String,
    pub packages: Vec<String>,
    pub wish_packages: Vec<String>,
    /// A consuming flake whose targets select the packages instead of the
    /// source flake's attributes.
    pub consumer_flake_ref: Option<String>,
    /// Package name to target path in the consuming flake.
    pub consumer_targets: TextMap<String>,
    pub input_name: String,
    pub attr_prefix: String,
    pub python_packages: Option<String>,
    pub caches: Vec<String>,
    pub hydra_jobset: String,
    pub hydra_url: String,
    pub hydra_job_pattern: String,
    pub hydra_rev_input: String,
    pub depth: usize,
    pub branch: String,
    pub branch_fallbacks: Vec<String>,
    pub flake_ref: String,
    pub flake_output: String,
    pub fail_fast: bool,
    pub arch: String,
    pub lock_only: bool,
    pub verify_closure: bool,
    /// Package name to its version gate.
    pub version_constraints: TextMap<VersionConstraint>,
    /// An explicit attribute prefix that overrides the derived one.
    pub full_attr_prefix: Option<String>,
}

/// The mathematical content of a pin configuration.
pub struct ConfigView {
    pub name: Seq<char>,
    pub packages: Seq<Seq<char>>,
    pub wish_packages: Seq<Seq<char>>,
    pub consumer_flake_ref: Option<Seq<char>>,
    pub consumer_targets: Seq<(Seq<char>, Seq<char>)>,
    pub input_name: Seq<char>,
    pub attr_prefix: Seq<char>,
    pub python_packages: Option<Seq<char>>,
    pub caches: Seq<Seq<char>>,
    pub hydra_jobset: Seq<char>,
    pub hydra_url: Seq<char>,
    pub hydra_job_pattern: Seq<char>,
    pub hydra_rev_input: Seq<char>,
    pub depth: nat,
    pub branch: Seq<char>,
    pub branch_fallbacks: Seq<Seq<char>>,
    pub flake_ref: Seq<char>,
    pub flake_output: Seq<char>,
    pub fail_fast: bool,
    pub arch: Seq<char>,
    pub lock_only: bool,
    pub verify_closure: bool,
    pub version_constraints: Seq<(Seq<char>, ConstraintView)>,
    pub full_attr_prefix: Option<Seq<char>>,
}

impl View for PinConfig {
    type V = ConfigView;

    open spec fn view(&self) -> ConfigView {
        ConfigView {
            name: self.name@,
            packages: texts(self.packages@),
            wish_packages: texts(self.wish_packages@),
            consumer_flake_ref: opt_text(self.consumer_flake_ref),
            consumer_targets: text_pairs(self.consumer_targets@),
            input_name: self.input_name@,
            attr_prefix: self.attr_prefix@,
            python_packages: opt_text(self.python_packages),
            caches: texts(self.caches@),
            hydra_jobset: self.hydra_jobset@,
            hydra_url: self.hydra_url@,
            hydra_job_pattern: self.hydra_job_pattern@,
            hydra_rev_input: self.hydra_rev_input@,
            depth: self.depth as nat,
            branch: self.branch@,
            branch_fallbacks: texts(self.branch_fallbacks@),
            flake_ref: self.flake_ref@,
            flake_output: self.flake_output@,
            fail_fast: self.fail_fast,
            arch: self.arch@,
            lock_only: self.lock_only,
            verify_closure: self.verify_closure,
            version_constraints: constraint_pairs(self.version_constraints@),
            full_attr_prefix: opt_text(self.full_attr_prefix),
        }
    }
}

/// The attribute set that package names are looked up in: the explicit
/// override, else the Python package set, else the attribute prefix.
pub open spec fn spec_full_attr_prefix(c: ConfigView) -> Seq<char> {
    match c.full_attr_prefix {
        Some(p) => p,
        None => match c.python_packages {
            Some(p) => p,
            None => c.attr_prefix,
        },
    }
}

impl PinConfig {
    /// The attribute set that package names are looked up in.
    pub fn full_attr_prefix(&self) -> (r: &str)
        ensures
            r@ == spec_full_attr_prefix(self@),
    {
        if let Some(fap) = &self.full_attr_prefix {
            return fap.as_str();
        }
        if let Some(pp) = &self.python_packages {
            pp.as_str()
        } else {
            self.attr_prefix.as_str()
        }
    }

    /// An independent copy.
    pub fn duplicate(&self) -> (r: Self)
        ensures
            r@ == self@,
    {
        PinConfig {
            name: copy_string(&self.name),
            packages: copy_strings(&self.packages),
            wish_packages: copy_strings(&self.wish_packages),
            consumer_flake_ref: copy_opt(&self.consumer_flake_ref),
            consumer_targets: copy_text_map(&self.consumer_targets),
            input_name: copy_string(&self.input_name),
            attr_prefix: copy_string(&self.attr_prefix),
            python_packages: copy_opt(&self.python_packages),
            caches: copy_strings(&self.caches),
            hydra_jobset: copy_string(&self.hydra_jobset),
            hydra_url: copy_string(&self.hydra_url),
            hydra_job_pattern: copy_string(&self.hydra_job_pattern),
            hydra_rev_input: copy_string(&self.hydra_rev_input),
            depth: self.depth,
            branch: copy_string(&self.branch),
            branch_fallbacks: copy_strings(&self.branch_fallbacks),
            flake_ref: copy_string(&self.flake_ref),
            flake_output: copy_string(&self.flake_output),
            fail_fast: self.fail_fast,
            arch: copy_string(&self.arch),
            lock_only: self.lock_only,
            verify_closure: self.verify_closure,
            version_constraints: copy_constraint_map(&self.version_constraints),
            full_attr_prefix: copy_opt(&self.full_attr_prefix),
        }
    }
}

} // verus!
