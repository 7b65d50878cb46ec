//! Binary-cache evidence for packages: the evaluation references that name a
//! package, the narinfo lookups that decide whether its store path (and
//! closure) is cached, and the per-package results they add up to.
use crate::config::{
    constraint_view, copy_opt, copy_strings, opt_text, spec_full_attr_prefix, string_view, ConfigView, ConstraintView,
    PinConfig, VersionConstraint,
};
use crate::version::{evaluate_version_rule, spec_evaluate_version_rule};
use crate::error::{join2, join3, join4, Error};
use crate::flakeref::{append_rev, spec_append_rev};
use crate::textmap::{lookup, store, TextMap};
use crate::text::{
    chars_of, char_index, copy_string, has_prefix, join, join_strings, owned, split_char,
    split_text, split_words, string_of_range, strip_prefix, texts, trim_end_char,
    trim_end_matches_char, words, lemma_char_index_from,
};
use vstd::prelude::*;

verus! {

/// Whether a store path is in a binary cache.
#[derive(Debug, Clone, Copy, PartialEq, Eq, Structural)]
pub enum Availability {
    Cached,
    Missing,
    /// No cache answered conclusively.
    Unknown,
}

/// The word that names an availability.
pub open spec fn availability_word(a: Availability) -> Seq<char> {
    match a {
        Availability::Cached => "cached"@,
        Availability::Missing => "missing"@,
        Availability::Unknown => "unknown"@,
    }
}

impl Availability {
    /// The word that names this availability.
    pub fn as_str(self) -> (r: &'static str)
        ensures
            r@ == availability_word(self),
    {
        match self {
            Availability::Cached => "cached",
            Availability::Missing => "missing",
            Availability::Unknown => "unknown",
        }
    }
}

/// The outcome of looking a store path up in the binary caches.
#[derive(Debug)]
pub struct CacheCheck {
    pub availability: Availability,
    /// The cache that had the path, or the first that failed to answer.
    pub cache: Option<String>,
    /// Why no cache answered conclusively.
    pub error: Option<String>,
}

/// The content of a cache lookup's outcome.
pub struct CacheCheckView {
    pub availability: Availability,
    pub cache: Option<Seq<char>>,
    pub error: Option<Seq<char>>,
}

impl View for CacheCheck {
    type V = CacheCheckView;

    open spec fn view(&self) -> CacheCheckView {
        CacheCheckView { availability: self.availability, cache: opt_text(self.cache), error: opt_text(self.error) }
    }
}

/// Everything learned about one package at one revision.
#[derive(Debug)]
pub struct PackageCheckResult {
    pub package: String,
    /// The consumer target evaluated in place of the package attribute.
    pub target: Option<String>,
    pub cached: bool,
    pub availability: Availability,
    pub cache: Option<String>,
    pub store_path: Option<String>,
    pub error: Option<String>,
    pub version: Option<String>,
    pub version_error: Option<String>,
    pub version_rejected_by: Vec<String>,
}

/// The content of a package result.
pub struct PackageResultView {
    pub package: Seq<char>,
    pub target: Option<Seq<char>>,
    pub cached: bool,
    pub availability: Availability,
    pub cache: Option<Seq<char>>,
    pub store_path: Option<Seq<char>>,
    pub error: Option<Seq<char>>,
    pub version: Option<Seq<char>>,
    pub version_error: Option<Seq<char>>,
    pub version_rejected_by: Seq<Seq<char>>,
}

impl View for PackageCheckResult {
    type V = PackageResultView;

    open spec fn view(&self) -> PackageResultView {
        PackageResultView {
            package: self.package@,
            target: opt_text(self.target),
            cached: self.cached,
            availability: self.availability,
            cache: opt_text(self.cache),
            store_path: opt_text(self.store_path),
            error: opt_text(self.error),
            version: opt_text(self.version),
            version_error: opt_text(self.version_error),
            version_rejected_by: texts(self.version_rejected_by@),
        }
    }
}

/// A package is accepted when it is cached, nothing failed, and no version
/// gate rejected it.
pub open spec fn spec_accepted(r: PackageResultView) -> bool {
    r.cached && r.error is None && r.version_error is None && r.version_rejected_by.len() == 0
}

/// Why a package was not accepted: the lookup error, else the version error,
/// else the version gates that rejected it.
pub open spec fn spec_failure(r: PackageResultView) -> Option<Seq<char>> {
    match r.error {
        Some(e) => Some(e),
        None => match r.version_error {
            Some(e) => Some(e),
            None => if r.version_rejected_by.len() > 0 {
                let version = match r.version {
                    Some(v) => v,
                    None => "unknown"@,
                };
                Some("version "@ + version + " rejected by "@ + join(r.version_rejected_by, "; "@))
            } else {
                None
            },
        },
    }
}

impl PackageCheckResult {
    /// The package is cached, nothing failed, and no version gate rejected it.
    pub fn accepted(&self) -> (r: bool)
        ensures
            r == spec_accepted(self@),
    {
        self.cached && self.error.is_none() && self.version_error.is_none() && self.version_rejected_by.len() == 0
    }

    /// Why the package was not accepted, if a reason is known.
    pub fn failure(&self) -> (r: Option<String>)
        ensures
            opt_text(r) == spec_failure(self@),
    {
        if let Some(e) = &self.error {
            return Some(copy_string(e));
        }
        if let Some(e) = &self.version_error {
            return Some(copy_string(e));
        }
        if self.version_rejected_by.len() > 0 {
            let version = match &self.version {
                Some(v) => v.as_str(),
                None => "unknown",
            };
            let gates = join_strings(&self.version_rejected_by, "; ");
            return Some(join4("version ", version, " rejected by ", gates.as_str()));
        }
        None
    }

    /// An independent copy.
    pub fn duplicate(&self) -> (r: Self)
        ensures
            r@ == self@,
    {
        PackageCheckResult {
            package: copy_string(&self.package),
            target: copy_opt(&self.target),
            cached: self.cached,
            availability: self.availability,
            cache: copy_opt(&self.cache),
            store_path: copy_opt(&self.store_path),
            error: copy_opt(&self.error),
            version: copy_opt(&self.version),
            version_error: copy_opt(&self.version_error),
            version_rejected_by: copy_strings(&self.version_rejected_by),
        }
    }
}

/// The results for a set of packages at one revision.
#[derive(Debug)]
pub struct VerifyResult {
    pub rev: String,
    /// Some package was checked and every checked package was accepted.
    pub all_cached: bool,
    pub results: Vec<PackageCheckResult>,
}

/// The views of a list of package results.
pub open spec fn result_views(v: Seq<PackageCheckResult>) -> Seq<PackageResultView> {
    v.map_values(|r: PackageCheckResult| r@)
}

/// Some package was checked and every checked package was accepted.
pub open spec fn spec_all_cached(rs: Seq<PackageResultView>) -> bool {
    rs.len() > 0 && forall|i: int| 0 <= i < rs.len() ==> spec_accepted(#[trigger] rs[i])
}

/// Sums up the package results at a revision.
pub fn verify_result(rev: &str, results: Vec<PackageCheckResult>) -> (r: VerifyResult)
    ensures
        r.rev@ == rev@,
        result_views(r.results@) == result_views(results@),
        r.all_cached == spec_all_cached(result_views(results@)),
{
    let ghost rs = result_views(results@);
    let mut all = results.len() > 0;
    let mut i: usize = 0;
    while i < results.len()
        invariant
            i <= results@.len(),
            rs == result_views(results@),
            all == (rs.len() > 0 && forall|j: int| 0 <= j < i ==> spec_accepted(#[trigger] rs[j])),
        decreases results@.len() - i,
    {
        assert(rs[i as int] == results@[i as int]@);
        if !results[i].accepted() {
            all = false;
        }
        i = i + 1;
    }
    VerifyResult { rev: owned(rev), all_cached: all, results }
}

/// The checks of a list of packages at one revision, recorded in order.
/// With fail-fast the checks stop at the first package that is not
/// accepted; otherwise every package is checked.
#[derive(Debug)]
pub struct PackageRun {
    pub packages: Vec<String>,
    pub fail_fast: bool,
    pub results: Vec<PackageCheckResult>,
    pub stopped: bool,
}

/// The recorded checks stop exactly at the first failure, and only with
/// fail-fast.
pub open spec fn stops_at_first_failure(fail_fast: bool, rs: Seq<PackageResultView>, stopped: bool) -> bool {
    &&& stopped <==> (fail_fast && rs.len() > 0 && !spec_accepted(rs.last()))
    &&& fail_fast ==> forall|i: int| 0 <= i < rs.len() - 1 ==> spec_accepted(#[trigger] rs[i])
}

impl PackageRun {
    /// Well formed: the results are for the first packages, in order, and
    /// the stop rule holds.
    pub open spec fn wf(&self) -> bool {
        &&& self.results@.len() <= self.packages@.len()
        &&& forall|i: int| 0 <= i < self.results@.len() ==> (#[trigger] self.results@[i])@.package == self.packages@[i]@
        &&& stops_at_first_failure(self.fail_fast, result_views(self.results@), self.stopped)
    }

    /// Every check that will be made was made.
    pub open spec fn done(&self) -> bool {
        self.stopped || self.results@.len() == self.packages@.len()
    }

    /// Nothing checked yet.
    pub fn new(packages: Vec<String>, fail_fast: bool) -> (r: Self)
        ensures
            r.wf(),
            r.packages == packages,
            r.fail_fast == fail_fast,
            r.results@.len() == 0,
            !r.stopped,
    {
        let r = PackageRun { packages, fail_fast, results: Vec::new(), stopped: false };
        assert(result_views(r.results@) =~= Seq::<PackageResultView>::empty());
        r
    }

    /// The package to check next, or none when the run is done.
    pub fn next(&self) -> (r: Option<String>)
        requires
            self.wf(),
        ensures
            self.done() ==> r is None,
            !self.done() ==> (r matches Some(p) && p@ == self.packages@[self.results@.len() as int]@),
    {
        if self.stopped || self.results.len() >= self.packages.len() {
            None
        } else {
            Some(copy_string(&self.packages[self.results.len()]))
        }
    }

    /// Records the check of the next package; with fail-fast a package that
    /// is not accepted stops the run.
    pub fn record(&mut self, result: PackageCheckResult)
        requires
            old(self).wf(),
            !old(self).done(),
            result@.package == old(self).packages@[old(self).results@.len() as int]@,
        ensures
            final(self).wf(),
            final(self).packages == old(self).packages,
            final(self).fail_fast == old(self).fail_fast,
            result_views(final(self).results@) == result_views(old(self).results@).push(result@),
            final(self).stopped == (old(self).fail_fast && !spec_accepted(result@)),
    {
        let ghost before = result_views(self.results@);
        let accepted = result.accepted();
        self.results.push(result);
        let ghost after = result_views(self.results@);
        assert(after =~= before.push(result@));
        self.stopped = self.fail_fast && !accepted;
        assert forall|i: int| self.fail_fast && 0 <= i < after.len() - 1 implies spec_accepted(#[trigger] after[i]) by {
            assert(after[i] == before[i]);
            if i >= before.len() - 1 {
                assert(!old(self).stopped);
            }
        }
    }

    /// The results of a finished run: with fail-fast every package before
    /// the last checked one was accepted, and the checks end at the last
    /// package or at the first that was not accepted; without it every
    /// package was checked.
    pub fn finish(self, rev: &str) -> (r: VerifyResult)
        requires
            self.wf(),
            self.done(),
        ensures
            r.rev@ == rev@,
            result_views(r.results@) == result_views(self.results@),
            r.all_cached == spec_all_cached(result_views(self.results@)),
            r.results@.len() <= self.packages@.len(),
            forall|i: int| 0 <= i < r.results@.len() ==> (#[trigger] r.results@[i])@.package == self.packages@[i]@,
            !self.fail_fast ==> r.results@.len() == self.packages@.len(),
            self.fail_fast ==> forall|i: int| 0 <= i < r.results@.len() - 1 ==> spec_accepted(#[trigger] result_views(r.results@)[i]),
            self.fail_fast ==> (r.results@.len() == self.packages@.len() || !spec_accepted(result_views(r.results@).last())),
    {
        let ghost rs = result_views(self.results@);
        let r = verify_result(rev, self.results);
        assert(result_views(r.results@).len() == r.results@.len());
        assert(rs.len() == self.results@.len());
        assert forall|i: int| 0 <= i < r.results@.len() implies (#[trigger] r.results@[i])@.package == self.packages@[i]@ by {
            assert(result_views(r.results@)[i] == rs[i]);
            assert(rs[i] == self.results@[i]@);
        }
        r
    }
}

/// The result recorded for a package whose check did not finish.
pub fn unfinished_result(package: String, reason: &str) -> (r: PackageCheckResult)
    ensures
        r@ == (PackageResultView {
            package: package@,
            target: None,
            cached: false,
            availability: Availability::Unknown,
            cache: None,
            store_path: None,
            error: Some("task join error: "@ + reason@),
            version: None,
            version_error: None,
            version_rejected_by: seq![],
        }),
{
    let r = PackageCheckResult {
        package,
        target: None,
        cached: false,
        availability: Availability::Unknown,
        cache: None,
        store_path: None,
        error: Some(join2("task join error: ", reason)),
        version: None,
        version_error: None,
        version_rejected_by: Vec::new(),
    };
    assert(texts(r.version_rejected_by@) =~= Seq::<Seq<char>>::empty());
    r
}

/// The qualified attribute of a package under an optional prefix.
pub open spec fn spec_build_attr(attr_prefix: Seq<char>, pkg: Seq<char>) -> Seq<char> {
    if attr_prefix.len() == 0 {
        pkg
    } else {
        attr_prefix + "."@ + pkg
    }
}

/// Builds the qualified attribute of a package under an optional prefix.
pub fn build_attr(attr_prefix: &str, pkg: &str) -> (r: String)
    ensures
        r@ == spec_build_attr(attr_prefix@, pkg@),
{
    if attr_prefix.unicode_len() == 0 {
        owned(pkg)
    } else {
        join3(attr_prefix, ".", pkg)
    }
}

/// The `nix eval` reference of a package's output path at a revision.
pub open spec fn spec_build_eval_ref(
    flake_ref: Seq<char>,
    rev: Seq<char>,
    arch: Seq<char>,
    flake_output: Seq<char>,
    attr_prefix: Seq<char>,
    pkg: Seq<char>,
) -> Seq<char> {
    spec_append_rev(flake_ref, rev) + "#"@ + flake_output + "."@ + arch + "."@ + spec_build_attr(attr_prefix, pkg)
        + ".outPath"@
}

/// Builds the `nix eval` reference of a package's output path at a revision.
pub fn build_eval_ref(flake_ref: &str, rev: &str, arch: &str, flake_output: &str, attr_prefix: &str, pkg: &str) -> (r: String)
    ensures
        r@ == spec_build_eval_ref(flake_ref@, rev@, arch@, flake_output@, attr_prefix@, pkg@),
{
    let pinned = append_rev(flake_ref, rev);
    let attr = build_attr(attr_prefix, pkg);
    let head = join4(pinned.as_str(), "#", flake_output, ".");
    let r = join4(head.as_str(), arch, ".", attr.as_str());
    join2(r.as_str(), ".outPath")
}

/// The `nix eval` reference of an attribute of a package at a revision.
pub open spec fn spec_build_eval_attr_ref(
    flake_ref: Seq<char>,
    rev: Seq<char>,
    arch: Seq<char>,
    flake_output: Seq<char>,
    attr_prefix: Seq<char>,
    pkg: Seq<char>,
    attr: Seq<char>,
) -> Seq<char> {
    spec_append_rev(flake_ref, rev) + "#"@ + flake_output + "."@ + arch + "."@ + spec_build_attr(attr_prefix, pkg)
        + "."@ + attr
}

/// Builds the `nix eval` reference of an attribute of a package at a revision.
pub fn build_eval_attr_ref(
    flake_ref: &str,
    rev: &str,
    arch: &str,
    flake_output: &str,
    attr_prefix: &str,
    pkg: &str,
    attr: &str,
) -> (r: String)
    ensures
        r@ == spec_build_eval_attr_ref(flake_ref@, rev@, arch@, flake_output@, attr_prefix@, pkg@, attr@),
{
    let pinned = append_rev(flake_ref, rev);
    let package_attr = build_attr(attr_prefix, pkg);
    let head = join4(pinned.as_str(), "#", flake_output, ".");
    let r = join4(head.as_str(), arch, ".", package_attr.as_str());
    join3(r.as_str(), ".", attr)
}

/// The output reference of a target in a consuming flake.
pub open spec fn spec_build_consumer_eval_ref(consumer_flake_ref: Seq<char>, target: Seq<char>) -> Seq<char> {
    trim_end_char(consumer_flake_ref, '#') + "#"@ + target + ".outPath"@
}

/// Builds the output reference of a target in a consuming flake.
pub fn build_consumer_eval_ref(consumer_flake_ref: &str, target: &str) -> (r: String)
    ensures
        r@ == spec_build_consumer_eval_ref(consumer_flake_ref@, target@),
{
    let base = trim_end_matches_char(consumer_flake_ref, '#');
    join4(base.as_str(), "#", target, ".outPath")
}

/// A path component that names a file or directory: not empty, `.` or `..`.
pub open spec fn is_normal_component(seg: Seq<char>) -> bool {
    seg.len() > 0 && seg != seq!['.'] && seg != seq!['.', '.']
}

/// The last name of a path whose unread front is `p` and whose trailing
/// component read so far is `seg`: empty and `.` components are skipped,
/// and a path that ends in `..` has no name.
pub open spec fn file_name_from(p: Seq<char>, seg: Seq<char>) -> Option<Seq<char>>
    decreases p.len(),
{
    if is_normal_component(seg) && (p.len() == 0 || p.last() == '/') {
        Some(seg)
    } else if seg == seq!['.', '.'] && (p.len() == 0 || p.last() == '/') {
        None
    } else if p.len() == 0 {
        None
    } else if p.last() == '/' {
        file_name_from(p.drop_last(), seq![])
    } else {
        file_name_from(p.drop_last(), seq![p.last()] + seg)
    }
}

/// The final component of a path, as `Path::file_name` gives it.
pub open spec fn file_name(p: Seq<char>) -> Option<Seq<char>> {
    file_name_from(p, seq![])
}

/// The part of `s` before the first `c`, or all of `s`.
pub open spec fn before_char(s: Seq<char>, c: char) -> Seq<char> {
    match char_index(s, c) {
        Some(i) => s.subrange(0, i),
        None => s,
    }
}

/// The narinfo hash of a store path: its file name up to the first `-`
/// (empty where the path has no file name).
pub open spec fn narinfo_hash(store_path: Seq<char>) -> Seq<char> {
    match file_name(store_path) {
        Some(name) => before_char(name, '-'),
        None => seq![],
    }
}

proof fn lemma_file_name_suffix(d: Seq<char>, n: Seq<char>, j: int)
    requires
        0 <= j <= n.len(),
        forall|i: int| 0 <= i < n.len() ==> n[i] != '/',
        is_normal_component(n),
    ensures
        file_name_from(d + seq!['/'] + n.subrange(0, j), n.subrange(j, n.len() as int)) == Some(n),
    decreases j,
{
    let p = d + seq!['/'] + n.subrange(0, j);
    let seg = n.subrange(j, n.len() as int);
    if j == 0 {
        assert(seg =~= n);
        assert(p.last() == '/');
    } else {
        assert(p.last() == n[j - 1]);
        assert(p.drop_last() =~= d + seq!['/'] + n.subrange(0, j - 1));
        assert(seq![p.last()] + seg =~= n.subrange(j - 1, n.len() as int));
        lemma_file_name_suffix(d, n, j - 1);
    }
}

/// The narinfo hash of a store path `dir/hash-name` is `hash`: the file
/// name's part before its first `-`.
pub proof fn lemma_narinfo_hash_of(dir: Seq<char>, hash: Seq<char>, name: Seq<char>)
    requires
        forall|i: int| 0 <= i < hash.len() ==> hash[i] != '/' && hash[i] != '-',
        forall|i: int| 0 <= i < name.len() ==> name[i] != '/',
    ensures
        narinfo_hash(dir + seq!['/'] + hash + seq!['-'] + name) == hash,
{
    let n = hash + seq!['-'] + name;
    assert forall|i: int| 0 <= i < n.len() implies n[i] != '/' by {
        if i < hash.len() {
            assert(n[i] == hash[i]);
        } else if i > hash.len() {
            assert(n[i] == name[i - hash.len() - 1]);
        }
    }
    assert(n[hash.len() as int] == '-');
    assert(n != seq!['.']) by {
        if n.len() == 1 {
            assert(hash.len() == 0 && n[0] == '-');
        }
    }
    assert(n != seq!['.', '.']) by {
        if n.len() == 2 {
            assert(n[hash.len() as int] == '-');
        }
    }
    lemma_file_name_suffix(dir, n, n.len() as int);
    assert(n.subrange(0, n.len() as int) =~= n);
    assert(n.subrange(n.len() as int, n.len() as int) =~= Seq::<char>::empty());
    assert(dir + seq!['/'] + hash + seq!['-'] + name =~= dir + seq!['/'] + n);
    crate::text::lemma_char_index_from(n, '-', 0);
    match char_index(n, '-') {
        Some(k) => {
            if k < hash.len() {
                assert(n[k] == hash[k]);
            }
            assert(k <= hash.len());
            assert(n.subrange(0, k) =~= hash);
        },
        None => {
            assert(n[hash.len() as int] != '-');
        },
    }
}

/// The last name of a path.
fn path_file_name(v: &Vec<char>) -> (r: Option<(usize, usize)>)
    ensures
        match r {
            Some((a, b)) => a <= b <= v@.len() && file_name(v@) == Some(v@.subrange(a as int, b as int)),
            None => file_name(v@) is None,
        },
{
    let mut i: usize = v.len();
    let mut end: usize = v.len();
    assert(v@.subrange(0, v@.len() as int) =~= v@);
    assert(v@.subrange(i as int, end as int) =~= Seq::<char>::empty());
    loop
        invariant
            i <= end <= v@.len(),
            file_name(v@) == file_name_from(v@.subrange(0, i as int), v@.subrange(i as int, end as int)),
        decreases i,
    {
        let ghost p = v@.subrange(0, i as int);
        let ghost seg = v@.subrange(i as int, end as int);
        let at_boundary = i == 0 || v[i - 1] == '/';
        if at_boundary {
            let len = end - i;
            let dot = len == 1 && v[i] == '.';
            let dots = len == 2 && v[i] == '.' && v[i + 1] == '.';
            proof {
                if len == 1 {
                    assert(seg =~= seq![v@[i as int]]);
                }
                if len == 2 {
                    assert(seg =~= seq![v@[i as int], v@[i + 1]]);
                }
                if dot {
                    assert(seg =~= seq!['.']);
                }
                if dots {
                    assert(seg =~= seq!['.', '.']);
                }
                if seg == seq!['.'] {
                    assert(seg.len() == 1 && seg[0] == '.');
                    assert(seg[0] == v@[i as int]);
                }
                if seg == seq!['.', '.'] {
                    assert(seg.len() == 2 && seg[0] == '.' && seg[1] == '.');
                    assert(seg[0] == v@[i as int] && seg[1] == v@[i + 1]);
                }
            }
            if len > 0 && !dot && !dots {
                return Some((i, end));
            }
            if dots {
                return None;
            }
            if i == 0 {
                return None;
            }
            assert(p.drop_last() =~= v@.subrange(0, i - 1));
            i = i - 1;
            end = i;
            assert(v@.subrange(i as int, end as int) =~= Seq::<char>::empty());
        } else {
            assert(p.drop_last() =~= v@.subrange(0, i - 1));
            assert(seq![p.last()] + seg =~= v@.subrange(i - 1, end as int));
            i = i - 1;
        }
    }
}

/// Extracts the narinfo hash from a store path: given
/// `/nix/store/aaaa...-hello-2.12`, the `aaaa...`.
pub fn store_path_narinfo_hash(store_path: &str) -> (r: String)
    ensures
        r@ == narinfo_hash(store_path@),
{
    let v = chars_of(store_path);
    match path_file_name(&v) {
        Some((a, b)) => {
            let ghost name = v@.subrange(a as int, b as int);
            let mut k: usize = a;
            while k < b && v[k] != '-'
                invariant
                    a <= k <= b <= v@.len(),
                    name == v@.subrange(a as int, b as int),
                    forall|j: int| a <= j < k ==> v@[j] != '-',
                decreases b - k,
            {
                k = k + 1;
            }
            proof {
                lemma_char_index_from(name, '-', 0);
                match char_index(name, '-') {
                    Some(x) => {
                        assert(name[x] == v@[a + x]);
                        if x < k - a {
                        } else if x > k - a {
                            assert(name[k - a] == v@[k as int]);
                        }
                        assert(name.subrange(0, x) =~= v@.subrange(a as int, k as int));
                    },
                    None => {
                        if k < b {
                            assert(name[k - a] == v@[k as int]);
                        }
                        assert(name =~= v@.subrange(a as int, k as int));
                    },
                }
            }
            string_of_range(&v, a, k)
        },
        None => String::new(),
    }
}

/// How one binary cache answered a narinfo request.
#[derive(Debug)]
pub enum ProbeOutcome {
    /// The narinfo is there.
    Found,
    /// The cache answered 404.
    NotFound,
    /// The cache answered with another unsuccessful status (its text).
    Status(String),
    /// The request failed (the transport's message).
    Failed(String),
}

/// The message recorded for a cache that did not answer conclusively.
pub open spec fn probe_error(cache: Seq<char>, outcome: ProbeOutcome) -> Option<Seq<char>> {
    match outcome {
        ProbeOutcome::Status(status) => Some(cache + " returned HTTP "@ + status@),
        ProbeOutcome::Failed(message) => Some(cache + ": "@ + message@),
        _ => None,
    }
}

/// What is known while the caches are asked in turn: the failures so far
/// and the first cache that failed.
#[derive(Debug)]
pub struct CacheProbe {
    pub errors: Vec<String>,
    pub error_cache: Option<String>,
}

/// The content of a probe: failure messages and the first failing cache.
pub struct ProbeView {
    pub errors: Seq<Seq<char>>,
    pub error_cache: Option<Seq<char>>,
}

impl View for CacheProbe {
    type V = ProbeView;

    open spec fn view(&self) -> ProbeView {
        ProbeView { errors: texts(self.errors@), error_cache: opt_text(self.error_cache) }
    }
}

/// The lookup's outcome once every cache was asked and none had the path:
/// missing when every configured cache answered 404, unknown otherwise.
pub open spec fn spec_probe_finish(p: ProbeView, configured: bool) -> CacheCheckView {
    if p.errors.len() == 0 && configured {
        CacheCheckView { availability: Availability::Missing, cache: None, error: None }
    } else {
        CacheCheckView {
            availability: Availability::Unknown,
            cache: p.error_cache,
            error: Some(if p.errors.len() == 0 {
                "no binary caches configured"@
            } else {
                join(p.errors, "; "@)
            }),
        }
    }
}

/// A path is reported cached only by the cache that had it; once every
/// cache was asked without a hit, it is missing exactly when caches are
/// configured and each answered that it lacks the path, and otherwise its
/// availability is unknown, with the reason.
pub proof fn lemma_probe_outcomes(p: ProbeView, configured: bool, cache: Seq<char>)
    ensures
        spec_probe_finish(p, configured).availability != Availability::Cached,
        (spec_probe_finish(p, configured).availability == Availability::Missing) <==> (p.errors.len() == 0 && configured),
        spec_probe_finish(p, configured).availability == Availability::Unknown ==> spec_probe_finish(p, configured).error is Some,
        spec_probe_finish(p, configured).availability == Availability::Missing ==> spec_probe_finish(p, configured).error is None,
        found_in(cache).availability == Availability::Cached && found_in(cache).cache == Some(cache) && found_in(cache).error is None,
{
}

/// The outcome of a lookup that found the path in a cache.
pub open spec fn found_in(cache: Seq<char>) -> CacheCheckView {
    CacheCheckView { availability: Availability::Cached, cache: Some(cache), error: None }
}

impl CacheProbe {
    /// Nothing asked yet.
    pub fn new() -> (r: Self)
        ensures
            r@.errors.len() == 0,
            r@.error_cache is None,
    {
        CacheProbe { errors: Vec::new(), error_cache: None }
    }

    /// Takes one cache's answer. A cache that has the path ends the lookup,
    /// with that cache; a 404 changes nothing; any other answer is recorded
    /// as a failure.
    pub fn record(&mut self, cache: &str, outcome: ProbeOutcome) -> (r: Option<CacheCheck>)
        ensures
            match outcome {
                ProbeOutcome::Found => final(self)@ == old(self)@ && (r matches Some(c) && c@ == found_in(cache@)),
                ProbeOutcome::NotFound => r is None && final(self)@ == old(self)@,
                _ => r is None && (probe_error(cache@, outcome) matches Some(m) && final(self)@ == (ProbeView {
                    errors: old(self)@.errors.push(m),
                    error_cache: if old(self)@.error_cache is Some { old(self)@.error_cache } else { Some(cache@) },
                })),
            },
    {
        let message = match outcome {
            ProbeOutcome::Found => {
                return Some(CacheCheck { availability: Availability::Cached, cache: Some(owned(cache)), error: None });
            },
            ProbeOutcome::NotFound => {
                return None;
            },
            ProbeOutcome::Status(status) => join3(cache, " returned HTTP ", status.as_str()),
            ProbeOutcome::Failed(m) => join3(cache, ": ", m.as_str()),
        };
        if self.error_cache.is_none() {
            self.error_cache = Some(owned(cache));
        }
        let ghost before = texts(self.errors@);
        self.errors.push(message);
        assert(texts(self.errors@) =~= before.push(message@));
        None
    }

    /// The lookup's outcome when no cache had the path; `configured` says
    /// whether any cache was configured.
    pub fn finish(&self, configured: bool) -> (r: CacheCheck)
        ensures
            r@ == spec_probe_finish(self@, configured),
    {
        if self.errors.len() == 0 && configured {
            CacheCheck { availability: Availability::Missing, cache: None, error: None }
        } else {
            let error = if self.errors.len() == 0 {
                owned("no binary caches configured")
            } else {
                join_strings(&self.errors, "; ")
            };
            CacheCheck { availability: Availability::Unknown, cache: copy_opt(&self.error_cache), error: Some(error) }
        }
    }
}

/// The rest of the first line that starts with `References:`.
pub open spec fn references_field(lines: Seq<Seq<char>>) -> Option<Seq<char>>
    decreases lines.len(),
{
    if lines.len() == 0 {
        None
    } else if has_prefix(lines[0], "References:"@) {
        Some(lines[0].subrange("References:"@.len() as int, lines[0].len() as int))
    } else {
        references_field(lines.drop_first())
    }
}

/// The narinfo hashes of a list of store paths.
pub open spec fn reference_hashes(paths: Seq<Seq<char>>) -> Seq<Seq<char>> {
    paths.map_values(|p: Seq<char>| narinfo_hash(p))
}

/// The narinfo hashes that a narinfo document lists as references.
pub open spec fn spec_narinfo_references(body: Seq<char>) -> Seq<Seq<char>> {
    match references_field(split_char(body, '\n')) {
        Some(field) => reference_hashes(words(field)),
        None => seq![],
    }
}

/// Reads the narinfo hashes of the references a narinfo document lists.
pub fn narinfo_references(body: &str) -> (r: Vec<String>)
    ensures
        texts(r@) == spec_narinfo_references(body@),
{
    let lines = split_text(body, '\n');
    let ghost ls = texts(lines@);
    let mut field: Option<String> = None;
    let mut i: usize = 0;
    assert(ls.subrange(0, ls.len() as int) =~= ls);
    while i < lines.len()
        invariant_except_break
            i <= lines@.len(),
            ls == texts(lines@),
            field is None,
            references_field(ls) == references_field(ls.subrange(i as int, ls.len() as int)),
        ensures
            match field {
                Some(f) => references_field(ls) == Some(f@),
                None => references_field(ls) is None,
            },
        decreases lines@.len() - i,
    {
        let ghost tail = ls.subrange(i as int, ls.len() as int);
        assert(tail[0] == lines@[i as int]@);
        assert(tail.drop_first() =~= ls.subrange(i + 1, ls.len() as int));
        match strip_prefix(lines[i].as_str(), "References:") {
            Some(rest) => {
                field = Some(rest);
                break;
            },
            None => {},
        }
        i = i + 1;
        if i == lines.len() {
            assert(ls.subrange(i as int, ls.len() as int) =~= Seq::<Seq<char>>::empty());
        }
    }
    let mut out: Vec<String> = Vec::new();
    match field {
        Some(f) => {
            let paths = split_words(f.as_str());
            let ghost ws = texts(paths@);
            let mut k: usize = 0;
            while k < paths.len()
                invariant
                    k <= paths@.len(),
                    ws == texts(paths@),
                    texts(out@) == reference_hashes(ws.subrange(0, k as int)),
                decreases paths@.len() - k,
            {
                let ghost before = texts(out@);
                let h = store_path_narinfo_hash(paths[k].as_str());
                assert(ws[k as int] == paths@[k as int]@);
                out.push(h);
                assert(texts(out@) =~= before.push(narinfo_hash(ws[k as int])));
                assert(texts(out@) =~= reference_hashes(ws.subrange(0, k + 1)));
                k = k + 1;
            }
            assert(ws.subrange(0, k as int) =~= ws);
        },
        None => {
            assert(texts(out@) =~= Seq::<Seq<char>>::empty());
        },
    }
    out
}

/// A walk over the closure of a store path: narinfo hashes still to look
/// up, the hashes already handed out, and the cache that had the root.
#[derive(Debug)]
pub struct ClosureWalk {
    pub pending: Vec<String>,
    pub checked: TextMap<()>,
    pub root_cache: Option<String>,
}

/// The content of a closure walk.
pub struct WalkView {
    pub pending: Seq<Seq<char>>,
    pub checked: Seq<(Seq<char>, ())>,
    pub root_cache: Option<Seq<char>>,
}

impl View for ClosureWalk {
    type V = WalkView;

    open spec fn view(&self) -> WalkView {
        WalkView { pending: texts(self.pending@), checked: self.checked@, root_cache: opt_text(self.root_cache) }
    }
}

/// The position of the last pending hash not yet handed out.
pub open spec fn last_unchecked(pending: Seq<Seq<char>>, checked: Seq<(Seq<char>, ())>) -> Option<int>
    decreases pending.len(),
{
    if pending.len() == 0 {
        None
    } else if lookup(checked, pending.last()) is None {
        Some(pending.len() - 1)
    } else {
        last_unchecked(pending.drop_last(), checked)
    }
}

proof fn lemma_last_unchecked(pending: Seq<Seq<char>>, checked: Seq<(Seq<char>, ())>)
    ensures
        match last_unchecked(pending, checked) {
            Some(k) => 0 <= k < pending.len() && lookup(checked, pending[k]) is None,
            None => true,
        },
    decreases pending.len(),
{
    if pending.len() > 0 && lookup(checked, pending.last()) is Some {
        lemma_last_unchecked(pending.drop_last(), checked);
    }
}

impl ClosureWalk {
    /// A walk that starts at the narinfo hash of `store_path`.
    pub fn new(store_path: &str) -> (r: Self)
        ensures
            r@.pending == seq![narinfo_hash(store_path@)],
            r@.checked.len() == 0,
            r@.root_cache is None,
    {
        let mut pending: Vec<String> = Vec::new();
        pending.push(store_path_narinfo_hash(store_path));
        let r = ClosureWalk { pending, checked: TextMap::new(), root_cache: None };
        assert(r@.pending =~= seq![narinfo_hash(store_path@)]);
        r
    }

    /// The next hash to look up: pending hashes are taken from the end, and
    /// those already handed out are dropped. A hash is handed out at most
    /// once.
    pub fn next(&mut self) -> (r: Option<String>)
        ensures
            final(self)@.root_cache == old(self)@.root_cache,
            match last_unchecked(old(self)@.pending, old(self)@.checked) {
                Some(k) => (r matches Some(h) && h@ == old(self)@.pending[k])
                    && lookup(old(self)@.checked, old(self)@.pending[k]) is None
                    && lookup(final(self)@.checked, old(self)@.pending[k]) is Some
                    && final(self)@.pending == old(self)@.pending.subrange(0, k)
                    && final(self)@.checked == store(old(self)@.checked, old(self)@.pending[k], ()),
                None => r is None && final(self)@.pending.len() == 0 && final(self)@.checked == old(self)@.checked,
            },
    {
        proof {
            lemma_last_unchecked(self@.pending, self@.checked);
        }
        let ghost start = self@;
        loop
            invariant
                start == old(self)@,
                self@.root_cache == start.root_cache,
                self@.checked == start.checked,
                self@.pending.len() <= start.pending.len(),
                self@.pending == start.pending.subrange(0, self@.pending.len() as int),
                last_unchecked(start.pending, start.checked) == last_unchecked(self@.pending, start.checked),
            decreases self@.pending.len(),
        {
            let ghost before = self@.pending;
            match self.pending.pop() {
                None => {
                    assert(before.len() == 0);
                    return None;
                },
                Some(h) => {
                    assert(before.last() == h@);
                    assert(self@.pending =~= before.drop_last());
                    assert(self@.pending =~= start.pending.subrange(0, self@.pending.len() as int));
                    assert(start.pending[self@.pending.len() as int] == before.last());
                    if self.checked.get(h.as_str()).is_none() {
                        assert(last_unchecked(before, start.checked) == Some(self@.pending.len() as int));
                        let ghost checked_before = self.checked@;
                        proof {
                            use_type_invariant(&self.checked);
                            crate::textmap::lemma_lookup_store(checked_before, h@, ());
                        }
                        self.checked.insert(copy_string(&h), ());
                        return Some(h);
                    }
                },
            }
        }
    }

    /// Takes the lookup of the hash last handed out. A lookup that did not
    /// find it ends the walk with that outcome; otherwise its references
    /// become pending and the first cache that had a path is kept.
    pub fn record(&mut self, check: CacheCheck, references: Vec<String>) -> (r: Option<CacheCheck>)
        ensures
            check.availability != Availability::Cached ==> (r matches Some(c) && c@ == check@) && final(self)@ == old(self)@,
            check.availability == Availability::Cached ==> r is None && final(self)@ == (WalkView {
                pending: old(self)@.pending + texts(references@),
                checked: old(self)@.checked,
                root_cache: if old(self)@.root_cache is Some { old(self)@.root_cache } else { check@.cache },
            }),
    {
        if check.availability != Availability::Cached {
            return Some(check);
        }
        if self.root_cache.is_none() {
            self.root_cache = check.cache;
        }
        let ghost start = texts(self.pending@);
        let ghost rc = self@.root_cache;
        let ghost ck = self@.checked;
        let mut i: usize = 0;
        while i < references.len()
            invariant
                i <= references@.len(),
                self@.root_cache == rc,
                self@.checked == ck,
                texts(self.pending@) == start + texts(references@).subrange(0, i as int),
            decreases references@.len() - i,
        {
            let ghost before = texts(self.pending@);
            self.pending.push(copy_string(&references[i]));
            assert(texts(self.pending@) =~= before.push(references@[i as int]@));
            assert(texts(references@).subrange(0, i + 1) =~= texts(references@).subrange(0, i as int).push(references@[i as int]@));
            i = i + 1;
        }
        assert(texts(references@).subrange(0, i as int) =~= texts(references@));
        None
    }

    /// The outcome once every hash of the closure was found.
    pub fn finish(&self) -> (r: CacheCheck)
        ensures
            r@ == (CacheCheckView { availability: Availability::Cached, cache: self@.root_cache, error: None }),
    {
        CacheCheck { availability: Availability::Cached, cache: copy_opt(&self.root_cache), error: None }
    }
}

/// The evaluation that yields a package's store path.
#[derive(Debug)]
pub enum StorePathQuery {
    /// A target of the consuming flake, at the consuming flake's own lock.
    CurrentConsumer { consumer_flake_ref: String, target: String },
    /// A target of the consuming flake, with the input overridden to the
    /// revision.
    Consumer { consumer_flake_ref: String, input_name: String, source_flake_ref: String, rev: String, target: String },
    /// The package attribute of the source flake at the revision.
    Source { flake_ref: String, rev: String, arch: String, flake_output: String, attr_prefix: String, pkg: String },
}

/// The consumer target configured for a package.
pub open spec fn spec_consumer_target(c: ConfigView, pkg: Seq<char>) -> Option<Seq<char>> {
    lookup(c.consumer_targets, pkg)
}

/// The consumer target configured for a package.
pub fn consumer_target(cfg: &PinConfig, pkg: &str) -> (r: Option<String>)
    ensures
        opt_text(r) == spec_consumer_target(cfg@, pkg@),
{
    proof {
        crate::textmap::lemma_map_vals(cfg.consumer_targets@, pkg@, vstd::pervasive::arbitrary(), string_view());
    }
    match cfg.consumer_targets.get(pkg) {
        Some(t) => Some(copy_string(t)),
        None => None,
    }
}

/// The evaluation that yields a package's store path at a revision: the
/// package's consumer target where a consuming flake and a target are
/// configured (at the consumer's own lock when `current` holds), else the
/// package attribute of the source flake.
pub open spec fn is_store_path_query(q: StorePathQuery, c: ConfigView, rev: Seq<char>, pkg: Seq<char>, current: bool) -> bool {
    match (c.consumer_flake_ref, spec_consumer_target(c, pkg)) {
        (Some(f), Some(t)) => if current {
            q matches StorePathQuery::CurrentConsumer { consumer_flake_ref, target }
                && consumer_flake_ref@ == f && target@ == t
        } else {
            q matches StorePathQuery::Consumer { consumer_flake_ref, input_name, source_flake_ref, rev: r, target }
                && consumer_flake_ref@ == f && input_name@ == c.input_name && source_flake_ref@ == c.flake_ref
                && r@ == rev && target@ == t
        },
        _ => q matches StorePathQuery::Source { flake_ref, rev: r, arch, flake_output, attr_prefix, pkg: p }
            && flake_ref@ == c.flake_ref && r@ == rev && arch@ == c.arch && flake_output@ == c.flake_output
            && attr_prefix@ == spec_full_attr_prefix(c) && p@ == pkg,
    }
}

/// With a consuming flake and a target for the package, the evaluation
/// runs at the consumer's own lock exactly when the current pin is checked;
/// any other query carries the revision asked about, and a consumer query
/// for a candidate overrides the configured input with it. Without them,
/// the source's package attribute is evaluated at the revision.
pub proof fn lemma_store_path_query_revision(q: StorePathQuery, c: ConfigView, rev: Seq<char>, pkg: Seq<char>, current: bool)
    requires
        is_store_path_query(q, c, rev, pkg, current),
    ensures
        (q is CurrentConsumer) <==> (current && c.consumer_flake_ref is Some && spec_consumer_target(c, pkg) is Some),
        q matches StorePathQuery::Consumer { input_name, rev: r, .. } ==> input_name@ == c.input_name && r@ == rev && !current,
        q matches StorePathQuery::Source { rev: r, pkg: p, .. } ==> r@ == rev && p@ == pkg,
        (q is Source) <==> !(c.consumer_flake_ref is Some && spec_consumer_target(c, pkg) is Some),
        q matches StorePathQuery::Consumer { consumer_flake_ref, source_flake_ref, target, .. } ==> Some(consumer_flake_ref@)
            == c.consumer_flake_ref && source_flake_ref@ == c.flake_ref && Some(target@) == spec_consumer_target(c, pkg),
        q matches StorePathQuery::CurrentConsumer { consumer_flake_ref, target } ==> Some(consumer_flake_ref@) == c.consumer_flake_ref
            && Some(target@) == spec_consumer_target(c, pkg),
        q matches StorePathQuery::Source { flake_ref, arch, flake_output, attr_prefix, .. } ==> flake_ref@ == c.flake_ref
            && arch@ == c.arch && flake_output@ == c.flake_output && attr_prefix@ == spec_full_attr_prefix(c),
{
}

/// Chooses the evaluation that yields a package's store path at a revision.
pub fn store_path_query(cfg: &PinConfig, rev: &str, pkg: &str, current: bool) -> (q: StorePathQuery)
    ensures
        is_store_path_query(q, cfg@, rev@, pkg@, current),
        cfg@.consumer_flake_ref is Some && spec_consumer_target(cfg@, pkg@) is Some ==> ((q is CurrentConsumer) == current),
        cfg@.consumer_flake_ref is Some && spec_consumer_target(cfg@, pkg@) is Some && !current ==> (q matches StorePathQuery::Consumer {
            input_name,
            rev: r,
            ..
        } && input_name@ == cfg@.input_name && r@ == rev@),
        !(cfg@.consumer_flake_ref is Some && spec_consumer_target(cfg@, pkg@) is Some) ==> (q matches StorePathQuery::Source {
            rev: r,
            pkg: p,
            ..
        } && r@ == rev@ && p@ == pkg@),
        q is CurrentConsumer ==> current,
{
    let target = consumer_target(cfg, pkg);
    if let (Some(f), Some(t)) = (&cfg.consumer_flake_ref, target) {
        if current {
            return StorePathQuery::CurrentConsumer { consumer_flake_ref: copy_string(f), target: t };
        } else {
            return StorePathQuery::Consumer {
                consumer_flake_ref: copy_string(f),
                input_name: copy_string(&cfg.input_name),
                source_flake_ref: copy_string(&cfg.flake_ref),
                rev: owned(rev),
                target: t,
            };
        }
    }
    StorePathQuery::Source {
        flake_ref: copy_string(&cfg.flake_ref),
        rev: owned(rev),
        arch: copy_string(&cfg.arch),
        flake_output: copy_string(&cfg.flake_output),
        attr_prefix: owned(cfg.full_attr_prefix()),
        pkg: owned(pkg),
    }
}

/// What a version gate said of a package: its version, why it could not be
/// judged, and the rules that refused it.
#[derive(Debug)]
pub struct VersionCheck {
    pub version: Option<String>,
    pub error: Option<String>,
    pub rejected_by: Vec<String>,
}

/// The content of a version check.
pub struct VersionCheckView {
    pub version: Option<Seq<char>>,
    pub error: Option<Seq<char>>,
    pub rejected_by: Seq<Seq<char>>,
}

impl View for VersionCheck {
    type V = VersionCheckView;

    open spec fn view(&self) -> VersionCheckView {
        VersionCheckView { version: opt_text(self.version), error: opt_text(self.error), rejected_by: texts(self.rejected_by@) }
    }
}

/// The version gate that applies to a package: none for a consumer target,
/// whose path comes from the complete consuming flake.
pub open spec fn spec_version_rule_for(c: ConfigView, pkg: Seq<char>, has_target: bool) -> Option<ConstraintView> {
    if has_target {
        None
    } else {
        lookup(c.version_constraints, pkg)
    }
}

/// No version gate applies to a package whose store path comes from a
/// consumer target; otherwise the package's configured gate applies, if
/// any. A gate's verdict records the evaluated version; an evaluation that
/// failed records its message and no version, and refuses nothing.
pub proof fn lemma_version_gate(c: ConfigView, pkg: Seq<char>, has_target: bool, rule: ConstraintView, value: Result<Seq<char>, Seq<char>>)
    ensures
        has_target ==> spec_version_rule_for(c, pkg, has_target) is None,
        !has_target ==> spec_version_rule_for(c, pkg, has_target) == lookup(c.version_constraints, pkg),
        value matches Ok(v) ==> spec_version_check(rule, value).version == Some(v),
        value matches Err(m) ==> spec_version_check(rule, value).version is None && spec_version_check(rule, value).error
            == Some(m) && spec_version_check(rule, value).rejected_by.len() == 0,
        match value {
            Ok(v) => {
                &&& (spec_version_check(rule, value).error is None <==> spec_evaluate_version_rule(v, rule) is Ok)
                &&& spec_evaluate_version_rule(v, rule) matches Ok(rs) ==> spec_version_check(rule, value).rejected_by == rs
                &&& spec_evaluate_version_rule(v, rule) is Err ==> spec_version_check(rule, value).rejected_by.len() == 0
            },
            Err(_) => true,
        },
{
}

/// The version gate that applies to a package.
pub fn version_rule_for(cfg: &PinConfig, pkg: &str, has_target: bool) -> (r: Option<VersionConstraint>)
    ensures
        match r {
            Some(rule) => spec_version_rule_for(cfg@, pkg@, has_target) == Some(rule@),
            None => spec_version_rule_for(cfg@, pkg@, has_target) is None,
        },
{
    if has_target {
        return None;
    }
    proof {
        crate::textmap::lemma_map_vals(cfg.version_constraints@, pkg@, vstd::pervasive::arbitrary(), constraint_view());
    }
    match cfg.version_constraints.get(pkg) {
        Some(rule) => Some(rule.duplicate()),
        None => None,
    }
}

/// The check of a package that no version gate applies to.
pub fn no_version_check() -> (r: VersionCheck)
    ensures
        r@ == (VersionCheckView { version: None, error: None, rejected_by: seq![] }),
{
    let r = VersionCheck { version: None, error: None, rejected_by: Vec::new() };
    assert(texts(r.rejected_by@) =~= Seq::<Seq<char>>::empty());
    r
}

/// What a version gate says of the evaluated version attribute (or of the
/// evaluation's failure message).
pub open spec fn spec_version_check(rule: ConstraintView, value: Result<Seq<char>, Seq<char>>) -> VersionCheckView {
    match value {
        Ok(v) => match spec_evaluate_version_rule(v, rule) {
            Ok(rejected) => VersionCheckView { version: Some(v), error: None, rejected_by: rejected },
            Err(m) => VersionCheckView { version: Some(v), error: Some("config error: "@ + m), rejected_by: seq![] },
        },
        Err(e) => VersionCheckView { version: None, error: Some(e), rejected_by: seq![] },
    }
}

/// Judges the evaluated version attribute of a package by its gate.
pub fn version_check(rule: &VersionConstraint, value: Result<String, String>) -> (r: VersionCheck)
    ensures
        r@ == spec_version_check(rule@, match value {
            Ok(v) => Ok(v@),
            Err(e) => Err(e@),
        }),
{
    match value {
        Ok(v) => match evaluate_version_rule(v.as_str(), rule) {
            Ok(decision) => VersionCheck { version: Some(decision.version), error: None, rejected_by: decision.rejected_by },
            Err(e) => {
                let message = e.message();
                let r = VersionCheck { version: Some(v), error: Some(message), rejected_by: Vec::new() };
                assert(texts(r.rejected_by@) =~= Seq::<Seq<char>>::empty());
                r
            },
        },
        Err(e) => {
            let r = VersionCheck { version: None, error: Some(e), rejected_by: Vec::new() };
            assert(texts(r.rejected_by@) =~= Seq::<Seq<char>>::empty());
            r
        },
    }
}

/// The result for a package whose store path was evaluated and looked up.
pub fn evaluated_result(pkg: &str, target: Option<String>, store_path: String, check: CacheCheck, version: VersionCheck) -> (r: PackageCheckResult)
    ensures
        r@ == (PackageResultView {
            package: pkg@,
            target: opt_text(target),
            cached: check.availability == Availability::Cached,
            availability: check.availability,
            cache: check@.cache,
            store_path: Some(store_path@),
            error: check@.error,
            version: version@.version,
            version_error: version@.error,
            version_rejected_by: version@.rejected_by,
        }),
{
    PackageCheckResult {
        package: owned(pkg),
        target,
        cached: check.availability == Availability::Cached,
        availability: check.availability,
        cache: check.cache,
        store_path: Some(store_path),
        error: check.error,
        version: version.version,
        version_error: version.error,
        version_rejected_by: version.rejected_by,
    }
}

/// The store path to look up in the caches, or, where evaluating it failed,
/// the finished result for the package, which carries the evaluation's
/// error.
pub fn after_store_path_eval(pkg: &str, target: &Option<String>, evaluated: Result<String, Error>) -> (r: Result<String, PackageCheckResult>)
    ensures
        match evaluated {
            Ok(path) => r matches Ok(p) && p@ == path@,
            Err(e) => r matches Err(res) && res@ == (PackageResultView {
                package: pkg@,
                target: opt_text(*target),
                cached: false,
                availability: Availability::Unknown,
                cache: None,
                store_path: None,
                error: Some(e.spec_message()),
                version: None,
                version_error: None,
                version_rejected_by: seq![],
            }),
        },
{
    match evaluated {
        Ok(path) => Ok(path),
        Err(e) => Err(failed_eval_result(pkg, copy_opt(target), e.message())),
    }
}

/// The result for a package whose store path could not be evaluated.
pub fn failed_eval_result(pkg: &str, target: Option<String>, message: String) -> (r: PackageCheckResult)
    ensures
        r@ == (PackageResultView {
            package: pkg@,
            target: opt_text(target),
            cached: false,
            availability: Availability::Unknown,
            cache: None,
            store_path: None,
            error: Some(message@),
            version: None,
            version_error: None,
            version_rejected_by: seq![],
        }),
{
    let r = PackageCheckResult {
        package: owned(pkg),
        target,
        cached: false,
        availability: Availability::Unknown,
        cache: None,
        store_path: None,
        error: Some(message),
        version: None,
        version_error: None,
        version_rejected_by: Vec::new(),
    };
    assert(texts(r.version_rejected_by@) =~= Seq::<Seq<char>>::empty());
    r
}

} // verus!
