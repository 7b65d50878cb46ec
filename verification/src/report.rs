//! Search summaries: the one-line report of a revision's results and the
//! warnings after a search.
use crate::config::{opt_text, ConfigView, PinConfig};
use crate::error::{join2, join3, join4, join5};
use crate::narinfo::{result_views, spec_accepted, PackageCheckResult, PackageResultView};
use crate::text::{
    chars_of, copy_string, decimal, i64_text, join, join_strings, signed_decimal, string_of_range, text_eq,
    texts, usize_text,
};
use crate::textmap::{lookup, TextMap};
use vstd::prelude::*;

verus! {

/// The number of bytes that a character takes in UTF-8.
pub open spec fn utf8_width(c: char) -> int {
    if (c as u32) < 0x80 {
        1
    } else if (c as u32) < 0x800 {
        2
    } else if (c as u32) < 0x10000 {
        3
    } else {
        4
    }
}

/// The leading characters of `s` whose UTF-8 encoding fits in `budget`
/// bytes.
pub open spec fn take_bytes(s: Seq<char>, budget: int) -> Seq<char>
    decreases s.len(),
{
    if s.len() == 0 || utf8_width(s[0]) > budget {
        seq![]
    } else {
        seq![s[0]] + take_bytes(s.drop_first(), budget - utf8_width(s[0]))
    }
}

/// The first twelve bytes of a revision (all of a shorter one).
pub open spec fn short_rev(rev: Seq<char>) -> Seq<char> {
    take_bytes(rev, 12)
}

fn char_width(c: char) -> (w: usize)
    ensures
        w == utf8_width(c),
{
    let n = c as u32;
    if n < 0x80 {
        1
    } else if n < 0x800 {
        2
    } else if n < 0x10000 {
        3
    } else {
        4
    }
}

/// The first twelve bytes of a revision.
pub fn short_rev_text(rev: &str) -> (r: String)
    ensures
        r@ == short_rev(rev@),
{
    let v = chars_of(rev);
    let mut i: usize = 0;
    let mut budget: usize = 12;
    assert(v@.subrange(0, 0) + v@.subrange(0, v@.len() as int) =~= v@);
    assert(v@.subrange(0, v@.len() as int) =~= v@);
    while i < v.len()
        invariant_except_break
            i <= v@.len(),
            budget <= 12,
            take_bytes(v@, 12) == v@.subrange(0, i as int) + take_bytes(v@.subrange(i as int, v@.len() as int), budget as int),
        ensures
            i <= v@.len(),
            take_bytes(v@, 12) == v@.subrange(0, i as int),
        decreases v@.len() - i,
    {
        let ghost rest = v@.subrange(i as int, v@.len() as int);
        assert(rest[0] == v@[i as int]);
        assert(rest.drop_first() =~= v@.subrange(i + 1, v@.len() as int));
        let w = char_width(v[i]);
        if w > budget {
            assert(take_bytes(rest, budget as int) =~= Seq::<char>::empty());
            assert(v@.subrange(0, i as int) + Seq::<char>::empty() =~= v@.subrange(0, i as int));
            break;
        }
        assert(v@.subrange(0, i + 1) =~= v@.subrange(0, i as int) + seq![v@[i as int]]);
        budget = budget - w;
        i = i + 1;
    }
    if i == v.len() {
        assert(v@.subrange(i as int, v@.len() as int) =~= Seq::<char>::empty());
    }
    string_of_range(&v, 0, i)
}

/// How many results are cached.
pub open spec fn cached_count(rs: Seq<PackageResultView>) -> nat
    decreases rs.len(),
{
    if rs.len() == 0 {
        0
    } else {
        cached_count(rs.drop_last()) + if rs.last().cached { 1nat } else { 0nat }
    }
}

/// The packages that were not accepted, in order.
pub open spec fn missed_packages(rs: Seq<PackageResultView>) -> Seq<Seq<char>>
    decreases rs.len(),
{
    if rs.len() == 0 {
        seq![]
    } else if !spec_accepted(rs.last()) {
        missed_packages(rs.drop_last()).push(rs.last().package)
    } else {
        missed_packages(rs.drop_last())
    }
}

/// The version verdict that a result's summary mentions, if any.
pub open spec fn version_failure(r: PackageResultView) -> Option<Seq<char>> {
    if r.version_rejected_by.len() > 0 {
        Some(r.package + " version "@ + (match r.version {
            Some(v) => v,
            None => "unknown"@,
        }) + " rejected by "@ + join(r.version_rejected_by, "; "@))
    } else {
        match r.version_error {
            Some(e) => Some(r.package + " version check failed: "@ + e),
            None => None,
        }
    }
}

/// The version verdicts of the results, in order.
pub open spec fn version_failures(rs: Seq<PackageResultView>) -> Seq<Seq<char>>
    decreases rs.len(),
{
    if rs.len() == 0 {
        seq![]
    } else {
        match version_failure(rs.last()) {
            Some(m) => version_failures(rs.drop_last()).push(m),
            None => version_failures(rs.drop_last()),
        }
    }
}

/// The one-line summary of a revision's results, in three parts: the text
/// before the verdict word, whether every package is cached (the word is
/// then `all cached`, else `miss`), and the text after it.
pub open spec fn spec_rev_summary(rev: Seq<char>, eval_id: Option<int>, rs: Seq<PackageResultView>) -> (Seq<char>, bool, Seq<char>) {
    let tag = match eval_id {
        Some(id) => " (eval "@ + signed_decimal(id) + ")"@,
        None => seq![],
    };
    let counts = decimal(cached_count(rs)) + "/"@ + decimal(rs.len());
    if cached_count(rs) == rs.len() {
        ("  Rev "@ + short_rev(rev) + tag + ": "@ + counts + " "@, true, seq![])
    } else {
        let note = if version_failures(rs).len() == 0 {
            seq![]
        } else {
            " \u{2014} "@ + join(version_failures(rs), "; "@)
        };
        ("  Rev "@ + short_rev(rev) + tag + ": "@ + counts + " cached \u{2014} "@, false, ": "@ + join(missed_packages(rs), ", "@) + note)
    }
}

/// The verdict word of a summary.
pub open spec fn verdict_word(all_cached: bool) -> Seq<char> {
    if all_cached {
        "all cached"@
    } else {
        "miss"@
    }
}

/// A revision's summary line, with its verdict word apart so that it can
/// be highlighted.
#[derive(Debug)]
pub struct RevSummary {
    pub head: String,
    pub all_cached: bool,
    pub tail: String,
}

impl RevSummary {
    /// The whole line.
    pub fn text(&self) -> (r: String)
        ensures
            r@ == self.head@ + verdict_word(self.all_cached) + self.tail@,
    {
        let word = if self.all_cached { "all cached" } else { "miss" };
        join3(self.head.as_str(), word, self.tail.as_str())
    }
}

/// The version verdict that a result's summary mentions, if any.
fn version_failure_text(r: &PackageCheckResult) -> (m: Option<String>)
    ensures
        opt_text(m) == version_failure(r@),
{
    if r.version_rejected_by.len() > 0 {
        let version = match &r.version {
            Some(v) => v.as_str(),
            None => "unknown",
        };
        let gates = join_strings(&r.version_rejected_by, "; ");
        Some(join5(r.package.as_str(), " version ", version, " rejected by ", gates.as_str()))
    } else {
        match &r.version_error {
            Some(e) => Some(join3(r.package.as_str(), " version check failed: ", e.as_str())),
            None => None,
        }
    }
}

/// Formats the one-line summary of a revision's results: the cached count,
/// and for a partial result the missed packages and version verdicts.
pub fn format_rev_summary(rev: &str, eval_id: Option<i64>, results: &Vec<PackageCheckResult>) -> (r: RevSummary)
    ensures
        (r.head@, r.all_cached, r.tail@) == spec_rev_summary(rev@, match eval_id {
            Some(id) => Some(id as int),
            None => None,
        }, result_views(results@)),
{
    let ghost rs = result_views(results@);
    let mut cached: usize = 0;
    let mut misses: Vec<String> = Vec::new();
    let mut failures: Vec<String> = Vec::new();
    let mut i: usize = 0;
    while i < results.len()
        invariant
            i <= results@.len(),
            rs == result_views(results@),
            cached as nat == cached_count(rs.subrange(0, i as int)),
            cached <= i,
            texts(misses@) == missed_packages(rs.subrange(0, i as int)),
            texts(failures@) == version_failures(rs.subrange(0, i as int)),
        decreases results@.len() - i,
    {
        assert(rs.subrange(0, i + 1).drop_last() =~= rs.subrange(0, i as int));
        assert(rs.subrange(0, i + 1).last() == results@[i as int]@);
        if results[i].cached {
            cached = cached + 1;
        }
        if !results[i].accepted() {
            let ghost before = texts(misses@);
            misses.push(copy_string(&results[i].package));
            assert(texts(misses@) =~= before.push(results@[i as int]@.package));
        }
        match version_failure_text(&results[i]) {
            Some(m) => {
                let ghost before = texts(failures@);
                failures.push(m);
                assert(texts(failures@) =~= before.push(version_failure(results@[i as int]@)->0));
            },
            None => {},
        }
        i = i + 1;
    }
    assert(rs.subrange(0, i as int) =~= rs);
    let short = short_rev_text(rev);
    let tag = match eval_id {
        Some(id) => join3(" (eval ", i64_text(id).as_str(), ")"),
        None => String::new(),
    };
    let counts = join3(usize_text(cached).as_str(), "/", usize_text(results.len()).as_str());
    let head = join4("  Rev ", short.as_str(), tag.as_str(), ": ");
    if cached == results.len() {
        RevSummary { head: join3(head.as_str(), counts.as_str(), " "), all_cached: true, tail: String::new() }
    } else {
        let note = if failures.len() == 0 {
            String::new()
        } else {
            join2(" \u{2014} ", join_strings(&failures, "; ").as_str())
        };
        let missed = join_strings(&misses, ", ");
        RevSummary {
            head: join3(head.as_str(), counts.as_str(), " cached \u{2014} "),
            all_cached: false,
            tail: join3(": ", missed.as_str(), note.as_str()),
        }
    }
}

/// The packages cached somewhere in the results.
pub open spec fn ever_cached(rs: Seq<PackageResultView>, package: Seq<char>) -> bool {
    exists|i: int| 0 <= i < rs.len() && #[trigger] rs[i].cached && rs[i].package == package
}

/// The required packages that no result shows cached, in configuration
/// order; none when nothing was checked.
pub open spec fn spec_never_cached(packages: Seq<Seq<char>>, rs: Seq<PackageResultView>) -> Seq<Seq<char>>
    decreases packages.len(),
{
    if rs.len() == 0 || packages.len() == 0 {
        seq![]
    } else if ever_cached(rs, packages.last()) {
        spec_never_cached(packages.drop_last(), rs)
    } else {
        spec_never_cached(packages.drop_last(), rs).push(packages.last())
    }
}

/// The required packages that were never cached at any revision tried.
pub fn never_cached(cfg: &PinConfig, results: &Vec<PackageCheckResult>) -> (r: Vec<String>)
    ensures
        texts(r@) == spec_never_cached(cfg@.packages, result_views(results@)),
{
    let ghost rs = result_views(results@);
    let ghost ps = cfg@.packages;
    let mut out: Vec<String> = Vec::new();
    if results.len() == 0 {
        assert(texts(out@) =~= spec_never_cached(ps, rs));
        return out;
    }
    let mut cached: TextMap<()> = TextMap::new();
    let mut i: usize = 0;
    while i < results.len()
        invariant
            i <= results@.len(),
            rs == result_views(results@),
            forall|k: Seq<char>| lookup(cached@, k) is Some <==> exists|j: int| 0 <= j < i && #[trigger] rs[j].cached && rs[j].package == k,
        decreases results@.len() - i,
    {
        assert(rs[i as int] == results@[i as int]@);
        if results[i].cached {
            proof {
                use_type_invariant(&cached);
                crate::textmap::lemma_lookup_store(cached@, results@[i as int].package@, ());
            }
            cached.insert(copy_string(&results[i].package), ());
            assert forall|k: Seq<char>| lookup(cached@, k) is Some <==> exists|j: int| 0 <= j < i + 1 && #[trigger] rs[j].cached && rs[j].package == k by {
                if k == rs[i as int].package {
                    assert(rs[i as int].cached);
                }
            }
        } else {
            assert forall|k: Seq<char>| lookup(cached@, k) is Some <==> exists|j: int| 0 <= j < i + 1 && #[trigger] rs[j].cached && rs[j].package == k by {
                if exists|j: int| 0 <= j < i + 1 && #[trigger] rs[j].cached && rs[j].package == k {
                    let j = choose|j: int| 0 <= j < i + 1 && #[trigger] rs[j].cached && rs[j].package == k;
                    assert(j < i);
                }
            }
        }
        i = i + 1;
    }
    let mut k: usize = 0;
    while k < cfg.packages.len()
        invariant
            k <= cfg.packages@.len(),
            rs == result_views(results@),
            rs.len() > 0,
            ps == cfg@.packages,
            forall|x: Seq<char>| lookup(cached@, x) is Some <==> ever_cached(rs, x),
            texts(out@) == spec_never_cached(ps.subrange(0, k as int), rs),
        decreases cfg.packages@.len() - k,
    {
        assert(ps.subrange(0, k + 1).drop_last() =~= ps.subrange(0, k as int));
        assert(ps.subrange(0, k + 1).last() == cfg.packages@[k as int]@);
        if cached.get(cfg.packages[k].as_str()).is_none() {
            let ghost before = texts(out@);
            out.push(copy_string(&cfg.packages[k]));
            assert(texts(out@) =~= before.push(cfg.packages@[k as int]@));
        }
        k = k + 1;
    }
    assert(ps.subrange(0, k as int) =~= ps);
    out
}

/// The version warnings of the results: each distinct message once, in
/// first-seen order.
pub open spec fn version_warnings_of(seen: Seq<Seq<char>>, rs: Seq<PackageResultView>) -> Seq<Seq<char>>
    decreases rs.len(),
{
    if rs.len() == 0 {
        seen
    } else {
        let before = version_warnings_of(seen, rs.drop_last());
        let r = rs.last();
        let after_error = match r.version_error {
            Some(e) => {
                let m = r.package + " version check failed: "@ + e;
                if before.contains(m) { before } else { before.push(m) }
            },
            None => before,
        };
        if r.version_rejected_by.len() > 0 {
            let m = r.package + " version "@ + (match r.version {
                Some(v) => v,
                None => "unknown"@,
            }) + " rejected by "@ + join(r.version_rejected_by, "; "@);
            if after_error.contains(m) { after_error } else { after_error.push(m) }
        } else {
            after_error
        }
    }
}

/// Adds a message to a list unless it is there already.
fn push_new(list: &mut Vec<String>, m: String)
    ensures
        texts(final(list)@) == if texts(old(list)@).contains(m@) { texts(old(list)@) } else { texts(old(list)@).push(m@) },
{
    if crate::merge::holds_text(list, m.as_str()) {
        return;
    }
    let ghost before = texts(list@);
    list.push(m);
    assert(texts(list@) =~= before.push(m@));
}

/// The warnings about version checks that failed or rejected a package,
/// each once.
pub fn version_warnings(results: &Vec<PackageCheckResult>) -> (r: Vec<String>)
    ensures
        texts(r@) == version_warnings_of(seq![], result_views(results@)),
{
    let ghost rs = result_views(results@);
    let mut out: Vec<String> = Vec::new();
    let mut i: usize = 0;
    assert(texts(out@) =~= Seq::<Seq<char>>::empty());
    while i < results.len()
        invariant
            i <= results@.len(),
            rs == result_views(results@),
            texts(out@) == version_warnings_of(seq![], rs.subrange(0, i as int)),
        decreases results@.len() - i,
    {
        assert(rs.subrange(0, i + 1).drop_last() =~= rs.subrange(0, i as int));
        assert(rs.subrange(0, i + 1).last() == results@[i as int]@);
        let r = &results[i];
        if let Some(e) = &r.version_error {
            push_new(&mut out, join3(r.package.as_str(), " version check failed: ", e.as_str()));
        }
        if r.version_rejected_by.len() > 0 {
            let version = match &r.version {
                Some(v) => v.as_str(),
                None => "unknown",
            };
            let gates = join_strings(&r.version_rejected_by, "; ");
            push_new(&mut out, join5(r.package.as_str(), " version ", version, " rejected by ", gates.as_str()));
        }
        i = i + 1;
    }
    assert(rs.subrange(0, i as int) =~= rs);
    out
}

/// The header lines of a pin's search log: its name, where it looks, the
/// packages it needs and the wish packages it watches, then a blank line.
pub open spec fn spec_config_header(c: ConfigView) -> Seq<Seq<char>> {
    let first = seq![
        "nix-cache-pin: "@ + c.name,
        "  input: "@ + c.input_name + " | hydra: "@ + c.hydra_url + " | attr: "@ + crate::config::spec_full_attr_prefix(c)
            + " | arch: "@ + c.arch,
        "  packages: "@ + join(c.packages, ", "@),
    ];
    let wishes = if c.wish_packages.len() > 0 {
        seq!["  wish packages: "@ + join(c.wish_packages, ", "@)]
    } else {
        seq![]
    };
    first + wishes + seq![seq![]]
}

/// The header lines of a pin's search log.
pub fn config_header(cfg: &PinConfig) -> (r: Vec<String>)
    ensures
        texts(r@) == spec_config_header(cfg@),
{
    let l1 = join2("nix-cache-pin: ", cfg.name.as_str());
    let a = join4("  input: ", cfg.input_name.as_str(), " | hydra: ", cfg.hydra_url.as_str());
    let b = join4(" | attr: ", cfg.full_attr_prefix(), " | arch: ", cfg.arch.as_str());
    let l2 = join2(a.as_str(), b.as_str());
    let l3 = join2("  packages: ", join_strings(&cfg.packages, ", ").as_str());
    assert(l2@ =~= "  input: "@ + cfg@.input_name + " | hydra: "@ + cfg@.hydra_url + " | attr: "@
        + crate::config::spec_full_attr_prefix(cfg@) + " | arch: "@ + cfg@.arch);
    let ghost first = seq![l1@, l2@, l3@];
    let mut out: Vec<String> = Vec::new();
    out.push(l1);
    out.push(l2);
    out.push(l3);
    assert(texts(out@) =~= first);
    if cfg.wish_packages.len() > 0 {
        let l4 = join2("  wish packages: ", join_strings(&cfg.wish_packages, ", ").as_str());
        let ghost v4 = l4@;
        out.push(l4);
        assert(texts(out@) =~= first + seq![v4]);
    } else {
        assert(texts(out@) =~= first + Seq::<Seq<char>>::empty());
    }
    let ghost mid = texts(out@);
    out.push(String::new());
    assert(texts(out@) =~= mid + seq![Seq::<char>::empty()]);
    assert(first =~= seq![
        "nix-cache-pin: "@ + cfg@.name,
        "  input: "@ + cfg@.input_name + " | hydra: "@ + cfg@.hydra_url + " | attr: "@ + crate::config::spec_full_attr_prefix(cfg@)
            + " | arch: "@ + cfg@.arch,
        "  packages: "@ + join(cfg@.packages, ", "@),
    ]);
    out
}

} // verus!
